use corrosion::buffer::Buffer;
use corrosion::disk::Disk;
use corrosion::minixfs3::{init, DirEntry, Inode, MinixFileSystem, SuperBlock, BLOCK_SIZE};

const BS: usize = 1024;
const INODE_TABLE: usize = 4;
const S_IFDIR: u16 = 0x4000;
const S_IFREG: u16 = 0x8000;

struct Image {
    bytes: Vec<u8>,
    next_zone: u32,
}

impl Image {
    fn new(blocks: usize) -> Image {
        let mut image = Image { bytes: vec![0u8; blocks * BS], next_zone: 8 };
        image.put_u32(BS, 64);
        image.put_u16(BS + 6, 1);
        image.put_u16(BS + 8, 1);
        image.put_u16(BS + 10, 8);
        image.put_u32(BS + 16, 0x7fff_ffff);
        image.put_u32(BS + 20, blocks as u32);
        image.put_u16(BS + 24, 0x4d5a);
        image.put_u16(BS + 28, 1024);
        image.bytes[BS + 30] = 3;
        image
    }

    fn put_u16(&mut self, at: usize, v: u16) {
        self.bytes[at..at + 2].copy_from_slice(&v.to_le_bytes());
    }

    fn put_u32(&mut self, at: usize, v: u32) {
        self.bytes[at..at + 4].copy_from_slice(&v.to_le_bytes());
    }

    fn zone(&mut self) -> u32 {
        let z = self.next_zone;
        self.next_zone += 1;
        z
    }

    fn data_zone(&mut self, fill: &[u8]) -> u32 {
        let z = self.zone();
        let at = z as usize * BS;
        self.bytes[at..at + fill.len()].copy_from_slice(fill);
        z
    }

    fn index_zone(&mut self, entries: &[u32]) -> u32 {
        let z = self.zone();
        for (i, e) in entries.iter().enumerate() {
            self.put_u32(z as usize * BS + 4 * i, *e);
        }
        z
    }

    fn inode(&mut self, num: u32, mode: u16, size: u32, zones: [u32; 10]) {
        let at = INODE_TABLE * BS + (num as usize - 1) * 64;
        self.put_u16(at, mode);
        self.put_u16(at + 2, 1);
        self.put_u32(at + 8, size);
        for (i, z) in zones.iter().enumerate() {
            self.put_u32(at + 24 + 4 * i, *z);
        }
    }

    fn dir_zone(&mut self, entries: &[(u32, &str)]) -> u32 {
        let z = self.zone();
        for (i, (num, name)) in entries.iter().enumerate() {
            let at = z as usize * BS + 64 * i;
            self.put_u32(at, *num);
            self.bytes[at + 4..at + 4 + name.len()].copy_from_slice(name.as_bytes());
        }
        z
    }

    fn disk(self) -> Disk {
        Disk::new(self.bytes)
    }
}

fn pattern(seed: u8) -> Vec<u8> {
    (0..BS).map(|i| seed.wrapping_add((i % 251) as u8)).collect()
}

fn hello_image() -> Image {
    let mut image = Image::new(64);
    let root = image.dir_zone(&[(1, "."), (1, ".."), (2, "hello.txt"), (3, "sub"), (0, "gone")]);
    image.inode(1, S_IFDIR | 0o755, 5 * 64, [root, 0, 0, 0, 0, 0, 0, 0, 0, 0]);
    let hello = image.data_zone(b"hi\n");
    image.inode(2, S_IFREG | 0o644, 3, [hello, 0, 0, 0, 0, 0, 0, 0, 0, 0]);
    let sub = image.dir_zone(&[(3, "."), (1, ".."), (4, "deep.txt"), (5, "empty")]);
    image.inode(3, S_IFDIR | 0o755, 4 * 64, [sub, 0, 0, 0, 0, 0, 0, 0, 0, 0]);
    let deep = image.data_zone(b"deeper");
    image.inode(4, S_IFREG | 0o644, 6, [0, deep, 0, 0, 0, 0, 0, 0, 0, 0]);
    let empty = image.dir_zone(&[(5, "."), (3, "..")]);
    image.inode(5, S_IFDIR | 0o755, 2 * 64, [empty, 0, 0, 0, 0, 0, 0, 0, 0, 0]);
    image
}

/// A file whose blocks lie behind all four kinds of zones, with holes, and
/// the flat array of its bytes.
fn scattered_image() -> (Image, Inode, Vec<u8>) {
    let mut image = Image::new(96);
    let mut flat: Vec<u8> = Vec::new();
    let mut seed = 1u8;
    let mut data = |image: &mut Image, flat: &mut Vec<u8>| -> u32 {
        let block = pattern(seed);
        seed = seed.wrapping_mul(7).wrapping_add(3);
        flat.extend_from_slice(&block);
        image.data_zone(&block)
    };
    let d0 = data(&mut image, &mut flat);
    let d2 = data(&mut image, &mut flat);
    let d6 = data(&mut image, &mut flat);
    let i1 = data(&mut image, &mut flat);
    let i5 = data(&mut image, &mut flat);
    let i255 = data(&mut image, &mut flat);
    let mut single = [0u32; 256];
    single[1] = i1;
    single[5] = i5;
    single[255] = i255;
    let single = image.index_zone(&single);
    let a0 = data(&mut image, &mut flat);
    let a9 = data(&mut image, &mut flat);
    let mut first = [0u32; 256];
    first[0] = a0;
    first[9] = a9;
    let first = image.index_zone(&first);
    let b3 = data(&mut image, &mut flat);
    let mut second = [0u32; 256];
    second[3] = b3;
    let second = image.index_zone(&second);
    let mut double = [0u32; 256];
    double[2] = first;
    double[200] = second;
    let double = image.index_zone(&double);
    let t7 = data(&mut image, &mut flat);
    let t8 = data(&mut image, &mut flat);
    let mut leaf = [0u32; 256];
    leaf[7] = t7;
    leaf[8] = t8;
    let leaf = image.index_zone(&leaf);
    let mut middle = [0u32; 256];
    middle[100] = leaf;
    let middle = image.index_zone(&middle);
    let mut triple = [0u32; 256];
    triple[1] = middle;
    let triple = image.index_zone(&triple);
    let zones = [d0, 0, d2, 0, 0, 0, d6, single, double, triple];
    let size = flat.len() as u32 - 100;
    image.inode(2, S_IFREG | 0o644, size, zones);
    let inode = Inode {
        mode: S_IFREG | 0o644,
        nlinks: 1,
        uid: 0,
        gid: 0,
        size,
        atime: 0,
        mtime: 0,
        ctime: 0,
        zones,
    };
    flat.truncate(size as usize);
    (image, inode, flat)
}

#[test]
fn superblock_is_parsed_from_its_sector() {
    let disk = hello_image().disk();
    let fs = init(&disk);
    let mut sector = Buffer::new(512);
    disk.read(sector.get_mut(), 512, 1024);
    let sb = SuperBlock::parse(sector.get());
    assert_eq!(sb.ninodes, 64);
    assert_eq!(sb.imap_blocks, 1);
    assert_eq!(sb.zmap_blocks, 1);
    assert_eq!(sb.first_data_zone, 8);
    assert_eq!(sb.max_size, 0x7fff_ffff);
    assert_eq!(sb.zones, 64);
    assert_eq!(sb.magic, 0x4d5a);
    assert_eq!(sb.block_size, 1024);
    assert_eq!(sb.disk_version, 3);
    assert!(sb.is_minixfs());
    assert_eq!(sb.blocks_first_four_areas(), 4);
    assert!(fs.get_inode(&disk, 1).is_some());
}

#[test]
fn inode_addressing_follows_the_formula() {
    let sb = SuperBlock { imap_blocks: 3, zmap_blocks: 5, magic: 0x4d5a, ..SuperBlock::empty() };
    assert_eq!(sb.blocks_first_four_areas(), 10);
    assert_eq!(sb.inode_offset(1), 0);
    assert_eq!(sb.inode_index(1), 0);
    assert_eq!(sb.inode_offset(16), 0);
    assert_eq!(sb.inode_index(16), 15);
    assert_eq!(sb.inode_offset(17), 1);
    assert_eq!(sb.inode_index(17), 0);
    assert_eq!(sb.inode_offset_and_index(1), (10 * 1024, 0));
    assert_eq!(sb.inode_offset_and_index(40), (10 * 1024 + 2 * 1024, 7));
    assert_eq!(sb.inode_offset_and_index(u32::MAX).0, 10 * 1024 + 268435455 * 1024);
}

#[test]
fn inode_zero_and_foreign_superblock_give_no_inode() {
    let disk = hello_image().disk();
    let fs = init(&disk);
    assert!(fs.get_inode(&disk, 0).is_none());
    let inode = fs.get_inode(&disk, 2).expect("inode 2");
    assert_eq!(inode.size, 3);
    assert!(!inode.is_directory());
    assert!(fs.get_inode(&disk, 1).expect("root").is_directory());
    let blank = Disk::new(vec![0u8; 8 * BS]);
    let none = init(&blank);
    assert!(none.get_inode(&blank, 1).is_none());
    let mut buf = vec![7u8; 16];
    assert_eq!(none.read_file(&blank, "/hello.txt", &mut buf, 16, 0), 0);
    assert_eq!(buf, vec![7u8; 16]);
}

#[test]
fn hello_file_reads_three_bytes() {
    let disk = hello_image().disk();
    let fs = init(&disk);
    let mut buf = vec![0xaau8; 100];
    let n = fs.read_file(&disk, "/hello.txt", &mut buf, 100, 0);
    assert_eq!(n, 3);
    assert_eq!(&buf[0..3], b"hi\n");
    assert_eq!(buf[3], 0xaa);
}

#[test]
fn read_is_clamped_to_what_lies_behind_the_offset() {
    let disk = hello_image().disk();
    let fs = init(&disk);
    let mut buf = vec![0u8; 100];
    assert_eq!(fs.read_file(&disk, "/hello.txt", &mut buf, 100, 1), 2);
    assert_eq!(&buf[0..2], b"i\n");
    assert_eq!(fs.read_file(&disk, "/hello.txt", &mut buf, 1, 2), 1);
    assert_eq!(buf[0], b'\n');
    assert_eq!(fs.read_file(&disk, "/hello.txt", &mut buf, 100, 3), 0);
    assert_eq!(fs.read_file(&disk, "/hello.txt", &mut buf, 100, 4000), 0);
    assert_eq!(fs.read_file(&disk, "/hello.txt", &mut buf, 0, 0), 0);
}

#[test]
fn cache_holds_files_under_absolute_paths_and_no_directory() {
    let disk = hello_image().disk();
    let fs = init(&disk);
    let mut buf = vec![0u8; 16];
    assert_eq!(fs.read_file(&disk, "/sub/deep.txt", &mut buf, 16, 0), 6);
    assert_eq!(&buf[0..6], b"deeper");
    assert_eq!(fs.read_file(&disk, "/sub", &mut buf, 16, 0), 0);
    assert_eq!(fs.read_file(&disk, "/sub/empty", &mut buf, 16, 0), 0);
    assert_eq!(fs.read_file(&disk, "sub/deep.txt", &mut buf, 16, 0), 0);
    assert_eq!(fs.read_file(&disk, "/gone", &mut buf, 16, 0), 0);
    assert_eq!(fs.read_file(&disk, "/.", &mut buf, 16, 0), 0);
    assert_eq!(fs.read_file(&disk, "/missing", &mut buf, 16, 0), 0);
}

#[test]
fn hole_in_front_of_a_zone_is_skipped() {
    let disk = hello_image().disk();
    let fs = init(&disk);
    let inode = fs.get_inode(&disk, 4).expect("inode 4");
    assert_eq!(inode.zones[0], 0);
    let mut buf = vec![0u8; 6];
    assert_eq!(MinixFileSystem::read(&disk, &inode, &mut buf, 6, 0), 6);
    assert_eq!(&buf[..], b"deeper");
}

#[test]
fn directory_entries_are_listed_with_their_names() {
    let disk = hello_image().disk();
    let fs = init(&disk);
    let root = fs.get_inode(&disk, 1).expect("root");
    let entries: Vec<DirEntry> = root.get_dirents(&disk);
    assert_eq!(entries.len(), 5);
    assert_eq!(entries[2].inode, 2);
    assert_eq!(entries[2].abs_name("/", 1), "/hello.txt");
    assert_eq!(entries[3].abs_name("/", 1), "/sub");
    assert_eq!(entries[2].abs_name("/sub", 3), "/sub/hello.txt");
    let full = DirEntry { inode: 9, name: [b'x'; 60] };
    assert_eq!(full.abs_name("/d", 7), format!("/d/{}", "x".repeat(60)));
    let high = DirEntry { inode: 9, name: {
        let mut name = [0u8; 60];
        name[0] = 0xe9;
        name
    } };
    assert_eq!(high.abs_name("/", 1), "/\u{e9}");
}

#[test]
fn scattered_file_matches_its_flat_array() {
    let (image, inode, flat) = scattered_image();
    let disk = image.disk();
    let size = flat.len() as u32;
    let offsets = [0u32, 1, 1023, 1024, 1025, 2047, 2048, 3000, 3072, 5000, 6144, 8191, 8192, 9000,
        10240, 11000, size - 1];
    let sizes = [0u32, 1, 7, 8, 9, 1023, 1024, 1025, 2048, 4000, 20000];
    for &offset in offsets.iter() {
        for &want in sizes.iter() {
            let mut buf = vec![0x55u8; want as usize + 3];
            let n = MinixFileSystem::read(&disk, &inode, &mut buf, want, offset);
            let expect = want.min(size - offset);
            assert_eq!(n, expect, "offset {} size {}", offset, want);
            let from = offset as usize;
            assert_eq!(&buf[..n as usize], &flat[from..from + n as usize]);
            assert!(buf[n as usize..].iter().all(|b| *b == 0x55));
        }
    }
}

#[test]
fn every_offset_of_the_scattered_file_reads_its_byte() {
    let (image, inode, flat) = scattered_image();
    let disk = image.disk();
    let mut buf = vec![0u8; 1];
    let mut offset = 0u32;
    while (offset as usize) < flat.len() {
        assert_eq!(MinixFileSystem::read(&disk, &inode, &mut buf, 1, offset), 1);
        assert_eq!(buf[0], flat[offset as usize]);
        offset += 37;
    }
    let mut all = vec![0u8; flat.len()];
    assert_eq!(MinixFileSystem::read(&disk, &inode, &mut all, flat.len() as u32, 0), flat.len() as u32);
    assert_eq!(all, flat);
}

#[test]
fn read_ends_with_the_last_zone_of_a_file_that_claims_more() {
    let mut image = Image::new(32);
    let only = image.data_zone(&pattern(9));
    let inode = Inode {
        mode: S_IFREG,
        nlinks: 1,
        uid: 0,
        gid: 0,
        size: 5000,
        atime: 0,
        mtime: 0,
        ctime: 0,
        zones: [only, 0, 0, 0, 0, 0, 0, 0, 0, 0],
    };
    let disk = image.disk();
    let mut buf = vec![0u8; 5000];
    assert_eq!(MinixFileSystem::read(&disk, &inode, &mut buf, 5000, 0), 1024);
    assert_eq!(&buf[..1024], &pattern(9)[..]);
    assert_eq!(MinixFileSystem::read(&disk, &inode, &mut buf, 5000, 1000), 24);
    assert_eq!(MinixFileSystem::read(&disk, &inode, &mut buf, 5000, 1024), 0);
}

#[test]
fn zone_past_the_end_of_the_image_reads_as_zeros() {
    let disk = Disk::new(vec![1u8; 2048]);
    let inode = Inode {
        mode: S_IFREG,
        nlinks: 1,
        uid: 0,
        gid: 0,
        size: 3000,
        atime: 0,
        mtime: 0,
        ctime: 0,
        zones: [1, 9, 0, 0, 0, 0, 0, 0, 0, 0],
    };
    let mut buf = vec![7u8; 10];
    assert_eq!(MinixFileSystem::read(&disk, &inode, &mut buf, 10, 1020), 10);
    assert_eq!(buf, vec![1, 1, 1, 1, 0, 0, 0, 0, 0, 0]);
    assert_eq!(disk.len(), 2048);
    assert_eq!(BLOCK_SIZE, 1024);
}

#[test]
fn disk_read_begins_with_the_sector_of_the_offset() {
    let bytes: Vec<u8> = (0..2048u32).map(|i| (i / 512) as u8 * 16 + (i % 16) as u8).collect();
    let disk = Disk::new(bytes);
    let mut buf = vec![0xffu8; 6];
    disk.read(&mut buf, 4, 512 + 5);
    assert_eq!(buf, vec![16, 17, 18, 19, 0xff, 0xff]);
    disk.read(&mut buf, 6, 2046);
    assert_eq!(buf, vec![48, 49, 50, 51, 52, 53]);
    disk.read(&mut buf, 2, 4096);
    assert_eq!(&buf[..2], &[0, 0]);
}
