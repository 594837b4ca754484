use corrosion::allocator::{alloc_bytes, init as heap_init, Heap};
use corrosion::buffer::Buffer;
use corrosion::disk::DiskReader;
use corrosion::memory::{align_val, load_u16_le, load_u32_le, memcpy};
use corrosion::minixfs3::{
    bit_count, bitmap_used, first_free, Inode, MinixFileSystem, BLOCK_SIZE,
};
use corrosion::path_cache::{str_before, PathCache};

#[test]
fn align_val_rounds_up_to_the_power_of_two() {
    assert_eq!(align_val(0, 3), 0);
    assert_eq!(align_val(1, 3), 8);
    assert_eq!(align_val(8, 3), 8);
    assert_eq!(align_val(9, 3), 16);
    assert_eq!(align_val(0x8000_0261, 12), 0x8000_1000);
    assert_eq!(align_val(4096, 12), 4096);
    assert_eq!(align_val(5, 0), 5);
}

#[test]
fn memcpy_copies_every_byte_of_the_range() {
    let src: Vec<u8> = (0..32u8).collect();
    let mut dest = vec![0xffu8; 20];
    memcpy(&mut dest, 2, &src, 5, 11);
    let mut expect = vec![0xffu8; 20];
    for i in 0..11 {
        expect[2 + i] = 5 + i as u8;
    }
    assert_eq!(dest, expect);
    memcpy(&mut dest, 0, &src, 0, 0);
    assert_eq!(dest, expect);
}

#[test]
fn little_endian_numbers_are_loaded() {
    let bytes = vec![0x5a, 0x4d, 0x78, 0x56, 0x34, 0x12, 0xff, 0xff, 0xff, 0xff];
    assert_eq!(load_u16_le(&bytes, 0), 0x4d5a);
    assert_eq!(load_u32_le(&bytes, 2), 0x1234_5678);
    assert_eq!(load_u32_le(&bytes, 6), u32::MAX);
    assert_eq!(load_u16_le(&bytes, 8), u16::MAX);
}

#[test]
fn buffer_has_its_length_and_keeps_what_is_stored() {
    let mut buffer = Buffer::new(10);
    assert_eq!(buffer.len(), 10);
    assert_eq!(buffer.get(), &vec![0u8; 10]);
    buffer.set(3, 7);
    buffer.get_mut()[4] = 9;
    assert_eq!(buffer.index(3), 7);
    assert_eq!(buffer.index(4), 9);
    let copy = buffer.clone();
    buffer.set(3, 1);
    assert_eq!(copy.index(3), 7);
    assert_eq!(copy.len(), 10);
    assert_eq!(Buffer::default().len(), BLOCK_SIZE as usize);
    assert_eq!(Buffer::new(0).len(), 0);
}

fn inode_of_size(size: u32) -> Inode {
    Inode { mode: 0x8000, nlinks: 1, uid: 0, gid: 0, size, atime: 0, mtime: 0, ctime: 0, zones: [0; 10] }
}

#[test]
fn path_cache_returns_the_latest_inode_of_a_path() {
    let mut cache = PathCache::new();
    assert!(cache.get("/a").is_none());
    cache.insert(String::from("/a"), inode_of_size(1));
    cache.insert(String::from("/b"), inode_of_size(2));
    cache.insert(String::from("/a"), inode_of_size(3));
    assert_eq!(cache.get("/a").map(|i| i.size), Some(3));
    assert_eq!(cache.get("/b").map(|i| i.size), Some(2));
    assert!(cache.get("/c").is_none());
    assert!(cache.get("").is_none());
}

#[test]
fn bit_count_counts_the_set_bits() {
    assert_eq!(bit_count(0), 0);
    assert_eq!(bit_count(1), 1);
    assert_eq!(bit_count(0x80), 1);
    assert_eq!(bit_count(0b1011_0010), 4);
    assert_eq!(bit_count(0xff), 8);
    for byte in 0..=255u8 {
        assert_eq!(bit_count(byte), byte.count_ones());
    }
    let bytes = vec![0xff, 0x0f, 0x00, 0x01];
    assert_eq!(bitmap_used(&bytes, 4), 13);
    assert_eq!(bitmap_used(&bytes, 2), 12);
    assert_eq!(bitmap_used(&bytes, 0), 0);
    assert_eq!(first_free(&bytes, 4), Some(13));
    assert_eq!(first_free(&bytes, 1), None);
    assert_eq!(first_free(&vec![0xfe], 1), Some(1));
    assert_eq!(first_free(&vec![0xff, 0x7f], 2), Some(16));
    assert_eq!(first_free(&vec![], 0), None);
}

#[test]
fn path_cache_lists_its_paths_in_ascending_order() {
    let mut cache = PathCache::new();
    for (path, size) in [("/b", 1), ("/a", 2), ("/a/x", 3), ("/B", 4), ("/a", 5), ("/\u{e9}", 6)] {
        cache.insert(String::from(path), inode_of_size(size));
    }
    let listed: Vec<(String, u32)> = cache.list().into_iter().map(|(p, i)| (p, i.size)).collect();
    let expect: Vec<(String, u32)> = [("/B", 4), ("/a", 5), ("/a/x", 3), ("/b", 1), ("/\u{e9}", 6)]
        .iter()
        .map(|(p, s)| (String::from(*p), *s))
        .collect();
    assert_eq!(listed, expect);
    assert_eq!(cache.get("/a").map(|i| i.size), Some(5));
    assert!(str_before("", "a"));
    assert!(!str_before("a", ""));
    assert!(!str_before("a", "a"));
    assert!(str_before("a", "ab"));
    assert!(str_before("ab", "b"));
    assert!(str_before("Z", "a"));
    assert!(str_before("z", "\u{e9}"));
    assert!(!str_before("/b", "/a/x"));
}

#[test]
fn disk_reader_collects_sectors_from_memory() {
    let mut heap = Heap::new(0x8000_0000, 600 * 4096).expect("layout fits");
    heap_init(&mut heap);
    let buffer = alloc_bytes(&mut heap, 512);
    let mut reader = DiskReader::new(2);
    assert_eq!(reader.next_offset(), Some(0));
    for i in 0..512 {
        assert!(heap.store(buffer + i, (i % 200) as u8));
    }
    reader.deliver(&heap, buffer);
    assert_eq!(reader.next_offset(), Some(512));
    assert!(heap.store(buffer, 0xff));
    reader.deliver(&heap, buffer);
    assert_eq!(reader.next_offset(), None);
    let disk = reader.finish();
    assert_eq!(disk.len(), 1024);
    let mut out = vec![0u8; 1024];
    disk.read(&mut out, 1024, 0);
    assert_eq!(out[0], 0);
    assert_eq!(out[511], 111);
    assert_eq!(out[512], 0xff);
    assert_eq!(out[513], 1);
    let mut far = DiskReader::new(1);
    far.deliver(&heap, usize::MAX - 100);
    assert_eq!(far.finish().len(), 512);
    assert_eq!(DiskReader::new(0).next_offset(), None);
    assert_eq!(MinixFileSystem::device_sectors(&disk), 0);
}
