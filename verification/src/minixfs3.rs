//! A read-only Minix-style filesystem: the superblock, inodes, directory
//! entries, the traversal of an inode's zones, and the cache of paths.

use crate::buffer::Buffer;
use crate::disk::{disk_read, Disk, SECTOR_SIZE};
use crate::memory::{le16, le32, load_u16_le, load_u32_le, memcpy};
use crate::path_cache::{ascending, insert_all, lemma_insert_all_concat, PathCache};
use vstd::prelude::*;
use vstd::string::*;

verus! {

pub const MAGIC: u16 = 0x4d5a;

/// Number of the root directory's inode.
pub const ROOT_NODE: u32 = 1;

/// Index of the first directory entry behind `.` and `..`.
pub const DIR_ENTRY_START: usize = 2;

pub const FILE_NAME_SIZE: usize = 60;

/// Size in bytes of a filesystem block, which is also a zone.
pub const BLOCK_SIZE: u32 = 1024;

/// Zone numbers that an index block holds.
pub const PTR_INDEX_MAX: usize = 256;

/// Bit of an inode's mode that marks a directory.
pub const S_IFDIR: u16 = 0x4000;

pub const DIRECT_ZONES: usize = 7;

pub const INDIRECT_ZONE: usize = 7;

pub const DOUBLE_INDIRECT_ZONE: usize = 8;

pub const TRIPLE_INDIRECT_ZONE: usize = 9;

/// Size in bytes of an inode on disk.
pub const INODE_SIZE: usize = 64;

/// Size in bytes of a directory entry on disk.
pub const DIR_ENTRY_SIZE: usize = 64;

/// Inodes that one block holds.
pub const INODES_PER_BLOCK: usize = 16;

/// The geometry of the filesystem, as the disk records it.
#[derive(Debug, Copy, Clone)]
pub struct SuperBlock {
    pub ninodes: u32,
    pub pad0: u16,
    pub imap_blocks: u16,
    pub zmap_blocks: u16,
    pub first_data_zone: u16,
    pub log_zone_size: u16,
    pub pad1: u16,
    pub max_size: u32,
    pub zones: u32,
    pub magic: u16,
    pub pad2: u16,
    pub block_size: u16,
    pub disk_version: u8,
}

/// The superblock that the bytes `s` encode.
pub open spec fn superblock_at(s: Seq<u8>) -> SuperBlock {
    SuperBlock {
        ninodes: le32(s, 0),
        pad0: le16(s, 4),
        imap_blocks: le16(s, 6),
        zmap_blocks: le16(s, 8),
        first_data_zone: le16(s, 10),
        log_zone_size: le16(s, 12),
        pad1: le16(s, 14),
        max_size: le32(s, 16),
        zones: le32(s, 20),
        magic: le16(s, 24),
        pad2: le16(s, 26),
        block_size: le16(s, 28),
        disk_version: s[30],
    }
}

/// Byte offset of the block that holds inode `inode_num`, and the inode's
/// index in that block.
pub open spec fn inode_position(sb: SuperBlock, inode_num: u32) -> (int, int) {
    (
        (2 + sb.imap_blocks + sb.zmap_blocks) * BLOCK_SIZE + ((inode_num - 1) / (
        INODES_PER_BLOCK as int)) * BLOCK_SIZE,
        (inode_num - 1) % (INODES_PER_BLOCK as int),
    )
}

/// The inode with number `inode_num`; none where the superblock is not one
/// of this filesystem, or for the number 0, which names no inode.
pub open spec fn inode_of(sb: SuperBlock, disk: Seq<u8>, inode_num: u32) -> Option<InodeData> {
    if sb.magic == MAGIC && inode_num >= 1 {
        let (offset, index) = inode_position(sb, inode_num);
        Some(inode_at(disk_read(disk, offset, BLOCK_SIZE as int), index * INODE_SIZE))
    } else {
        None
    }
}

impl SuperBlock {
    /// A superblock of zeros, which is not one of this filesystem.
    pub fn empty() -> (r: SuperBlock)
        ensures
            r.magic == 0,
            r == superblock_at(Seq::new(32, |i: int| 0u8)),
    {
        SuperBlock {
            ninodes: 0,
            pad0: 0,
            imap_blocks: 0,
            zmap_blocks: 0,
            first_data_zone: 0,
            log_zone_size: 0,
            pad1: 0,
            max_size: 0,
            zones: 0,
            magic: 0,
            pad2: 0,
            block_size: 0,
            disk_version: 0,
        }
    }

    /// Decodes the superblock from the front of its sector.
    pub fn parse(sector: &Vec<u8>) -> (r: SuperBlock)
        requires
            sector.len() >= 32,
        ensures
            r == superblock_at(sector@),
    {
        SuperBlock {
            ninodes: load_u32_le(sector, 0),
            pad0: load_u16_le(sector, 4),
            imap_blocks: load_u16_le(sector, 6),
            zmap_blocks: load_u16_le(sector, 8),
            first_data_zone: load_u16_le(sector, 10),
            log_zone_size: load_u16_le(sector, 12),
            pad1: load_u16_le(sector, 14),
            max_size: load_u32_le(sector, 16),
            zones: load_u32_le(sector, 20),
            magic: load_u16_le(sector, 24),
            pad2: load_u16_le(sector, 26),
            block_size: load_u16_le(sector, 28),
            disk_version: sector[30],
        }
    }

    pub fn is_minixfs(&self) -> (r: bool)
        ensures
            r == (self.magic == MAGIC),
    {
        self.magic == MAGIC
    }

    /// Blocks in front of the inode table: the boot block, the superblock and
    /// the two bitmaps.
    pub fn blocks_first_four_areas(&self) -> (r: usize)
        ensures
            r == 2 + self.imap_blocks + self.zmap_blocks,
    {
        2 + self.imap_blocks as usize + self.zmap_blocks as usize
    }

    /// Index, in the inode table, of the block that holds inode `inode_num`.
    pub fn inode_offset(&self, inode_num: u32) -> (r: usize)
        requires
            inode_num >= 1,
        ensures
            r == (inode_num - 1) / (INODES_PER_BLOCK as int),
    {
        (inode_num as usize - 1) / (BLOCK_SIZE as usize / INODE_SIZE)
    }

    /// Index of inode `inode_num` in its block.
    pub fn inode_index(&self, inode_num: u32) -> (r: usize)
        requires
            inode_num >= 1,
        ensures
            r == (inode_num - 1) % (INODES_PER_BLOCK as int),
    {
        (inode_num as usize - 1) % (BLOCK_SIZE as usize / INODE_SIZE)
    }

    pub fn inode_offset_and_index(&self, inode_num: u32) -> (r: (u64, usize))
        requires
            inode_num >= 1,
        ensures
            (r.0 as int, r.1 as int) == inode_position(*self, inode_num),
    {
        let offset: u64 = self.blocks_first_four_areas() as u64 * BLOCK_SIZE as u64
            + self.inode_offset(inode_num) as u64 * BLOCK_SIZE as u64;
        let index: usize = self.inode_index(inode_num);
        (offset, index)
    }

    /// Reads inode `inode_num` from the disk.
    pub fn get_inode(&self, disk: &Disk, inode_num: u32) -> (r: Option<Inode>)
        ensures
            r is Some <==> inode_of(*self, disk@, inode_num) is Some,
            r matches Some(inode) ==> Some(inode@) == inode_of(*self, disk@, inode_num),
    {
        if self.is_minixfs() && inode_num >= 1 {
            let (inode_offset, inode_index) = self.inode_offset_and_index(inode_num);
            let mut inode_buffer = Buffer::default();
            disk.read(inode_buffer.get_mut(), BLOCK_SIZE, inode_offset);
            let inode = Inode::parse(inode_buffer.get(), inode_index * INODE_SIZE);
            assert(inode_buffer@ =~= disk_read(disk@, inode_offset as int, BLOCK_SIZE as int));
            Some(inode)
        } else {
            None
        }
    }
}

/// A file's record on disk: its kind and owner, its size in bytes, and the
/// numbers of its zones: seven direct ones, then one each that are indirect
/// once, twice and three times. The zone number 0 stands for a hole.
#[derive(Copy, Clone, Debug)]
pub struct Inode {
    pub mode: u16,
    pub nlinks: u16,
    pub uid: u16,
    pub gid: u16,
    pub size: u32,
    pub atime: u32,
    pub mtime: u32,
    pub ctime: u32,
    pub zones: [u32; 10],
}

/// What an [`Inode`] holds.
pub struct InodeData {
    pub mode: u16,
    pub nlinks: u16,
    pub uid: u16,
    pub gid: u16,
    pub size: u32,
    pub atime: u32,
    pub mtime: u32,
    pub ctime: u32,
    pub zones: Seq<u32>,
}

impl View for Inode {
    type V = InodeData;

    open spec fn view(&self) -> InodeData {
        InodeData {
            mode: self.mode,
            nlinks: self.nlinks,
            uid: self.uid,
            gid: self.gid,
            size: self.size,
            atime: self.atime,
            mtime: self.mtime,
            ctime: self.ctime,
            zones: self.zones@,
        }
    }
}

/// The inode that the 64 bytes of `s` from `at` on encode.
pub open spec fn inode_at(s: Seq<u8>, at: int) -> InodeData {
    InodeData {
        mode: le16(s, at),
        nlinks: le16(s, at + 2),
        uid: le16(s, at + 4),
        gid: le16(s, at + 6),
        size: le32(s, at + 8),
        atime: le32(s, at + 12),
        mtime: le32(s, at + 16),
        ctime: le32(s, at + 20),
        zones: Seq::new(10, |k: int| le32(s, at + 24 + 4 * k)),
    }
}

/// The mode is one of a directory.
pub open spec fn mode_is_directory(mode: u16) -> bool {
    mode & S_IFDIR != 0
}

impl Inode {
    /// Decodes the inode stored at `bytes[at..at + 64]`.
    pub fn parse(bytes: &Vec<u8>, at: usize) -> (r: Inode)
        requires
            at + INODE_SIZE <= bytes.len(),
        ensures
            r@ == inode_at(bytes@, at as int),
    {
        let mut zones: [u32; 10] = [0u32; 10];
        let mut k: usize = 0;
        while k < 10
            invariant
                k <= 10,
                at + INODE_SIZE <= bytes.len(),
                forall|j: int| 0 <= j < k ==> zones@[j] == le32(bytes@, at + 24 + 4 * j),
            decreases 10 - k,
        {
            zones[k] = load_u32_le(bytes, at + 24 + 4 * k);
            k = k + 1;
        }
        let r = Inode {
            mode: load_u16_le(bytes, at),
            nlinks: load_u16_le(bytes, at + 2),
            uid: load_u16_le(bytes, at + 4),
            gid: load_u16_le(bytes, at + 6),
            size: load_u32_le(bytes, at + 8),
            atime: load_u32_le(bytes, at + 12),
            mtime: load_u32_le(bytes, at + 16),
            ctime: load_u32_le(bytes, at + 20),
            zones,
        };
        assert(r@.zones =~= inode_at(bytes@, at as int).zones);
        r
    }

    pub fn is_directory(&self) -> (r: bool)
        ensures
            r == mode_is_directory(self.mode),
    {
        self.mode & S_IFDIR != 0
    }
}

/// An entry of a directory: the number of an inode and a name, which ends
/// with its first zero byte or fills all sixty bytes.
#[derive(Copy, Clone, Debug)]
pub struct DirEntry {
    pub inode: u32,
    pub name: [u8; 60],
}

/// What a [`DirEntry`] holds.
pub struct DirEntryData {
    pub inode: u32,
    pub name: Seq<u8>,
}

impl View for DirEntry {
    type V = DirEntryData;

    open spec fn view(&self) -> DirEntryData {
        DirEntryData { inode: self.inode, name: self.name@ }
    }
}

/// The directory entry that the 64 bytes of `s` from `at` on encode.
pub open spec fn dir_entry_at(s: Seq<u8>, at: int) -> DirEntryData {
    DirEntryData { inode: le32(s, at), name: s.subrange(at + 4, at + DIR_ENTRY_SIZE) }
}

/// Index of the first zero byte of `name` at or behind index `i`; the length
/// of `name` where there is none.
pub open spec fn name_end(name: Seq<u8>, i: int) -> int
    decreases name.len() - i,
{
    if i < 0 || i >= name.len() {
        name.len() as int
    } else if name[i] == 0 {
        i
    } else {
        name_end(name, i + 1)
    }
}

/// Each byte as the character with that code.
pub open spec fn bytes_as_chars(s: Seq<u8>) -> Seq<char> {
    Seq::new(s.len(), |i: int| s[i] as char)
}

/// The path of the entry called `name` in the directory with the path `cwd`
/// and the inode number `inode_num`: the bytes of `cwd`, a slash unless the
/// directory is the root, and the name up to its end.
pub open spec fn abs_name_of(cwd: Seq<u8>, inode_num: u32, name: Seq<u8>) -> Seq<char> {
    bytes_as_chars(cwd) + (if inode_num != ROOT_NODE {
        seq!['/']
    } else {
        Seq::<char>::empty()
    }) + bytes_as_chars(name.subrange(0, name_end(name, 0)))
}

/// `String::push` of the standard library: the string holds afterwards what
/// it held, followed by the character.
pub assume_specification[ String::push ](s: &mut String, c: char)
    ensures
        final(s)@ == old(s)@.push(c),
;

impl DirEntry {
    /// Decodes the directory entry stored at `bytes[at..at + 64]`.
    pub fn parse(bytes: &Vec<u8>, at: usize) -> (r: DirEntry)
        requires
            at + DIR_ENTRY_SIZE <= bytes.len(),
        ensures
            r@ == dir_entry_at(bytes@, at as int),
    {
        let mut name: [u8; 60] = [0u8; 60];
        let mut k: usize = 0;
        while k < FILE_NAME_SIZE
            invariant
                k <= FILE_NAME_SIZE,
                at + DIR_ENTRY_SIZE <= bytes.len(),
                forall|j: int| 0 <= j < k ==> name@[j] == bytes@[at + 4 + j],
            decreases FILE_NAME_SIZE - k,
        {
            name[k] = bytes[at + 4 + k];
            k = k + 1;
        }
        let r = DirEntry { inode: load_u32_le(bytes, at), name };
        assert(r@.name =~= dir_entry_at(bytes@, at as int).name);
        r
    }

    /// The absolute path of this entry in the directory `cwd`, whose inode
    /// number is `inode_num`.
    pub fn abs_name(&self, cwd: &str, inode_num: u32) -> (r: String)
        ensures
            r@ == abs_name_of(cwd.spec_bytes(), inode_num, self.name@),
    {
        let mut new_cwd = String::new();
        let bytes = cwd.as_bytes();
        let n: usize = bytes.len();
        let mut i: usize = 0;
        while i < n
            invariant
                i <= n,
                n == bytes@.len(),
                bytes@ == cwd.spec_bytes(),
                new_cwd@ == bytes_as_chars(bytes@.subrange(0, i as int)),
            decreases n - i,
        {
            new_cwd.push(bytes[i] as char);
            assert(new_cwd@ =~= bytes_as_chars(bytes@.subrange(0, i + 1)));
            i = i + 1;
        }
        assert(bytes@.subrange(0, n as int) =~= bytes@);
        if inode_num != ROOT_NODE {
            new_cwd.push('/');
        }
        let ghost head = new_cwd@;
        let mut k: usize = 0;
        while k < FILE_NAME_SIZE && self.name[k] != 0
            invariant
                k <= FILE_NAME_SIZE,
                name_end(self.name@, k as int) == name_end(self.name@, 0),
                new_cwd@ == head + bytes_as_chars(self.name@.subrange(0, k as int)),
            decreases FILE_NAME_SIZE - k,
        {
            new_cwd.push(self.name[k] as char);
            assert(new_cwd@ =~= head + bytes_as_chars(self.name@.subrange(0, k + 1)));
            k = k + 1;
        }
        assert(name_end(self.name@, k as int) == k);
        assert(new_cwd@ =~= abs_name_of(cwd.spec_bytes(), inode_num, self.name@));
        new_cwd
    }
}

/// The block with number `zone`.
pub open spec fn block_bytes(disk: Seq<u8>, zone: u32) -> Seq<u8> {
    disk_read(disk, zone * BLOCK_SIZE, BLOCK_SIZE as int)
}

/// Entry `i` of the index block with number `zone`.
pub open spec fn index_entry(disk: Seq<u8>, zone: u32, i: int) -> u32 {
    le32(block_bytes(disk, zone), 4 * i)
}

/// The data zones below `zone`, in the order in which a read visits them:
/// `zone` itself at depth 0, else the data zones below the entries of the
/// index block `zone`, holes left out.
pub open spec fn tree_zones(disk: Seq<u8>, zone: u32, depth: nat) -> Seq<u32>
    decreases depth, 257nat,
{
    if depth == 0 {
        seq![zone]
    } else {
        index_zones(disk, zone, depth, PTR_INDEX_MAX as nat)
    }
}

/// The data zones below the first `n` entries of the index block `zone`.
pub open spec fn index_zones(disk: Seq<u8>, zone: u32, depth: nat, n: nat) -> Seq<u32>
    decreases depth, n,
{
    if depth == 0 || n == 0 || n > PTR_INDEX_MAX {
        Seq::empty()
    } else {
        index_zones(disk, zone, depth, (n - 1) as nat) + (if index_entry(disk, zone, n - 1) != 0 {
            tree_zones(disk, index_entry(disk, zone, n - 1), (depth - 1) as nat)
        } else {
            Seq::empty()
        })
    }
}

/// Those of the first `n` zone numbers of an inode that are no holes.
pub open spec fn direct_zone_list(zones: Seq<u32>, n: nat) -> Seq<u32>
    decreases n,
{
    if n == 0 {
        Seq::empty()
    } else {
        direct_zone_list(zones, (n - 1) as nat) + (if zones[n - 1] != 0 {
            seq![zones[n - 1]]
        } else {
            Seq::empty()
        })
    }
}

/// The data zones below the inode's zone of indirection `level`, 1 to 3.
pub open spec fn indirect_zone_list(disk: Seq<u8>, zones: Seq<u32>, level: nat) -> Seq<u32> {
    if zones[DIRECT_ZONES - 1 + level] != 0 {
        tree_zones(disk, zones[DIRECT_ZONES - 1 + level], level)
    } else {
        Seq::empty()
    }
}

/// The data zones of an inode up to the indirection `level`, 0 to 3.
pub open spec fn zones_through(disk: Seq<u8>, zones: Seq<u32>, level: nat) -> Seq<u32>
    decreases level,
{
    if level == 0 {
        direct_zone_list(zones, DIRECT_ZONES as nat)
    } else {
        zones_through(disk, zones, (level - 1) as nat) + indirect_zone_list(disk, zones, level)
    }
}

/// All data zones of an inode: the direct ones, then those reached through
/// the single, the double and the triple indirect zone.
pub open spec fn file_zones(disk: Seq<u8>, zones: Seq<u32>) -> Seq<u32> {
    zones_through(disk, zones, 3)
}

/// The blocks of the zones `zs`, one after the other.
pub open spec fn zones_bytes(disk: Seq<u8>, zs: Seq<u32>) -> Seq<u8> {
    Seq::new(zs.len() * BLOCK_SIZE as nat, |k: int| block_bytes(disk, zs[k / 1024])[k % 1024])
}

/// The file as one flat array: the blocks of its data zones in order.
pub open spec fn file_bytes(disk: Seq<u8>, zones: Seq<u32>) -> Seq<u8> {
    zones_bytes(disk, file_zones(disk, zones))
}

/// The `n` bytes of the file from byte `offset` on.
pub open spec fn file_slice(disk: Seq<u8>, zones: Seq<u32>, offset: int, n: int) -> Seq<u8> {
    Seq::new(n as nat, |t: int| file_bytes(disk, zones)[offset + t])
}

/// Bytes that a read of `size` bytes at `offset` asks of a file of
/// `inode_size` bytes.
pub open spec fn wanted_len(inode_size: u32, size: u32, offset: u32) -> int {
    if offset >= inode_size {
        0
    } else if size <= inode_size - offset {
        size as int
    } else {
        inode_size - offset
    }
}

/// Bytes that `avail` bytes of zones serve of `want` bytes asked at `offset`.
pub open spec fn served_len(want: int, offset: int, avail: int) -> int {
    if offset >= avail {
        0
    } else if want <= avail - offset {
        want
    } else {
        avail - offset
    }
}

/// Bytes that a read of `size` bytes at `offset` of the inode returns.
pub open spec fn read_len(disk: Seq<u8>, inode: InodeData, size: u32, offset: u32) -> int {
    served_len(
        wanted_len(inode.size, size, offset),
        offset as int,
        file_bytes(disk, inode.zones).len() as int,
    )
}

/// `a` is the beginning of `b`.
pub open spec fn is_prefix(a: Seq<u32>, b: Seq<u32>) -> bool {
    a.len() <= b.len() && forall|k: int| 0 <= k < a.len() ==> a[k] == b[k]
}

/// The cursor of one read: how far it has come and the scratch blocks that
/// it reads into.
struct ReadState {
    offset_byte: u32,
    bytes_read: u32,
    bytes_left: u32,
    blocks_seen: u32,
    offset_block: u32,
    direct_buffer: Buffer,
    indirect_buffer: Buffer,
    double_indirect_buffer: Buffer,
    triple_indirect_buffer: Buffer,
}

/// Upper bound on the data zones below an index block of the given depth.
spec fn zone_cap(depth: int) -> int {
    if depth <= 0 {
        1
    } else if depth == 1 {
        256
    } else if depth == 2 {
        65536
    } else {
        16777216
    }
}

impl ReadState {
    /// The index block that is held for the nesting `level`, 0 to 2.
    spec fn index_view(&self, level: int) -> Seq<u8> {
        if level == 0 {
            self.indirect_buffer@
        } else if level == 1 {
            self.double_indirect_buffer@
        } else {
            self.triple_indirect_buffer@
        }
    }

    spec fn buffers_ok(&self) -> bool {
        &&& self.direct_buffer@.len() == BLOCK_SIZE
        &&& self.indirect_buffer@.len() == BLOCK_SIZE
        &&& self.double_indirect_buffer@.len() == BLOCK_SIZE
        &&& self.triple_indirect_buffer@.len() == BLOCK_SIZE
    }

    /// The cursor has served what the zones `seen` can serve of `want` bytes
    /// asked at `offset`: `dest` holds those bytes at its front and is
    /// otherwise as `dest0`. While bytes are left to read, `counted` zones
    /// have been counted.
    spec fn tracks_with(
        &self,
        disk: Seq<u8>,
        seen: Seq<u32>,
        counted: int,
        want: int,
        offset: int,
        dest: Seq<u8>,
        dest0: Seq<u8>,
    ) -> bool {
        let got = served_len(want, offset, seen.len() as int * 1024);
        &&& self.buffers_ok()
        &&& 0 <= want <= dest.len()
        &&& want <= u32::MAX
        &&& dest.len() == dest0.len()
        &&& 0 <= offset
        &&& self.offset_block == offset / 1024
        &&& self.bytes_read == got
        &&& self.bytes_left == want - got
        &&& self.offset_byte < BLOCK_SIZE
        &&& self.bytes_left > 0 ==> self.blocks_seen == counted && self.offset_byte == (if seen.len()
            <= offset / 1024 {
            offset % 1024
        } else {
            0
        })
        &&& forall|t: int| 0 <= t < got ==> #[trigger] dest[t] == zones_bytes(disk, seen)[offset + t]
        &&& forall|t: int| got <= t < dest.len() ==> #[trigger] dest[t] == dest0[t]
    }

    spec fn tracks(
        &self,
        disk: Seq<u8>,
        seen: Seq<u32>,
        want: int,
        offset: int,
        dest: Seq<u8>,
        dest0: Seq<u8>,
    ) -> bool {
        self.tracks_with(disk, seen, seen.len() as int, want, offset, dest, dest0)
    }

    fn new(inode_size: u32, size: u32, offset: u32) -> (rs: Self)
        ensures
            rs.offset_byte == offset % BLOCK_SIZE,
            rs.bytes_read == 0,
            rs.bytes_left == wanted_len(inode_size, size, offset),
            rs.blocks_seen == 0,
            rs.offset_block == offset / BLOCK_SIZE,
            rs.buffers_ok(),
    {
        Self {
            offset_byte: offset % BLOCK_SIZE,
            bytes_read: 0,
            bytes_left: if offset >= inode_size {
                0
            } else if size > inode_size - offset {
                inode_size - offset
            } else {
                size
            },
            blocks_seen: 0,
            offset_block: offset / BLOCK_SIZE,
            direct_buffer: Buffer::default(),
            indirect_buffer: Buffer::default(),
            double_indirect_buffer: Buffer::default(),
            triple_indirect_buffer: Buffer::default(),
        }
    }

    fn next(&mut self, bytes_to_read: u32)
        requires
            bytes_to_read <= old(self).bytes_left,
            old(self).bytes_read + bytes_to_read <= u32::MAX,
        ensures
            final(self).offset_byte == 0,
            final(self).bytes_read == old(self).bytes_read + bytes_to_read,
            final(self).bytes_left == old(self).bytes_left - bytes_to_read,
            final(self).blocks_seen == old(self).blocks_seen,
            final(self).offset_block == old(self).offset_block,
            final(self).direct_buffer == old(self).direct_buffer,
            final(self).indirect_buffer == old(self).indirect_buffer,
            final(self).double_indirect_buffer == old(self).double_indirect_buffer,
            final(self).triple_indirect_buffer == old(self).triple_indirect_buffer,
    {
        self.offset_byte = 0;
        self.bytes_read = self.bytes_read + bytes_to_read;
        self.bytes_left = self.bytes_left - bytes_to_read;
    }

    fn seen_block(&mut self)
        requires
            old(self).blocks_seen < u32::MAX,
        ensures
            final(self).blocks_seen == old(self).blocks_seen + 1,
            final(self).offset_byte == old(self).offset_byte,
            final(self).bytes_read == old(self).bytes_read,
            final(self).bytes_left == old(self).bytes_left,
            final(self).offset_block == old(self).offset_block,
            final(self).direct_buffer == old(self).direct_buffer,
            final(self).indirect_buffer == old(self).indirect_buffer,
            final(self).double_indirect_buffer == old(self).double_indirect_buffer,
            final(self).triple_indirect_buffer == old(self).triple_indirect_buffer,
    {
        self.blocks_seen = self.blocks_seen + 1;
    }

    fn in_window(&self) -> (r: bool)
        ensures
            r == (self.offset_block <= self.blocks_seen),
    {
        self.offset_block <= self.blocks_seen
    }

    fn izone_present(&self, index: usize) -> (r: bool)
        requires
            self.buffers_ok(),
            index < PTR_INDEX_MAX,
        ensures
            r == (le32(self.index_view(0), 4 * index) != 0),
    {
        load_u32_le(self.indirect_buffer.get(), 4 * index) != 0
    }

    fn iizone_present(&self, index: usize) -> (r: bool)
        requires
            self.buffers_ok(),
            index < PTR_INDEX_MAX,
        ensures
            r == (le32(self.index_view(1), 4 * index) != 0),
    {
        load_u32_le(self.double_indirect_buffer.get(), 4 * index) != 0
    }

    fn iiizone_present(&self, index: usize) -> (r: bool)
        requires
            self.buffers_ok(),
            index < PTR_INDEX_MAX,
        ensures
            r == (le32(self.index_view(2), 4 * index) != 0),
    {
        load_u32_le(self.triple_indirect_buffer.get(), 4 * index) != 0
    }

    /// Whether entry `index` of the index block of nesting `level` is a zone.
    fn zone_present(&self, level: usize, index: usize) -> (r: bool)
        requires
            self.buffers_ok(),
            level < 3,
            index < PTR_INDEX_MAX,
        ensures
            r == (le32(self.index_view(level as int), 4 * index) != 0),
    {
        if level == 0 {
            self.izone_present(index)
        } else if level == 1 {
            self.iizone_present(index)
        } else {
            self.iiizone_present(index)
        }
    }

    /// Entry `index` of the index block of nesting `level`.
    fn zone_entry(&self, level: usize, index: usize) -> (r: u32)
        requires
            self.buffers_ok(),
            level < 3,
            index < PTR_INDEX_MAX,
        ensures
            r == le32(self.index_view(level as int), 4 * index),
    {
        if level == 0 {
            load_u32_le(self.indirect_buffer.get(), 4 * index)
        } else if level == 1 {
            load_u32_le(self.double_indirect_buffer.get(), 4 * index)
        } else {
            load_u32_le(self.triple_indirect_buffer.get(), 4 * index)
        }
    }
}

/// What one read was asked: the disk, the bytes wanted, where they begin in
/// the file, and the destination as it was.
ghost struct Plan {
    disk: Seq<u8>,
    want: int,
    offset: int,
    dest0: Seq<u8>,
}

/// A read that has nothing left to do has served longer lists of zones too.
proof fn lemma_served_extends(
    rs: ReadState,
    q: Plan,
    seen: Seq<u32>,
    more: Seq<u32>,
    counted: int,
    dest: Seq<u8>,
)
    requires
        rs.tracks_with(q.disk, seen, counted, q.want, q.offset, dest, q.dest0),
        rs.bytes_left == 0,
        is_prefix(seen, more),
    ensures
        rs.tracks(q.disk, more, q.want, q.offset, dest, q.dest0),
{
    let got = served_len(q.want, q.offset, seen.len() as int * 1024);
    assert(got == q.want);
    assert(served_len(q.want, q.offset, more.len() as int * 1024) == q.want);
    assert forall|t: int| 0 <= t < got implies #[trigger] dest[t] == zones_bytes(q.disk, more)[q.offset
        + t] by {
        assert(dest[t] == zones_bytes(q.disk, seen)[q.offset + t]);
        let k = q.offset + t;
        assert(0 <= k / 1024 < seen.len());
        assert(seen[k / 1024] == more[k / 1024]);
    }
}

proof fn lemma_index_zones_prefix(disk: Seq<u8>, zone: u32, depth: nat, i: nat, n: nat)
    requires
        i <= n <= PTR_INDEX_MAX,
    ensures
        is_prefix(index_zones(disk, zone, depth, i), index_zones(disk, zone, depth, n)),
    decreases n,
{
    if i < n && depth > 0 {
        lemma_index_zones_prefix(disk, zone, depth, i, (n - 1) as nat);
    }
}

/// What entry `i` of an index block adds to the data zones below it.
proof fn lemma_index_zones_step(disk: Seq<u8>, zone: u32, depth: nat, i: nat)
    requires
        depth >= 1,
        i < PTR_INDEX_MAX,
    ensures
        index_zones(disk, zone, depth, i + 1) == index_zones(disk, zone, depth, i) + (
        if index_entry(disk, zone, i as int) == 0 {
            Seq::<u32>::empty()
        } else if depth == 1 {
            seq![index_entry(disk, zone, i as int)]
        } else {
            index_zones(
                disk,
                index_entry(disk, zone, i as int),
                (depth - 1) as nat,
                PTR_INDEX_MAX as nat,
            )
        }),
{
    reveal_with_fuel(index_zones, 2);
    reveal_with_fuel(tree_zones, 2);
}

proof fn lemma_direct_prefix(zones: Seq<u32>, i: nat, n: nat)
    requires
        i <= n,
    ensures
        is_prefix(direct_zone_list(zones, i), direct_zone_list(zones, n)),
    decreases n,
{
    if i < n {
        lemma_direct_prefix(zones, i, (n - 1) as nat);
    }
}

proof fn lemma_zones_through_prefix(disk: Seq<u8>, zones: Seq<u32>, l: nat, m: nat)
    requires
        l <= m,
    ensures
        is_prefix(zones_through(disk, zones, l), zones_through(disk, zones, m)),
    decreases m,
{
    if l < m {
        lemma_zones_through_prefix(disk, zones, l, (m - 1) as nat);
    }
}

/// The mounted filesystem: the superblock and the cache of paths.
pub struct MinixFileSystem {
    superblock: SuperBlock,
    cache: PathCache,
}

impl MinixFileSystem {
    /// Copies what the read still wants of the data block in the direct
    /// buffer to the destination, and moves the cursor on.
    fn read_data(
        buffer: &mut Vec<u8>,
        rs: &mut ReadState,
        Ghost(q): Ghost<Plan>,
        Ghost(seen): Ghost<Seq<u32>>,
        Ghost(zone): Ghost<u32>,
    )
        requires
            old(rs).tracks(q.disk, seen, q.want, q.offset, old(buffer)@, q.dest0),
            old(rs).bytes_left > 0,
            old(rs).offset_block <= old(rs).blocks_seen,
            old(rs).direct_buffer@ == block_bytes(q.disk, zone),
        ensures
            final(rs).tracks_with(
                q.disk,
                seen.push(zone),
                seen.len() as int,
                q.want,
                q.offset,
                final(buffer)@,
                q.dest0,
            ),
            final(rs).blocks_seen == old(rs).blocks_seen,
            final(rs).indirect_buffer == old(rs).indirect_buffer,
            final(rs).double_indirect_buffer == old(rs).double_indirect_buffer,
            final(rs).triple_indirect_buffer == old(rs).triple_indirect_buffer,
    {
        let bytes_to_read: u32 = if BLOCK_SIZE - rs.offset_byte > rs.bytes_left {
            rs.bytes_left
        } else {
            BLOCK_SIZE - rs.offset_byte
        };
        let ghost got = rs.bytes_read as int;
        let ghost from = rs.offset_byte as int;
        let ghost avail = seen.len() as int * 1024;
        memcpy(
            buffer,
            rs.bytes_read as usize,
            rs.direct_buffer.get(),
            rs.offset_byte as usize,
            bytes_to_read as usize,
        );
        rs.next(bytes_to_read);
        proof {
            let later = seen.push(zone);
            let n = bytes_to_read as int;
            assert(q.offset / 1024 <= seen.len());
            assert(served_len(q.want, q.offset, later.len() as int * 1024) == got + n);
            assert forall|t: int| 0 <= t < got + n implies #[trigger] buffer@[t] == zones_bytes(
                q.disk,
                later,
            )[q.offset + t] by {
                let k = q.offset + t;
                if t < got {
                    assert(old(buffer)@[t] == zones_bytes(q.disk, seen)[q.offset + t]);
                    assert(0 <= k / 1024 < seen.len());
                    assert(later[k / 1024] == seen[k / 1024]);
                } else {
                    assert(k / 1024 == seen.len());
                    assert(k % 1024 == from + (t - got));
                    assert(later[k / 1024] == zone);
                }
            }
            assert forall|t: int| got + n <= t < buffer@.len() implies #[trigger] buffer@[t]
                == q.dest0[t] by {
                assert(old(buffer)@[t] == q.dest0[t]);
            }
        }
    }

    /// Reads the data block of the inode's direct zone `i` and serves the
    /// read from it.
    fn read_direct_data(
        disk: &Disk,
        inode: &Inode,
        i: usize,
        buffer: &mut Vec<u8>,
        rs: &mut ReadState,
        Ghost(q): Ghost<Plan>,
        Ghost(seen): Ghost<Seq<u32>>,
    )
        requires
            i < DIRECT_ZONES,
            q.disk == disk@,
            old(rs).tracks(q.disk, seen, q.want, q.offset, old(buffer)@, q.dest0),
            old(rs).bytes_left > 0,
            old(rs).offset_block <= old(rs).blocks_seen,
        ensures
            final(rs).tracks_with(
                q.disk,
                seen.push(inode.zones@[i as int]),
                seen.len() as int,
                q.want,
                q.offset,
                final(buffer)@,
                q.dest0,
            ),
            final(rs).blocks_seen == old(rs).blocks_seen,
            final(rs).indirect_buffer == old(rs).indirect_buffer,
            final(rs).double_indirect_buffer == old(rs).double_indirect_buffer,
            final(rs).triple_indirect_buffer == old(rs).triple_indirect_buffer,
    {
        let zone_offset: u64 = inode.zones[i] as u64 * BLOCK_SIZE as u64;
        disk.read(rs.direct_buffer.get_mut(), BLOCK_SIZE, zone_offset);
        assert(rs.direct_buffer@ =~= block_bytes(q.disk, inode.zones@[i as int]));
        Self::read_data(buffer, rs, Ghost(q), Ghost(seen), Ghost(inode.zones@[i as int]));
    }

    /// Reads the data block whose number is entry `i` of the index block of
    /// nesting `level`, and serves the read from it.
    fn read_indirect_data(
        disk: &Disk,
        level: usize,
        i: usize,
        buffer: &mut Vec<u8>,
        rs: &mut ReadState,
        Ghost(q): Ghost<Plan>,
        Ghost(seen): Ghost<Seq<u32>>,
    )
        requires
            level < 3,
            i < PTR_INDEX_MAX,
            q.disk == disk@,
            old(rs).tracks(q.disk, seen, q.want, q.offset, old(buffer)@, q.dest0),
            old(rs).bytes_left > 0,
            old(rs).offset_block <= old(rs).blocks_seen,
        ensures
            final(rs).tracks_with(
                q.disk,
                seen.push(le32(old(rs).index_view(level as int), 4 * i)),
                seen.len() as int,
                q.want,
                q.offset,
                final(buffer)@,
                q.dest0,
            ),
            final(rs).blocks_seen == old(rs).blocks_seen,
            final(rs).indirect_buffer == old(rs).indirect_buffer,
            final(rs).double_indirect_buffer == old(rs).double_indirect_buffer,
            final(rs).triple_indirect_buffer == old(rs).triple_indirect_buffer,
    {
        let zone: u32 = rs.zone_entry(level, i);
        disk.read(rs.direct_buffer.get_mut(), BLOCK_SIZE, BLOCK_SIZE as u64 * zone as u64);
        assert(rs.direct_buffer@ =~= block_bytes(q.disk, zone));
        Self::read_data(buffer, rs, Ghost(q), Ghost(seen), Ghost(zone));
    }

    /// Reads the index block whose number is the inode's zone `number`.
    fn read_zone(disk: &Disk, inode: &Inode, buffer: &mut Buffer, number: usize)
        requires
            number < 10,
            old(buffer)@.len() == BLOCK_SIZE,
        ensures
            final(buffer)@ == block_bytes(disk@, inode.zones@[number as int]),
    {
        disk.read(buffer.get_mut(), BLOCK_SIZE, BLOCK_SIZE as u64 * inode.zones[number] as u64);
        assert(buffer@ =~= block_bytes(disk@, inode.zones@[number as int]));
    }

    /// Reads the index block whose number is entry `i` of the index block of
    /// nesting `level` into the buffer of the next nesting.
    fn read_izone(disk: &Disk, level: usize, i: usize, rs: &mut ReadState)
        requires
            level < 2,
            i < PTR_INDEX_MAX,
            old(rs).buffers_ok(),
        ensures
            final(rs).index_view(level + 1) == block_bytes(
                disk@,
                le32(old(rs).index_view(level as int), 4 * i),
            ),
            forall|l: int| 0 <= l <= level ==> final(rs).index_view(l) == old(rs).index_view(l),
            final(rs).buffers_ok(),
            final(rs).offset_byte == old(rs).offset_byte,
            final(rs).bytes_read == old(rs).bytes_read,
            final(rs).bytes_left == old(rs).bytes_left,
            final(rs).blocks_seen == old(rs).blocks_seen,
            final(rs).offset_block == old(rs).offset_block,
    {
        let zone: u32 = rs.zone_entry(level, i);
        if level == 0 {
            disk.read(rs.double_indirect_buffer.get_mut(), BLOCK_SIZE, BLOCK_SIZE as u64 * zone as u64);
        } else {
            disk.read(rs.triple_indirect_buffer.get_mut(), BLOCK_SIZE, BLOCK_SIZE as u64 * zone as u64);
        }
        assert(rs.index_view(level + 1) =~= block_bytes(disk@, zone));
    }
}

impl MinixFileSystem {
    /// Serves the read from the data zones below the index block that the
    /// buffer of nesting `level` holds, `depth` levels above the data.
    /// Returns whether the read is satisfied.
    #[verifier::rlimit(60)]
    fn scan_index(
        disk: &Disk,
        level: usize,
        depth: usize,
        buffer: &mut Vec<u8>,
        rs: &mut ReadState,
        Ghost(q): Ghost<Plan>,
        Ghost(seen): Ghost<Seq<u32>>,
        Ghost(zone): Ghost<u32>,
    ) -> (done: bool)
        requires
            1 <= depth,
            level + depth <= 3,
            q.disk == disk@,
            old(rs).tracks(q.disk, seen, q.want, q.offset, old(buffer)@, q.dest0),
            old(rs).bytes_left > 0,
            old(rs).index_view(level as int) == block_bytes(q.disk, zone),
            old(rs).blocks_seen + zone_cap(depth as int) <= u32::MAX,
        ensures
            final(rs).tracks(
                q.disk,
                seen + index_zones(q.disk, zone, depth as nat, PTR_INDEX_MAX as nat),
                q.want,
                q.offset,
                final(buffer)@,
                q.dest0,
            ),
            done == (final(rs).bytes_left == 0),
            final(rs).blocks_seen <= old(rs).blocks_seen + zone_cap(depth as int),
            forall|l: int| 0 <= l <= level ==> final(rs).index_view(l) == old(rs).index_view(l),
        decreases depth,
    {
        let ghost full = seen + index_zones(q.disk, zone, depth as nat, PTR_INDEX_MAX as nat);
        let ghost unit = zone_cap(depth - 1);
        let mut i: usize = 0;
        assert(seen + index_zones(q.disk, zone, depth as nat, 0) =~= seen);
        while i < PTR_INDEX_MAX
            invariant
                i <= PTR_INDEX_MAX,
                1 <= depth,
                level + depth <= 3,
                q.disk == disk@,
                unit == zone_cap(depth - 1),
                full == seen + index_zones(q.disk, zone, depth as nat, PTR_INDEX_MAX as nat),
                rs.tracks(
                    q.disk,
                    seen + index_zones(q.disk, zone, depth as nat, i as nat),
                    q.want,
                    q.offset,
                    buffer@,
                    q.dest0,
                ),
                rs.bytes_left > 0,
                rs.index_view(level as int) == block_bytes(q.disk, zone),
                forall|l: int| 0 <= l <= level ==> rs.index_view(l) == old(rs).index_view(l),
                rs.blocks_seen <= old(rs).blocks_seen + i * unit,
                old(rs).blocks_seen + zone_cap(depth as int) <= u32::MAX,
            decreases PTR_INDEX_MAX - i,
        {
            let ghost before = seen + index_zones(q.disk, zone, depth as nat, i as nat);
            let ghost entry = index_entry(q.disk, zone, i as int);
            let ghost after = seen + index_zones(q.disk, zone, depth as nat, (i + 1) as nat);
            proof {
                assert(unit * 256 == zone_cap(depth as int));
                assert(i * unit + unit <= 256 * unit) by (nonlinear_arith)
                    requires
                        i < 256,
                        unit > 0,
                ;
                lemma_index_zones_prefix(q.disk, zone, depth as nat, (i + 1) as nat, PTR_INDEX_MAX as nat);
                lemma_index_zones_step(q.disk, zone, depth as nat, i as nat);
                assert(is_prefix(after, full));
            }
            if rs.zone_present(level, i) {
                if depth == 1 {
                    assert(after =~= before.push(entry));
                    if rs.in_window() {
                        Self::read_indirect_data(disk, level, i, buffer, rs, Ghost(q), Ghost(before));
                        if rs.bytes_left == 0 {
                            proof {
                                lemma_served_extends(
                                    *rs,
                                    q,
                                    after,
                                    full,
                                    before.len() as int,
                                    buffer@,
                                );
                            }
                            return true;
                        }
                    }
                    rs.seen_block();
                } else {
                    Self::read_izone(disk, level, i, rs);
                    let done: bool = Self::scan_index(
                        disk,
                        level + 1,
                        depth - 1,
                        buffer,
                        rs,
                        Ghost(q),
                        Ghost(before),
                        Ghost(entry),
                    );
                    assert(after =~= before + index_zones(
                        q.disk,
                        entry,
                        (depth - 1) as nat,
                        PTR_INDEX_MAX as nat,
                    ));
                    if done {
                        proof {
                            lemma_served_extends(*rs, q, after, full, after.len() as int, buffer@);
                        }
                        return true;
                    }
                }
            } else {
                assert(after =~= before);
            }
            i = i + 1;
        }
        false
    }

    /// Serves the read from the inode's direct zones. Returns the bytes
    /// read where the read is satisfied, else 0.
    fn direct_zones(
        disk: &Disk,
        inode: &Inode,
        buffer: &mut Vec<u8>,
        rs: &mut ReadState,
        Ghost(q): Ghost<Plan>,
    ) -> (r: u32)
        requires
            q.disk == disk@,
            old(rs).tracks(q.disk, Seq::empty(), q.want, q.offset, old(buffer)@, q.dest0),
            old(rs).bytes_left > 0,
            old(rs).blocks_seen == 0,
        ensures
            final(rs).tracks(
                q.disk,
                zones_through(q.disk, inode@.zones, 0),
                q.want,
                q.offset,
                final(buffer)@,
                q.dest0,
            ),
            r == (if final(rs).bytes_left == 0 {
                final(rs).bytes_read
            } else {
                0
            }),
            final(rs).blocks_seen <= DIRECT_ZONES,
    {
        let ghost zones = inode@.zones;
        let ghost full = direct_zone_list(zones, DIRECT_ZONES as nat);
        let mut i: usize = 0;
        while i < DIRECT_ZONES
            invariant
                i <= DIRECT_ZONES,
                q.disk == disk@,
                zones == inode@.zones,
                full == direct_zone_list(zones, DIRECT_ZONES as nat),
                rs.tracks(
                    q.disk,
                    direct_zone_list(zones, i as nat),
                    q.want,
                    q.offset,
                    buffer@,
                    q.dest0,
                ),
                rs.bytes_left > 0,
                rs.blocks_seen <= i,
            decreases DIRECT_ZONES - i,
        {
            let ghost before = direct_zone_list(zones, i as nat);
            let ghost after = direct_zone_list(zones, (i + 1) as nat);
            proof {
                lemma_direct_prefix(zones, (i + 1) as nat, DIRECT_ZONES as nat);
            }
            if inode.zones[i] != 0 {
                assert(after =~= before.push(zones[i as int]));
                if rs.in_window() {
                    Self::read_direct_data(disk, inode, i, buffer, rs, Ghost(q), Ghost(before));
                    if rs.bytes_left == 0 {
                        proof {
                            lemma_served_extends(*rs, q, after, full, before.len() as int, buffer@);
                        }
                        return rs.bytes_read;
                    }
                }
                rs.seen_block();
            } else {
                assert(after =~= before);
            }
            i = i + 1;
        }
        0
    }

    /// Serves the read from the zones of one indirection of the inode: its
    /// zone `number`, `depth` levels above the data.
    fn indirect_level(
        disk: &Disk,
        inode: &Inode,
        number: usize,
        depth: usize,
        buffer: &mut Vec<u8>,
        rs: &mut ReadState,
        Ghost(q): Ghost<Plan>,
    ) -> (r: u32)
        requires
            1 <= depth <= 3,
            number == DIRECT_ZONES - 1 + depth,
            q.disk == disk@,
            old(rs).tracks(
                q.disk,
                zones_through(q.disk, inode@.zones, (depth - 1) as nat),
                q.want,
                q.offset,
                old(buffer)@,
                q.dest0,
            ),
            old(rs).bytes_left > 0,
            old(rs).blocks_seen <= DIRECT_ZONES + 3 * zone_cap(depth - 1),
        ensures
            final(rs).tracks(
                q.disk,
                zones_through(q.disk, inode@.zones, depth as nat),
                q.want,
                q.offset,
                final(buffer)@,
                q.dest0,
            ),
            r == (if final(rs).bytes_left == 0 {
                final(rs).bytes_read
            } else {
                0
            }),
            final(rs).blocks_seen <= DIRECT_ZONES + 3 * zone_cap(depth as int),
    {
        let ghost before = zones_through(q.disk, inode@.zones, (depth - 1) as nat);
        if inode.zones[number] != 0 {
            Self::read_zone(disk, inode, &mut rs.indirect_buffer, number);
            let done: bool = Self::scan_index(
                disk,
                0,
                depth,
                buffer,
                rs,
                Ghost(q),
                Ghost(before),
                Ghost(inode.zones@[number as int]),
            );
            if done {
                return rs.bytes_read;
            }
        } else {
            assert(zones_through(q.disk, inode@.zones, depth as nat) =~= before);
        }
        0
    }

    /// Serves the read from the zones behind the inode's indirect zone.
    fn indirect_zones(
        disk: &Disk,
        inode: &Inode,
        buffer: &mut Vec<u8>,
        rs: &mut ReadState,
        Ghost(q): Ghost<Plan>,
    ) -> (r: u32)
        requires
            q.disk == disk@,
            old(rs).tracks(
                q.disk,
                zones_through(q.disk, inode@.zones, 0),
                q.want,
                q.offset,
                old(buffer)@,
                q.dest0,
            ),
            old(rs).bytes_left > 0,
            old(rs).blocks_seen <= DIRECT_ZONES + 3 * zone_cap(0),
        ensures
            final(rs).tracks(
                q.disk,
                zones_through(q.disk, inode@.zones, 1),
                q.want,
                q.offset,
                final(buffer)@,
                q.dest0,
            ),
            r == (if final(rs).bytes_left == 0 {
                final(rs).bytes_read
            } else {
                0
            }),
            final(rs).blocks_seen <= DIRECT_ZONES + 3 * zone_cap(1),
    {
        Self::indirect_level(disk, inode, INDIRECT_ZONE, 1, buffer, rs, Ghost(q))
    }

    /// Serves the read from the zones behind the inode's double indirect
    /// zone.
    fn double_indirect_zones(
        disk: &Disk,
        inode: &Inode,
        buffer: &mut Vec<u8>,
        rs: &mut ReadState,
        Ghost(q): Ghost<Plan>,
    ) -> (r: u32)
        requires
            q.disk == disk@,
            old(rs).tracks(
                q.disk,
                zones_through(q.disk, inode@.zones, 1),
                q.want,
                q.offset,
                old(buffer)@,
                q.dest0,
            ),
            old(rs).bytes_left > 0,
            old(rs).blocks_seen <= DIRECT_ZONES + 3 * zone_cap(1),
        ensures
            final(rs).tracks(
                q.disk,
                zones_through(q.disk, inode@.zones, 2),
                q.want,
                q.offset,
                final(buffer)@,
                q.dest0,
            ),
            r == (if final(rs).bytes_left == 0 {
                final(rs).bytes_read
            } else {
                0
            }),
            final(rs).blocks_seen <= DIRECT_ZONES + 3 * zone_cap(2),
    {
        Self::indirect_level(disk, inode, DOUBLE_INDIRECT_ZONE, 2, buffer, rs, Ghost(q))
    }

    /// Serves the read from the zones behind the inode's triple indirect
    /// zone.
    fn triple_indirect_zones(
        disk: &Disk,
        inode: &Inode,
        buffer: &mut Vec<u8>,
        rs: &mut ReadState,
        Ghost(q): Ghost<Plan>,
    ) -> (r: u32)
        requires
            q.disk == disk@,
            old(rs).tracks(
                q.disk,
                zones_through(q.disk, inode@.zones, 2),
                q.want,
                q.offset,
                old(buffer)@,
                q.dest0,
            ),
            old(rs).bytes_left > 0,
            old(rs).blocks_seen <= DIRECT_ZONES + 3 * zone_cap(2),
        ensures
            final(rs).tracks(
                q.disk,
                zones_through(q.disk, inode@.zones, 3),
                q.want,
                q.offset,
                final(buffer)@,
                q.dest0,
            ),
            r == (if final(rs).bytes_left == 0 {
                final(rs).bytes_read
            } else {
                0
            }),
    {
        Self::indirect_level(disk, inode, TRIPLE_INDIRECT_ZONE, 3, buffer, rs, Ghost(q))
    }

    /// Reads up to `size` bytes of the file, beginning at byte `offset`, to
    /// the front of `buffer`, and returns the number of bytes read. The file
    /// is the blocks of the inode's data zones in order: the direct zones,
    /// then those behind the single, the double and the triple indirect zone,
    /// holes left out. The read ends with the file's size or with its last
    /// zone, whichever comes first.
    pub fn read(disk: &Disk, inode: &Inode, buffer: &mut Vec<u8>, size: u32, offset: u32) -> (n: u32)
        requires
            size <= old(buffer).len(),
        ensures
            n == read_len(disk@, inode@, size, offset),
            final(buffer)@ == file_slice(disk@, inode@.zones, offset as int, n as int) + old(
                buffer,
            )@.subrange(n as int, old(buffer).len() as int),
    {
        let mut rs = ReadState::new(inode.size, size, offset);
        let ghost q = Plan {
            disk: disk@,
            want: wanted_len(inode.size, size, offset),
            offset: offset as int,
            dest0: buffer@,
        };
        let ghost all = file_zones(disk@, inode@.zones);
        proof {
            lemma_zones_through_prefix(disk@, inode@.zones, 0, 3);
            lemma_zones_through_prefix(disk@, inode@.zones, 1, 3);
            lemma_zones_through_prefix(disk@, inode@.zones, 2, 3);
        }
        if rs.bytes_left == 0 {
            assert(buffer@ =~= file_slice(disk@, inode@.zones, offset as int, 0) + old(
                buffer,
            )@.subrange(0, old(buffer).len() as int));
            return 0;
        }
        let br: u32 = Self::direct_zones(disk, inode, buffer, &mut rs, Ghost(q));
        if br != 0 {
            proof {
                lemma_served_extends(
                    rs,
                    q,
                    zones_through(disk@, inode@.zones, 0),
                    all,
                    0,
                    buffer@,
                );
                lemma_read_result(rs, q, all, buffer@);
            }
            return br;
        }
        let br: u32 = Self::indirect_zones(disk, inode, buffer, &mut rs, Ghost(q));
        if br != 0 {
            proof {
                lemma_served_extends(
                    rs,
                    q,
                    zones_through(disk@, inode@.zones, 1),
                    all,
                    0,
                    buffer@,
                );
                lemma_read_result(rs, q, all, buffer@);
            }
            return br;
        }
        let br: u32 = Self::double_indirect_zones(disk, inode, buffer, &mut rs, Ghost(q));
        if br != 0 {
            proof {
                lemma_served_extends(
                    rs,
                    q,
                    zones_through(disk@, inode@.zones, 2),
                    all,
                    0,
                    buffer@,
                );
                lemma_read_result(rs, q, all, buffer@);
            }
            return br;
        }
        let br: u32 = Self::triple_indirect_zones(disk, inode, buffer, &mut rs, Ghost(q));
        proof {
            lemma_read_result(rs, q, all, buffer@);
        }
        if br != 0 {
            return br;
        }
        rs.bytes_read
    }
}

/// What the destination holds when the cursor has served all zones.
proof fn lemma_read_result(rs: ReadState, q: Plan, all: Seq<u32>, dest: Seq<u8>)
    requires
        rs.tracks(q.disk, all, q.want, q.offset, dest, q.dest0),
    ensures
        rs.bytes_read == served_len(q.want, q.offset, zones_bytes(q.disk, all).len() as int),
        dest == Seq::new(rs.bytes_read as nat, |t: int| zones_bytes(q.disk, all)[q.offset + t])
            + q.dest0.subrange(rs.bytes_read as int, q.dest0.len() as int),
{
    let got = rs.bytes_read as int;
    let flat = zones_bytes(q.disk, all);
    let front = Seq::new(got as nat, |t: int| flat[q.offset + t]);
    assert(flat.len() == all.len() * 1024);
    assert forall|t: int| 0 <= t < got implies dest[t] == front[t] by {
        assert(dest[t] == zones_bytes(q.disk, all)[q.offset + t]);
    }
    assert forall|t: int| got <= t < dest.len() implies dest[t] == q.dest0.subrange(
        got,
        q.dest0.len() as int,
    )[t - got] by {
        assert(dest[t] == q.dest0[t]);
    }
    assert(dest =~= front + q.dest0.subrange(got, q.dest0.len() as int));
}

/// Bytes of a directory that are listed: what a read of the whole file
/// returns.
pub open spec fn dir_len(disk: Seq<u8>, dir: InodeData) -> int {
    read_len(disk, dir, dir.size, 0)
}

/// Number of entries of a directory.
pub open spec fn dir_entry_count(disk: Seq<u8>, dir: InodeData) -> int {
    dir_len(disk, dir) / (DIR_ENTRY_SIZE as int)
}

/// Entry `i` of a directory.
pub open spec fn dir_entry(disk: Seq<u8>, dir: InodeData, i: int) -> DirEntryData {
    dir_entry_at(file_slice(disk, dir.zones, 0, dir_len(disk, dir)), DIR_ENTRY_SIZE * i)
}

/// The path of entry `i` of the directory with the path `cwd` and the inode
/// number `inode_num`.
pub open spec fn entry_path(
    disk: Seq<u8>,
    dir: InodeData,
    cwd: Seq<char>,
    inode_num: u32,
    i: int,
) -> Seq<char> {
    abs_name_of(vstd::utf8::encode_utf8(cwd), inode_num, dir_entry(disk, dir, i).name)
}

/// More entries than a directory can have.
pub open spec fn entry_limit() -> nat {
    0x1_0000_0000
}

/// The files that the walk of the directory `inode_num`, whose path is
/// `cwd`, puts into the cache, in the order of the walk. Directories are
/// followed `depth` levels down.
pub open spec fn tree_files(
    disk: Seq<u8>,
    sb: SuperBlock,
    cwd: Seq<char>,
    inode_num: u32,
    depth: nat,
) -> Seq<(Seq<char>, InodeData)>
    decreases depth, entry_limit() + 1,
{
    match inode_of(sb, disk, inode_num) {
        None => Seq::empty(),
        Some(dir) => entries_files(
            disk,
            sb,
            cwd,
            inode_num,
            dir,
            depth,
            dir_entry_count(disk, dir) as nat,
        ),
    }
}

/// The files that the entries of a directory before entry `n` put into the
/// cache, the first two entries left out: an entry whose inode is a
/// directory stands for the files below it, any other for itself.
pub open spec fn entries_files(
    disk: Seq<u8>,
    sb: SuperBlock,
    cwd: Seq<char>,
    inode_num: u32,
    dir: InodeData,
    depth: nat,
    n: nat,
) -> Seq<(Seq<char>, InodeData)>
    decreases depth, n,
{
    if n <= DIR_ENTRY_START || n > entry_limit() {
        Seq::empty()
    } else {
        entries_files(disk, sb, cwd, inode_num, dir, depth, (n - 1) as nat) + entry_files(
            disk,
            sb,
            cwd,
            inode_num,
            dir,
            depth,
            n - 1,
        )
    }
}

/// The files that entry `i` of a directory puts into the cache.
pub open spec fn entry_files(
    disk: Seq<u8>,
    sb: SuperBlock,
    cwd: Seq<char>,
    inode_num: u32,
    dir: InodeData,
    depth: nat,
    i: int,
) -> Seq<(Seq<char>, InodeData)>
    decreases depth, 0nat,
{
    match inode_of(sb, disk, dir_entry(disk, dir, i).inode) {
        None => Seq::empty(),
        Some(child) => if mode_is_directory(child.mode) {
            if depth > 0 {
                tree_files(
                    disk,
                    sb,
                    entry_path(disk, dir, cwd, inode_num, i),
                    dir_entry(disk, dir, i).inode,
                    (depth - 1) as nat,
                )
            } else {
                Seq::empty()
            }
        } else {
            seq![(entry_path(disk, dir, cwd, inode_num, i), child)]
        },
    }
}

impl Inode {
    /// The entries of the directory that this inode is.
    pub fn get_dirents(&self, disk: &Disk) -> (r: Vec<DirEntry>)
        ensures
            r.len() == dir_entry_count(disk@, self@),
            forall|i: int| 0 <= i < r.len() ==> (#[trigger] r[i])@ == dir_entry(disk@, self@, i),
    {
        let mut buf = Buffer::new(self.size as usize);
        let sz: u32 = MinixFileSystem::read(disk, self, buf.get_mut(), self.size, 0);
        let num_dirents: usize = sz as usize / DIR_ENTRY_SIZE;
        let mut dirents: Vec<DirEntry> = Vec::new();
        let mut i: usize = 0;
        while i < num_dirents
            invariant
                i <= num_dirents,
                num_dirents == sz as usize / DIR_ENTRY_SIZE,
                sz <= buf@.len(),
                sz == dir_len(disk@, self@),
                buf@.subrange(0, sz as int) == file_slice(disk@, self@.zones, 0, sz as int),
                dirents.len() == i,
                forall|k: int| 0 <= k < i ==> (#[trigger] dirents[k])@ == dir_entry(disk@, self@, k),
            decreases num_dirents - i,
        {
            let entry = DirEntry::parse(buf.get(), i * DIR_ENTRY_SIZE);
            proof {
                let whole = buf@;
                let front = file_slice(disk@, self@.zones, 0, sz as int);
                assert forall|t: int| 0 <= t < sz implies whole[t] == front[t] by {
                    assert(whole.subrange(0, sz as int)[t] == front[t]);
                }
                assert(dir_entry_at(whole, DIR_ENTRY_SIZE * i).name =~= dir_entry_at(
                    front,
                    DIR_ENTRY_SIZE * i,
                ).name);
            }
            dirents.push(entry);
            i = i + 1;
        }
        dirents
    }
}

impl MinixFileSystem {
    /// The superblock that was read when the filesystem was mounted.
    pub closed spec fn superblock(&self) -> SuperBlock {
        self.superblock
    }

    /// The cache of paths.
    pub closed spec fn cache(&self) -> Map<Seq<char>, InodeData> {
        self.cache@
    }

    /// Reads inode `inode_num` from the disk.
    pub fn get_inode(&self, disk: &Disk, inode_num: u32) -> (r: Option<Inode>)
        ensures
            r is Some <==> inode_of(self.superblock(), disk@, inode_num) is Some,
            r matches Some(inode) ==> Some(inode@) == inode_of(self.superblock(), disk@, inode_num),
    {
        self.superblock.get_inode(disk, inode_num)
    }

    /// Walks the directory `inode_num`, whose path is `cwd`, and puts every
    /// file below it into the cache, following directories `depth` levels
    /// down.
    fn cache_tree(
        sb: &SuperBlock,
        disk: &Disk,
        btm: &mut PathCache,
        cwd: &str,
        inode_num: u32,
        depth: u32,
    )
        ensures
            final(btm)@ == insert_all(
                old(btm)@,
                tree_files(disk@, *sb, cwd@, inode_num, depth as nat),
            ),
        decreases depth,
    {
        let inode = match sb.get_inode(disk, inode_num) {
            Some(inode) => inode,
            None => {
                return ;
            },
        };
        let dirents = inode.get_dirents(disk);
        let num_dirents: usize = dirents.len();
        let ghost dir = inode@;
        if num_dirents <= DIR_ENTRY_START {
            return ;
        }
        let mut i: usize = DIR_ENTRY_START;
        while i < num_dirents
            invariant
                DIR_ENTRY_START <= i <= num_dirents,
                num_dirents == dirents.len(),
                num_dirents == dir_entry_count(disk@, dir),
                dir == inode@,
                inode_of(*sb, disk@, inode_num) == Some(dir),
                forall|k: int|
                    0 <= k < dirents.len() ==> (#[trigger] dirents[k])@ == dir_entry(disk@, dir, k),
                btm@ == insert_all(
                    old(btm)@,
                    entries_files(disk@, *sb, cwd@, inode_num, dir, depth as nat, i as nat),
                ),
            decreases num_dirents - i,
        {
            let ghost before = entries_files(disk@, *sb, cwd@, inode_num, dir, depth as nat, i as nat);
            let ghost added = entry_files(disk@, *sb, cwd@, inode_num, dir, depth as nat, i as int);
            let ghost held = btm@;
            proof {
                lemma_insert_all_concat(old(btm)@, before, added);
                assert(dirents[i as int]@ == dir_entry(disk@, dir, i as int));
                assert(entries_files(disk@, *sb, cwd@, inode_num, dir, depth as nat, (i + 1) as nat)
                    == before + added) by {
                    reveal_with_fuel(entries_files, 2);
                }
                assert(insert_all(held, Seq::empty()) == held);
            }
            let directory_entry = &dirents[i];
            match sb.get_inode(disk, directory_entry.inode) {
                Some(directory_entry_inode) => {
                    let new_cwd = directory_entry.abs_name(cwd, inode_num);
                    if directory_entry_inode.is_directory() {
                        if depth > 0 {
                            Self::cache_tree(
                                sb,
                                disk,
                                btm,
                                new_cwd.as_str(),
                                directory_entry.inode,
                                depth - 1,
                            );
                        }
                    } else {
                        btm.insert(new_cwd, directory_entry_inode);
                        assert(added.drop_last() =~= Seq::empty());
                    }
                },
                None => {},
            }
            assert(btm@ == insert_all(held, added));
            i = i + 1;
        }
    }

    /// Number of sectors that the filesystem on the device spans, told from
    /// the device's first two blocks: as many as its zones take, and none
    /// where the superblock is not one of this filesystem.
    pub fn device_sectors(front: &Disk) -> (r: u64)
        ensures
            r == ({
                let sb = superblock_at(disk_read(front@, BLOCK_SIZE as int, SECTOR_SIZE as int));
                if sb.magic == MAGIC {
                    sb.zones * (BLOCK_SIZE as int / SECTOR_SIZE as int)
                } else {
                    0
                }
            }),
    {
        let superblock = Self::init_superblock_cache(front);
        if superblock.is_minixfs() {
            superblock.zones as u64 * (BLOCK_SIZE as u64 / SECTOR_SIZE as u64)
        } else {
            0
        }
    }

    /// Reads the superblock from its sector.
    fn init_superblock_cache(disk: &Disk) -> (r: SuperBlock)
        ensures
            r == superblock_at(disk_read(disk@, BLOCK_SIZE as int, SECTOR_SIZE as int)),
    {
        let mut buffer = Buffer::new(SECTOR_SIZE);
        disk.read(buffer.get_mut(), SECTOR_SIZE as u32, BLOCK_SIZE as u64);
        assert(buffer@ =~= disk_read(disk@, BLOCK_SIZE as int, SECTOR_SIZE as int));
        SuperBlock::parse(buffer.get())
    }

    /// Builds the cache of paths by a walk from the root directory.
    fn init_inode_cache(sb: &SuperBlock, disk: &Disk) -> (r: PathCache)
        ensures
            r@ == insert_all(
                Map::empty(),
                tree_files(disk@, *sb, seq!['/'], ROOT_NODE, sb.ninodes as nat),
            ),
    {
        let mut btm = PathCache::new();
        let cwd = String::from_str("/");
        proof {
            reveal_strlit("/");
            assert(cwd@ =~= seq!['/']);
        }
        Self::cache_tree(sb, disk, &mut btm, cwd.as_str(), ROOT_NODE, sb.ninodes);
        btm
    }

    /// Mounts the filesystem: reads the superblock, and caches the inode of
    /// every file that a walk from the root directory reaches under the
    /// file's absolute path. The walk follows as many directories below one
    /// another as the filesystem has inodes. Where the superblock is not one
    /// of this filesystem, the cache stays empty.
    pub fn init(disk: &Disk) -> (r: Self)
        ensures
            r.superblock() == superblock_at(disk_read(disk@, BLOCK_SIZE as int, SECTOR_SIZE as int)),
            r.cache() == insert_all(
                Map::empty(),
                tree_files(disk@, r.superblock(), seq!['/'], ROOT_NODE, r.superblock().ninodes as nat),
            ),
    {
        let superblock = Self::init_superblock_cache(disk);
        let cache = Self::init_inode_cache(&superblock, disk);
        MinixFileSystem { superblock, cache }
    }

    /// Whether the cache holds the path `file_name`.
    pub fn cached(&self, file_name: &str) -> (r: bool)
        ensures
            r == self.cache().contains_key(file_name@),
    {
        self.cache.get(file_name).is_some()
    }

    /// The paths of the cache in ascending order, each with its inode.
    pub fn debug_cache(&self) -> (r: Vec<(String, Inode)>)
        ensures
            self.cache() == insert_all(
                Map::empty(),
                Seq::new(r@.len(), |i: int| (r@[i].0@, r@[i].1@)),
            ),
            ascending(Seq::new(r@.len(), |i: int| (r@[i].0@, r@[i].1@))),
    {
        self.cache.list()
    }

    /// Reads from the file with the absolute path `file_name` as
    /// [`MinixFileSystem::read`] does; reads nothing where the cache does
    /// not hold the path.
    pub fn read_file(
        &self,
        disk: &Disk,
        file_name: &str,
        buffer: &mut Vec<u8>,
        size: u32,
        offset: u32,
    ) -> (n: u32)
        requires
            size <= old(buffer).len(),
        ensures
            !self.cache().contains_key(file_name@) ==> n == 0 && final(buffer)@ == old(buffer)@,
            self.cache().contains_key(file_name@) ==> {
                &&& n == read_len(disk@, self.cache()[file_name@], size, offset)
                &&& final(buffer)@ == file_slice(
                    disk@,
                    self.cache()[file_name@].zones,
                    offset as int,
                    n as int,
                ) + old(buffer)@.subrange(n as int, old(buffer).len() as int)
            },
    {
        match self.cache.get(file_name) {
            Some(node) => Self::read(disk, node, buffer, size, offset),
            None => 0,
        }
    }
}

/// Mounts the filesystem on `disk`; see [`MinixFileSystem::init`].
pub fn init(disk: &Disk) -> (r: MinixFileSystem)
    ensures
        r.superblock() == superblock_at(disk_read(disk@, BLOCK_SIZE as int, SECTOR_SIZE as int)),
        r.cache() == insert_all(
            Map::empty(),
            tree_files(disk@, r.superblock(), seq!['/'], ROOT_NODE, r.superblock().ninodes as nat),
        ),
{
    MinixFileSystem::init(disk)
}

/// The contents of the cache of paths; see [`MinixFileSystem::debug_cache`].
pub fn debug_cache(fs: &MinixFileSystem) -> (r: Vec<(String, Inode)>)
    ensures
        fs.cache() == insert_all(Map::empty(), Seq::new(r@.len(), |i: int| (r@[i].0@, r@[i].1@))),
        ascending(Seq::new(r@.len(), |i: int| (r@[i].0@, r@[i].1@))),
{
    fs.debug_cache()
}

/// Bit `k` of the byte is set.
pub open spec fn bit_is_set(byte: u8, k: int) -> bool {
    (byte >> (k as u8)) & 1 == 1
}

/// Number of bits that are set among the lowest `n` bits of the byte.
pub open spec fn bits_set(byte: u8, n: int) -> int
    decreases n,
{
    if n <= 0 {
        0
    } else {
        bits_set(byte, n - 1) + (if bit_is_set(byte, n - 1) {
            1int
        } else {
            0int
        })
    }
}

/// Number of bits that are set in the first `n` bytes.
pub open spec fn bitmap_bits(bytes: Seq<u8>, n: int) -> int
    decreases n,
{
    if n <= 0 {
        0
    } else {
        bitmap_bits(bytes, n - 1) + bits_set(bytes[n - 1], 8)
    }
}

/// Bit `k` of the bitmap, which counts its bits from the lowest bit of its
/// first byte on.
pub open spec fn bitmap_bit(bytes: Seq<u8>, k: int) -> bool {
    bit_is_set(bytes[k / 8], k % 8)
}

/// Bit `k` is the first bit among the first `limit` bytes that is not set.
pub open spec fn first_clear_bit(bytes: Seq<u8>, limit: int, k: int) -> bool {
    &&& 0 <= k < 8 * limit
    &&& !bitmap_bit(bytes, k)
    &&& forall|j: int| 0 <= j < k ==> #[trigger] bitmap_bit(bytes, j)
}

proof fn lemma_bits_set_bound(byte: u8, n: int)
    requires
        0 <= n,
    ensures
        0 <= bits_set(byte, n) <= n,
    decreases n,
{
    if n > 0 {
        lemma_bits_set_bound(byte, n - 1);
    }
}

proof fn lemma_bitmap_bits_bound(bytes: Seq<u8>, n: int)
    requires
        0 <= n,
    ensures
        0 <= bitmap_bits(bytes, n) <= 8 * n,
    decreases n,
{
    if n > 0 {
        lemma_bitmap_bits_bound(bytes, n - 1);
        lemma_bits_set_bound(bytes[n - 1], 8);
    }
}

/// Number of bits that are set in the byte.
pub fn bit_count(byte: u8) -> (r: u32)
    ensures
        r == bits_set(byte, 8),
{
    let mut count: u32 = 0;
    let mut k: u8 = 0;
    while k < 8
        invariant
            k <= 8,
            count == bits_set(byte, k as int),
            count <= k,
        decreases 8 - k,
    {
        if (byte >> k) & 1 == 1 {
            count = count + 1;
        }
        k = k + 1;
    }
    count
}

/// Number of bits that are set in the first `items` bytes.
pub fn bitmap_used(bytes: &Vec<u8>, items: usize) -> (r: u32)
    requires
        items <= bytes.len(),
        items <= 0x1fff_ffff,
    ensures
        r == bitmap_bits(bytes@, items as int),
{
    let mut total_bit_count: u32 = 0;
    let mut i: usize = 0;
    while i < items
        invariant
            i <= items,
            items <= bytes.len(),
            items <= 0x1fff_ffff,
            total_bit_count == bitmap_bits(bytes@, i as int),
            total_bit_count <= 8 * i,
        decreases items - i,
    {
        proof {
            lemma_bits_set_bound(bytes@[i as int], 8);
        }
        total_bit_count = total_bit_count + bit_count(bytes[i]);
        i = i + 1;
    }
    total_bit_count
}

/// The number, counted from 1, of the first bit among the first `limit`
/// bytes that is not set.
pub fn first_free(bytes: &Vec<u8>, limit: usize) -> (r: Option<u32>)
    requires
        limit <= bytes.len(),
        limit <= 0x1fff_ffff,
    ensures
        r matches Some(number) ==> first_clear_bit(bytes@, limit as int, number - 1),
        r is None ==> forall|j: int| 0 <= j < 8 * limit ==> #[trigger] bitmap_bit(bytes@, j),
        limit == bytes.len() ==> is_first_free(bytes@, r),
{
    let mut byte_idx: usize = 0;
    while byte_idx < limit
        invariant
            byte_idx <= limit,
            limit <= bytes.len(),
            limit <= 0x1fff_ffff,
            forall|j: int| 0 <= j < 8 * byte_idx ==> #[trigger] bitmap_bit(bytes@, j),
        decreases limit - byte_idx,
    {
        let byte: u8 = bytes[byte_idx];
        let mut bit_idx: u8 = 0;
        while bit_idx < 8
            invariant
                bit_idx <= 8,
                byte_idx < limit,
                limit <= bytes.len(),
                limit <= 0x1fff_ffff,
                byte == bytes@[byte_idx as int],
                forall|j: int| 0 <= j < 8 * byte_idx + bit_idx ==> #[trigger] bitmap_bit(bytes@, j),
            decreases 8 - bit_idx,
        {
            if (byte >> bit_idx) & 1 != 1 {
                let number: u32 = (byte_idx * 8) as u32 + bit_idx as u32 + 1;
                assert(!bitmap_bit(bytes@, 8 * byte_idx + bit_idx));
                return Some(number);
            }
            assert(bitmap_bit(bytes@, 8 * byte_idx + bit_idx));
            bit_idx = bit_idx + 1;
        }
        byte_idx = byte_idx + 1;
    }
    None
}

/// What the filesystem says of itself.
#[derive(Debug)]
pub struct FsReport {
    pub superblock: SuperBlock,
    /// The bytes of the inode bitmap that were counted.
    pub inode_bitmap: Vec<u8>,
    /// Number of bits that are set in them.
    pub inodes_used: u32,
    /// Number of the first inode whose bit is not set.
    pub first_free_inode: Option<u32>,
    /// The bytes of the zone bitmap that were counted.
    pub zone_bitmap: Vec<u8>,
    /// Number of bits that are set in them.
    pub zones_used: u32,
    /// Number of the first zone whose bit is not set.
    pub first_free_zone: Option<u32>,
    /// The inode of the root directory.
    pub root: Option<Inode>,
    /// The inode with the number 2.
    pub second: Option<Inode>,
}

/// Number of bytes of a bitmap of `blocks` blocks that hold `items` bytes of
/// bits: no more than the bitmap has.
pub open spec fn bitmap_items(blocks: u16, items: int) -> int {
    if items < 0 {
        0
    } else if items <= blocks * BLOCK_SIZE {
        items
    } else {
        blocks * BLOCK_SIZE
    }
}

/// The first `items` bytes of the bitmap of `blocks` blocks that begins at
/// block `first_block`.
pub open spec fn bitmap_bytes(disk: Seq<u8>, first_block: int, blocks: u16, items: int) -> Seq<u8> {
    disk_read(disk, first_block * BLOCK_SIZE, blocks * BLOCK_SIZE).subrange(
        0,
        bitmap_items(blocks, items),
    )
}

impl MinixFileSystem {
    /// Reads the first `items` bytes, or all if those are fewer, of the
    /// bitmap of `blocks` blocks that begins at block `first_block`.
    fn read_bitmap(disk: &Disk, first_block: u32, blocks: u16, items: u32) -> (r: Vec<u8>)
        requires
            first_block <= 0x2_0000,
        ensures
            r@ == bitmap_bytes(disk@, first_block as int, blocks, items as int),
            r@.len() <= 0x1fff_ffff,
    {
        let read_size: u32 = BLOCK_SIZE * blocks as u32;
        let mut buffer = Buffer::new(read_size as usize);
        disk.read(buffer.get_mut(), read_size, first_block as u64 * BLOCK_SIZE as u64);
        let count: u32 = if items <= read_size {
            items
        } else {
            read_size
        };
        let mut out: Vec<u8> = Vec::new();
        let mut i: usize = 0;
        while i < count as usize
            invariant
                i <= count,
                count <= buffer@.len(),
                out@ == buffer@.subrange(0, i as int),
            decreases count - i,
        {
            out.push(buffer.index(i));
            assert(out@ =~= buffer@.subrange(0, i + 1));
            i = i + 1;
        }
        assert(buffer@ =~= disk_read(
            disk@,
            first_block * BLOCK_SIZE,
            blocks as int * BLOCK_SIZE as int,
        ));
        out
    }

    /// What the filesystem says of itself; see [`FsReport::describes`].
    pub fn debug_fs(&self, disk: &Disk) -> (r: FsReport)
        ensures
            r.describes(self.superblock(), disk@),
    {
        let sb = self.superblock;
        let inodes: u32 = sb.ninodes;
        let zones: u32 = sb.zones;
        let first_data_zone: u32 = sb.first_data_zone as u32;
        let inode_bitmap = Self::read_bitmap(disk, 2, sb.imap_blocks, inodes / 8);
        let inodes_used = bitmap_used(&inode_bitmap, inode_bitmap.len());
        let first_free_inode = first_free(&inode_bitmap, inode_bitmap.len());
        let zone_items: u32 = if zones / 8 >= first_data_zone {
            zones / 8 - first_data_zone
        } else {
            0
        };
        let zone_bitmap = Self::read_bitmap(disk, 2 + sb.imap_blocks as u32, sb.zmap_blocks, zone_items);
        let zones_used = bitmap_used(&zone_bitmap, zone_bitmap.len());
        let all_zones = Self::read_bitmap(disk, 2 + sb.imap_blocks as u32, sb.zmap_blocks, zones / 8);
        let first_free_zone = first_free(&all_zones, all_zones.len());
        FsReport {
            superblock: sb,
            inode_bitmap,
            inodes_used,
            first_free_inode,
            zone_bitmap,
            zones_used,
            first_free_zone,
            root: self.superblock.get_inode(disk, 1),
            second: self.superblock.get_inode(disk, 2),
        }
    }
}

/// The bytes of the inode bitmap that stand for the superblock's number of
/// inodes.
pub open spec fn inode_bitmap_of(disk: Seq<u8>, sb: SuperBlock) -> Seq<u8> {
    bitmap_bytes(disk, 2, sb.imap_blocks, (sb.ninodes / 8) as int)
}

/// The bytes of the zone bitmap that stand for the superblock's number of
/// zones.
pub open spec fn zone_bitmap_of(disk: Seq<u8>, sb: SuperBlock) -> Seq<u8> {
    bitmap_bytes(disk, 2 + sb.imap_blocks, sb.zmap_blocks, (sb.zones / 8) as int)
}

/// As many bytes of the zone bitmap as the number of zones takes, less the
/// number of the first data zone.
pub open spec fn data_zone_bitmap_of(disk: Seq<u8>, sb: SuperBlock) -> Seq<u8> {
    bitmap_bytes(disk, 2 + sb.imap_blocks, sb.zmap_blocks, sb.zones / 8 - sb.first_data_zone)
}

/// The answer of a search for a bit that is not set: its number, counted
/// from 1, where there is one.
pub open spec fn is_first_free(bytes: Seq<u8>, answer: Option<u32>) -> bool {
    match answer {
        Some(number) => first_clear_bit(bytes, bytes.len() as int, number - 1),
        None => forall|j: int| 0 <= j < 8 * bytes.len() ==> #[trigger] bitmap_bit(bytes, j),
    }
}

impl FsReport {
    /// The report says what the disk holds: the superblock, the bytes of the
    /// two bitmaps and how many of their bits are set, the first inode and
    /// the first zone whose bit is not set, and the inodes 1 and 2.
    pub open spec fn describes(&self, sb: SuperBlock, disk: Seq<u8>) -> bool {
        &&& self.superblock == sb
        &&& self.inode_bitmap@ == inode_bitmap_of(disk, sb)
        &&& self.inodes_used == bitmap_bits(self.inode_bitmap@, self.inode_bitmap@.len() as int)
        &&& is_first_free(inode_bitmap_of(disk, sb), self.first_free_inode)
        &&& self.zone_bitmap@ == data_zone_bitmap_of(disk, sb)
        &&& self.zones_used == bitmap_bits(self.zone_bitmap@, self.zone_bitmap@.len() as int)
        &&& is_first_free(zone_bitmap_of(disk, sb), self.first_free_zone)
        &&& self.root is Some <==> inode_of(sb, disk, 1) is Some
        &&& self.root matches Some(inode) ==> Some(inode@) == inode_of(sb, disk, 1)
        &&& self.second is Some <==> inode_of(sb, disk, 2) is Some
        &&& self.second matches Some(inode) ==> Some(inode@) == inode_of(sb, disk, 2)
    }
}

/// What the filesystem says of itself; see [`FsReport::describes`].
pub fn debug_fs(fs: &MinixFileSystem, disk: &Disk) -> (r: FsReport)
    ensures
        r.describes(fs.superblock(), disk@),
{
    fs.debug_fs(disk)
}

} // verus!
