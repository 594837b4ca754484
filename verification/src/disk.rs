//! The contents of the block device, as the filesystem reads them.

use crate::allocator::Heap;
use vstd::prelude::*;

verus! {

/// Size in bytes of a sector of the device.
pub const SECTOR_SIZE: usize = 512;

/// An image of the device's sectors. Whatever lies past the end of the image
/// reads as zero.
pub struct Disk {
    bytes: Vec<u8>,
}

impl View for Disk {
    type V = Seq<u8>;

    closed spec fn view(&self) -> Seq<u8> {
        self.bytes@
    }
}

/// Byte `i` of the device.
pub open spec fn disk_byte(disk: Seq<u8>, i: int) -> u8 {
    if 0 <= i < disk.len() {
        disk[i]
    } else {
        0
    }
}

/// Position of the first byte of the sector that holds byte `offset`.
pub open spec fn sector_start(offset: int) -> int {
    (offset / (SECTOR_SIZE as int)) * SECTOR_SIZE
}

/// What a read of `size` bytes delivers that begins with the sector that
/// holds byte `offset`.
pub open spec fn disk_read(disk: Seq<u8>, offset: int, size: int) -> Seq<u8> {
    Seq::new(size as nat, |i: int| disk_byte(disk, sector_start(offset) + i))
}

impl Disk {
    /// The device whose contents are `bytes`.
    pub fn new(bytes: Vec<u8>) -> (r: Self)
        ensures
            r@ == bytes@,
    {
        Self { bytes }
    }

    /// Number of bytes in the image.
    pub fn len(&self) -> (r: usize)
        ensures
            r == self@.len(),
    {
        self.bytes.len()
    }

    /// Reads `size` bytes into the front of `buffer`, beginning with the
    /// sector that holds byte `offset`.
    pub fn read(&self, buffer: &mut Vec<u8>, size: u32, offset: u64)
        requires
            size <= old(buffer).len(),
        ensures
            final(buffer)@ == disk_read(self@, offset as int, size as int) + old(buffer)@.subrange(
                size as int,
                old(buffer).len() as int,
            ),
    {
        let base: u64 = (offset / (SECTOR_SIZE as u64)) * (SECTOR_SIZE as u64);
        let len: usize = self.bytes.len();
        let mut i: u32 = 0;
        while i < size
            invariant
                i <= size,
                len == self@.len(),
                size <= buffer.len(),
                buffer.len() == old(buffer).len(),
                base == sector_start(offset as int),
                forall|k: int| 0 <= k < i ==> buffer@[k] == disk_byte(self@, base + k),
                forall|k: int| i <= k < buffer.len() ==> buffer@[k] == old(buffer)@[k],
            decreases size - i,
        {
            let mut value: u8 = 0;
            if base <= u64::MAX - (i as u64) {
                let pos: u64 = base + i as u64;
                if pos < len as u64 {
                    value = self.bytes[pos as usize];
                }
            }
            buffer[i as usize] = value;
            i = i + 1;
        }
        assert(buffer@ =~= disk_read(self@, offset as int, size as int) + old(buffer)@.subrange(
            size as int,
            old(buffer).len() as int,
        ));
    }
}

/// The sector that lies in memory at the address `buffer`: the bytes that
/// the heap holds there, and zero for what lies outside the heap.
pub open spec fn sector_in_memory(heap: Heap, buffer: int) -> Seq<u8> {
    Seq::new(
        SECTOR_SIZE as nat,
        |i: int|
            if heap.heap_start() <= buffer + i < heap.heap_start() + heap.memory().len() {
                heap.byte(buffer + i)
            } else {
                0u8
            },
    )
}

/// Collects the sectors of the device, one after the other from its first,
/// into an image. The caller asks the driver for the sector at
/// [`DiskReader::next_offset`] and, once the request is complete, delivers
/// the buffer.
pub struct DiskReader {
    bytes: Vec<u8>,
    sectors: u64,
}

/// What a [`DiskReader`] holds: the bytes collected so far, and the number
/// of sectors that are to be collected.
pub struct DiskReaderView {
    pub bytes: Seq<u8>,
    pub sectors: u64,
}

impl View for DiskReader {
    type V = DiskReaderView;

    closed spec fn view(&self) -> DiskReaderView {
        DiskReaderView { bytes: self.bytes@, sectors: self.sectors }
    }
}

impl DiskReader {
    /// A reader for the first `sectors` sectors, which holds none yet.
    pub fn new(sectors: u64) -> (r: Self)
        ensures
            r@.bytes.len() == 0,
            r@.sectors == sectors,
    {
        DiskReader { bytes: Vec::new(), sectors }
    }

    /// Byte offset on the device of the sector to read next; `None` when
    /// all sectors are there.
    pub fn next_offset(&self) -> (r: Option<u64>)
        ensures
            r == (if self@.bytes.len() / (SECTOR_SIZE as nat) < self@.sectors {
                Some(self@.bytes.len() as u64)
            } else {
                None
            }),
    {
        let len: usize = self.bytes.len();
        if ((len / SECTOR_SIZE) as u64) < self.sectors {
            Some(len as u64)
        } else {
            None
        }
    }

    /// Appends the sector that lies in memory at the address `buffer`.
    pub fn deliver(&mut self, heap: &Heap, buffer: usize)
        requires
            heap.wf(),
        ensures
            final(self)@.bytes == old(self)@.bytes + sector_in_memory(*heap, buffer as int),
            final(self)@.sectors == old(self)@.sectors,
    {
        let mut i: usize = 0;
        while i < SECTOR_SIZE
            invariant
                i <= SECTOR_SIZE,
                heap.wf(),
                self.sectors == old(self).sectors,
                self.bytes@ == old(self).bytes@ + sector_in_memory(*heap, buffer as int).subrange(
                    0,
                    i as int,
                ),
            decreases SECTOR_SIZE - i,
        {
            let mut value: u8 = 0;
            if buffer <= usize::MAX - i {
                match heap.load(buffer + i) {
                    Some(byte) => {
                        value = byte;
                    },
                    None => {},
                }
            }
            self.bytes.push(value);
            assert(self.bytes@ =~= old(self).bytes@ + sector_in_memory(
                *heap,
                buffer as int,
            ).subrange(0, i + 1));
            i = i + 1;
        }
        assert(sector_in_memory(*heap, buffer as int).subrange(0, SECTOR_SIZE as int)
            =~= sector_in_memory(*heap, buffer as int));
    }

    /// The image of what was collected.
    pub fn finish(self) -> (r: Disk)
        ensures
            r@ == self@.bytes,
    {
        Disk::new(self.bytes)
    }
}

} // verus!
