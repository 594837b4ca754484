//! An owned, fixed-length run of bytes.

use crate::minixfs3::BLOCK_SIZE;
use vstd::prelude::*;

verus! {

/// A buffer of bytes whose length is chosen when it is made.
pub struct Buffer {
    buffer: Vec<u8>,
}

impl View for Buffer {
    type V = Seq<u8>;

    closed spec fn view(&self) -> Seq<u8> {
        self.buffer@
    }
}

impl Buffer {
    /// A buffer of `sz` zero bytes.
    pub fn new(sz: usize) -> (r: Self)
        ensures
            r@.len() == sz,
            forall|i: int| 0 <= i < sz ==> r@[i] == 0,
    {
        Self { buffer: vec![0u8; sz] }
    }

    /// The bytes, for writing.
    pub fn get_mut(&mut self) -> (r: &mut Vec<u8>)
        ensures
            r@ == old(self)@,
            final(self)@ == final(r)@,
    {
        &mut self.buffer
    }

    /// The bytes.
    pub fn get(&self) -> (r: &Vec<u8>)
        ensures
            r@ == self@,
    {
        &self.buffer
    }

    /// Number of bytes.
    pub fn len(&self) -> (r: usize)
        ensures
            r == self@.len(),
    {
        self.buffer.len()
    }

    /// The byte at `idx`.
    pub fn index(&self, idx: usize) -> (r: u8)
        requires
            idx < self@.len(),
        ensures
            r == self@[idx as int],
    {
        self.buffer[idx]
    }

    /// Stores `value` at `idx`.
    pub fn set(&mut self, idx: usize, value: u8)
        requires
            idx < old(self)@.len(),
        ensures
            final(self)@ == old(self)@.update(idx as int, value),
    {
        self.buffer[idx] = value;
    }
}

impl Default for Buffer {
    /// A buffer of one filesystem block.
    fn default() -> (r: Self)
        ensures
            r@.len() == BLOCK_SIZE,
            forall|i: int| 0 <= i < BLOCK_SIZE ==> r@[i] == 0,
    {
        Self::new(BLOCK_SIZE as usize)
    }
}

impl Clone for Buffer {
    /// A new buffer with the same bytes.
    fn clone(&self) -> (r: Self)
        ensures
            r@ == self@,
    {
        let mut copy = Self::new(self.len());
        let n: usize = self.len();
        crate::memory::memcpy(&mut copy.buffer, 0, &self.buffer, 0, n);
        assert(copy@ =~= self@);
        copy
    }
}

} // verus!
