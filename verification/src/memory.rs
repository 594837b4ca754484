//! Helpers for memory arithmetic and copying.

use vstd::arithmetic::power2::*;
use vstd::bits::*;
use vstd::prelude::*;

verus! {

/// `val` rounded up to the next multiple of `2^order`.
pub open spec fn spec_align_val(val: int, order: nat) -> int {
    ((val + pow2(order) - 1) / (pow2(order) as int)) * pow2(order)
}

/// The rounded value is the least multiple of `2^order` that is not below `val`.
pub proof fn lemma_align_val_is_least(val: int, order: nat)
    requires
        0 <= val,
    ensures
        spec_align_val(val, order) % (pow2(order) as int) == 0,
        val <= spec_align_val(val, order) < val + pow2(order),
{
    let a = pow2(order) as int;
    lemma_pow2_pos(order);
    let x = val + a - 1;
    vstd::arithmetic::div_mod::lemma_fundamental_div_mod(x, a);
    vstd::arithmetic::div_mod::lemma_mod_multiples_basic(x / a, a);
    vstd::arithmetic::mul::lemma_mul_is_commutative(x / a, a);
    vstd::arithmetic::div_mod::lemma_mod_bound(x, a);
}

/// Rounds `val` up to the next multiple of `2^order`.
pub fn align_val(val: usize, order: usize) -> (r: usize)
    requires
        order < usize::BITS,
        val + pow2(order as nat) - 1 <= usize::MAX,
    ensures
        r == spec_align_val(val as int, order as nat),
{
    proof {
        lemma_usize_pow2_no_overflow(order as nat);
        lemma_usize_shl_is_mul(1usize, order);
    }
    let o: usize = (1usize << order) - 1;
    let x: usize = val + o;
    let r: usize = x & !o;
    proof {
        let a = pow2(order as nat);
        lemma_pow2_pos(order as nat);
        assert(o == low_bits_mask(order as nat));
        lemma_usize_low_bits_mask_is_mod(x, order as nat);
        assert(x & !o == x - (x & o)) by (bit_vector);
        vstd::arithmetic::div_mod::lemma_fundamental_div_mod(x as int, a as int);
        vstd::arithmetic::mul::lemma_mul_is_commutative((x / (a as usize)) as int, a as int);
    }
    r
}

/// The bytes of `dest` after `bytes` bytes of `src`, starting at `src_off`,
/// were copied to position `dest_off`.
pub open spec fn spec_memcpy(
    dest: Seq<u8>,
    dest_off: int,
    src: Seq<u8>,
    src_off: int,
    bytes: int,
) -> Seq<u8> {
    Seq::new(
        dest.len(),
        |i: int|
            if dest_off <= i < dest_off + bytes {
                src[src_off + (i - dest_off)]
            } else {
                dest[i]
            },
    )
}

/// Copies `bytes` bytes from `src[src_off..]` to `dest[dest_off..]`.
pub fn memcpy(dest: &mut Vec<u8>, dest_off: usize, src: &Vec<u8>, src_off: usize, bytes: usize)
    requires
        dest_off + bytes <= old(dest).len(),
        src_off + bytes <= src.len(),
    ensures
        final(dest)@ == spec_memcpy(old(dest)@, dest_off as int, src@, src_off as int, bytes as int),
{
    let mut i: usize = 0;
    while i < bytes
        invariant
            i <= bytes,
            dest.len() == old(dest).len(),
            dest_off + bytes <= dest.len(),
            src_off + bytes <= src.len(),
            dest@ == spec_memcpy(old(dest)@, dest_off as int, src@, src_off as int, i as int),
        decreases bytes - i,
    {
        dest[dest_off + i] = src[src_off + i];
        i = i + 1;
    }
}

/// The 16-bit little-endian number stored at `s[at..at + 2]`.
pub open spec fn le16(s: Seq<u8>, at: int) -> u16 {
    (s[at] as int + 256 * (s[at + 1] as int)) as u16
}

/// The 32-bit little-endian number stored at `s[at..at + 4]`.
pub open spec fn le32(s: Seq<u8>, at: int) -> u32 {
    (s[at] as int + 256 * (s[at + 1] as int) + 65536 * (s[at + 2] as int) + 16777216 * (s[at
        + 3] as int)) as u32
}

/// Reads a 16-bit little-endian number.
pub fn load_u16_le(bytes: &Vec<u8>, at: usize) -> (r: u16)
    requires
        at + 2 <= bytes.len(),
    ensures
        r == le16(bytes@, at as int),
{
    bytes[at] as u16 + 256 * (bytes[at + 1] as u16)
}

/// Reads a 32-bit little-endian number.
pub fn load_u32_le(bytes: &Vec<u8>, at: usize) -> (r: u32)
    requires
        at + 4 <= bytes.len(),
    ensures
        r == le32(bytes@, at as int),
{
    bytes[at] as u32 + 256 * (bytes[at + 1] as u32) + 65536 * (bytes[at + 2] as u32) + 16777216 * (
    bytes[at + 3] as u32)
}

} // verus!
