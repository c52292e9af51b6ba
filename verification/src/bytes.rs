//! Small helpers on byte buffers.

use vstd::prelude::*;
use vstd::slice::slice_subrange;
use vstd::slice::slice_to_vec;

verus! {

/// Appends `more` to `buf`.
pub fn append_bytes(buf: &mut Vec<u8>, more: &[u8])
    ensures
        final(buf)@ == old(buf)@ + more@,
{
    let mut copy: Vec<u8> = slice_to_vec(more);
    buf.append(&mut copy);
}

/// The bytes of `buf` from place `i` up to place `j`.
pub fn copy_range(buf: &[u8], i: usize, j: usize) -> (r: Vec<u8>)
    requires
        i <= j <= buf@.len(),
    ensures
        r@ == buf@.subrange(i as int, j as int),
{
    slice_to_vec(slice_subrange(buf, i, j))
}

/// A copy of `buf`.
pub fn copy_all(buf: &[u8]) -> (r: Vec<u8>)
    ensures
        r@ == buf@,
{
    slice_to_vec(buf)
}

/// What the functions of this module return and leave behind.
pub proof fn law_byte_calls()
    ensures
        forall|b: &mut Vec<u8>, m: &[u8], r: ()| #[trigger]
            call_ensures(append_bytes, (b, m), r) ==> (*final(b))@ == b@ + m@,
        forall|b: &[u8], i: usize, j: usize, r: Vec<u8>| #[trigger]
            call_ensures(copy_range, (b, i, j), r) ==> r@ == b@.subrange(i as int, j as int),
        forall|b: &[u8], r: Vec<u8>| #[trigger] call_ensures(copy_all, (b,), r) ==> r@ == b@,
{
}

} // verus!
