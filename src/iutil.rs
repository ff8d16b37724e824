use vstd::prelude::*;

verus! {

/// States what an in-place operation asks of its operands: a non-empty
/// destination at least as long as the source.
pub fn assert_in_place_op<D>(res: &[D], rhs: &[D])
    requires
        res@.len() > 0,
        res@.len() >= rhs@.len(),
{
}

/// States what an operation into a separate destination asks of its
/// operands: a non-empty destination at least as long as either source.
pub fn assert_dst_op(res: &[u8], lhs: &[u8], rhs: &[u8])
    requires
        res@.len() > 0,
        res@.len() >= rhs@.len(),
        res@.len() >= lhs@.len(),
{
}

} // verus!
