//! `bit_vec::BitVec` as the library uses it: declared to Verus, its contents
//! named, and one trusted wrapper for each method the logic calls.
use vstd::prelude::*;
use bit_vec::BitVec;

verus! {

#[verifier::external_type_specification]
#[verifier::external_body]
#[verifier::reject_recursive_types(B)]
pub struct ExBitVec<B>(BitVec<B>);

/// The bits a `BitVec` holds, first bit first.
pub uninterp spec fn bit_contents(v: BitVec) -> Seq<bool>;

/// `BitVec::new`: an empty bit vector.
#[verifier::external_body]
pub(crate) fn bitvec_new() -> (v: BitVec)
    ensures
        bit_contents(v) == Seq::<bool>::empty(),
{
    BitVec::new()
}

/// `BitVec::from_elem`: `len` bits, each equal to `bit`.
#[verifier::external_body]
pub(crate) fn bitvec_from_elem(len: usize, bit: bool) -> (v: BitVec)
    ensures
        bit_contents(v) == Seq::new(len as nat, |i: int| bit),
{
    BitVec::from_elem(len, bit)
}

/// `BitVec::push`: appends one bit; it panics only when the length would
/// overflow `usize`, which `requires` rules out.
#[verifier::external_body]
pub(crate) fn bitvec_push(v: &mut BitVec, bit: bool)
    requires
        bit_contents(*old(v)).len() < usize::MAX,
    ensures
        bit_contents(*final(v)) == bit_contents(*old(v)).push(bit),
{
    v.push(bit)
}

/// `BitVec::len`: the number of bits.
#[verifier::external_body]
pub(crate) fn bitvec_len(v: &BitVec) -> (n: usize)
    ensures
        n as nat == bit_contents(*v).len(),
{
    v.len()
}

/// `BitVec::and`: bitwise `and` in place; it panics on vectors of different
/// lengths, which `requires` rules out, and returns whether `v` changed.
#[verifier::external_body]
pub(crate) fn bitvec_and(v: &mut BitVec, other: &BitVec) -> (changed: bool)
    requires
        bit_contents(*old(v)).len() == bit_contents(*other).len(),
    ensures
        bit_contents(*final(v)) == Seq::new(
            bit_contents(*old(v)).len(),
            |i: int| bit_contents(*old(v))[i] && bit_contents(*other)[i],
        ),
        changed == (bit_contents(*final(v)) != bit_contents(*old(v))),
{
    v.and(other)
}

/// `BitVec::none`: whether no bit is set.
#[verifier::external_body]
pub(crate) fn bitvec_none(v: &BitVec) -> (none: bool)
    ensures
        none == (forall|i: int| 0 <= i < bit_contents(*v).len() ==> !#[trigger] bit_contents(*v)[i]),
{
    v.none()
}

} // verus!
