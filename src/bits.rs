use bit_vec::BitVec;
use vstd::prelude::*;

verus! {

/// The bit vector of the `bit_vec` crate, opaque here: what it holds is
/// `bits_of`.
#[verifier::external_type_specification]
#[verifier::external_body]
#[verifier::reject_recursive_types(B)]
pub struct ExBitVec<B>(BitVec<B>);

/// The bits that a bit vector holds, first bit first.
pub uninterp spec fn bits_of(b: BitVec) -> Seq<bool>;

/// Number of set bits in `s`.
pub open spec fn count_true(s: Seq<bool>) -> nat
    decreases s.len(),
{
    if s.len() == 0 {
        0
    } else {
        count_true(s.drop_last()) + if s.last() { 1nat } else { 0nat }
    }
}

/// Relies on `BitVec::from_elem`: `len` bits, each equal to `bit`.
#[verifier::external_body]
pub(crate) fn bits_from_elem(len: usize, bit: bool) -> (r: BitVec)
    ensures
        bits_of(r) == Seq::new(len as nat, |i: int| bit),
{
    BitVec::from_elem(len, bit)
}

/// Relies on `BitVec::get`: the bit at `i`, or `None` past the end.
#[verifier::external_body]
pub(crate) fn bits_get(b: &BitVec, i: usize) -> (r: Option<bool>)
    ensures
        i < bits_of(*b).len() ==> r == Some(bits_of(*b)[i as int]),
        i >= bits_of(*b).len() ==> r is None,
{
    b.get(i)
}

/// Relies on `BitVec::len`: the number of bits held.
#[verifier::external_body]
pub(crate) fn bits_len(b: &BitVec) -> (r: usize)
    ensures
        r == bits_of(*b).len(),
{
    b.len()
}

/// Relies on `BitVec::none`: whether no bit is set.
#[verifier::external_body]
pub(crate) fn bits_none(b: &BitVec) -> (r: bool)
    ensures
        r == (forall|i: int| 0 <= i < bits_of(*b).len() ==> !bits_of(*b)[i]),
{
    b.none()
}

/// Relies on `BitVec::fill`: every bit becomes `bit`, the length stays.
#[verifier::external_body]
pub(crate) fn bits_fill(b: &mut BitVec, bit: bool)
    ensures
        bits_of(*final(b)) == Seq::new(bits_of(*old(b)).len(), |i: int| bit),
{
    b.fill(bit)
}

/// Relies on `BitVec::set`: the bit at `i` becomes `x`; it panics past the end.
#[verifier::external_body]
pub(crate) fn bits_set(b: &mut BitVec, i: usize, x: bool)
    requires
        i < bits_of(*old(b)).len(),
    ensures
        bits_of(*final(b)) == bits_of(*old(b)).update(i as int, x),
{
    b.set(i, x)
}

} // verus!
