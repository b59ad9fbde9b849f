//! The dependency list of a variable, held in a `smallvec::SmallVec` of
//! variable indices.

use vstd::prelude::*;
use smallvec::SmallVec;

verus! {

/// A variable's dependencies: a `smallvec::SmallVec` with room for four
/// indices inline, held in a private field. What it holds is known through
/// [`dep_items`] alone, which the functions below keep up to date.
#[verifier::external_body]
#[derive(Debug)]
pub struct DepList {
    inner: SmallVec<[usize; 4]>,
}

/// The variable indices held by a dependency list, in order.
pub uninterp spec fn dep_items(v: DepList) -> Seq<usize>;

/// `SmallVec::new`: the new vector holds no item.
#[verifier::external_body]
pub(crate) fn dep_list_new() -> (r: DepList)
    ensures
        dep_items(r) == Seq::<usize>::empty(),
{
    DepList { inner: SmallVec::new() }
}

/// `SmallVec::from_slice`: the new vector holds the slice's items in order.
#[verifier::external_body]
pub(crate) fn dep_list_from_slice(s: &[usize]) -> (r: DepList)
    ensures
        dep_items(r) == s@,
{
    DepList { inner: SmallVec::from_slice(s) }
}

/// `SmallVec::as_slice`: the slice shows the items in order.
#[verifier::external_body]
pub(crate) fn dep_list_as_slice(v: &DepList) -> (r: &[usize])
    ensures
        r@ == dep_items(*v),
{
    v.inner.as_slice()
}

/// `SmallVec::clear`: afterwards the vector holds no item.
#[verifier::external_body]
pub(crate) fn dep_list_clear(v: &mut DepList)
    ensures
        dep_items(*final(v)) == Seq::<usize>::empty(),
{
    v.inner.clear()
}

} // verus!
