use vstd::prelude::*;

verus! {

/// Declares `heapless::Vec` so that the fixed-capacity lookback buffer can
/// stand in verified signatures; values of it are opaque to the verifier and
/// are reached only through the wrappers below.
#[verifier::external_type_specification]
#[verifier::external_body]
#[verifier::reject_recursive_types(T)]
pub struct ExHeaplessVec<T, const N: usize>(heapless::Vec<T, N>);

/// The characters held by a lookback buffer, front to back.
pub uninterp spec fn buf_view(v: heapless::Vec<char, 32>) -> Seq<char>;

/// Relies on heapless::Vec::new: the buffer starts empty.
#[verifier::external_body]
pub(crate) fn buf_new() -> (r: heapless::Vec<char, 32>)
    ensures
        buf_view(r) == Seq::<char>::empty(),
{
    heapless::Vec::new()
}

/// Relies on heapless::Vec::push: appends at the back when fewer than the
/// fixed capacity of 32 items are held, and otherwise hands the item back
/// unchanged, leaving the buffer as it was.
#[verifier::external_body]
pub(crate) fn buf_push(v: &mut heapless::Vec<char, 32>, c: char) -> (r: Result<(), char>)
    ensures
        buf_view(*old(v)).len() < 32 ==> r is Ok && buf_view(*final(v)) == buf_view(
            *old(v),
        ).push(c),
        buf_view(*old(v)).len() >= 32 ==> r is Err && buf_view(*final(v)) == buf_view(*old(v)),
{
    v.push(c)
}

/// Relies on heapless::Vec's slice view and slice::get: the item at `i`,
/// or `None` past the end.
#[verifier::external_body]
pub(crate) fn buf_get(v: &heapless::Vec<char, 32>, i: usize) -> (r: Option<char>)
    ensures
        r == (if i < buf_view(*v).len() {
            Some(buf_view(*v)[i as int])
        } else {
            None::<char>
        }),
{
    v.get(i).cloned()
}

/// Relies on heapless::Vec::clear: removes every item.
#[verifier::external_body]
pub(crate) fn buf_clear(v: &mut heapless::Vec<char, 32>)
    ensures
        buf_view(*final(v)) == Seq::<char>::empty(),
{
    v.clear()
}

/// Relies on heapless::Vec::clone: the copy holds the same items and
/// shares no storage with the original.
#[verifier::external_body]
pub(crate) fn buf_clone(v: &heapless::Vec<char, 32>) -> (r: heapless::Vec<char, 32>)
    ensures
        buf_view(r) == buf_view(*v),
{
    v.clone()
}

} // verus!
