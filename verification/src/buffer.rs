use smallvec::SmallVec;
use vstd::prelude::*;

verus! {

/// A buffer of positions in a `smallvec::SmallVec`, which keeps the first eight inline.
/// Nothing inside it is visible to the verifier: what a buffer holds is spoken of through
/// `buffered`.
#[verifier::external_body]
pub struct Buffer {
    items: SmallVec<[usize; 8]>,
}

/// The positions that a buffer holds, in the order in which they were pushed.
pub uninterp spec fn buffered(b: Buffer) -> Seq<usize>;

/// The most positions a buffer is ever asked to hold. Growing a `SmallVec` rounds the new
/// length up to a power of two and fails where the bytes of that many positions exceed
/// `isize::MAX`; up to this length they do not.
pub const BUFFER_LIMIT: usize = usize::MAX / 32;

/// `SmallVec::new`: a buffer that holds nothing.
#[verifier::external_body]
pub(crate) fn buffer_new() -> (b: Buffer)
    ensures
        buffered(b) == Seq::<usize>::empty(),
{
    Buffer { items: SmallVec::new() }
}

/// `SmallVec::len`: the number of positions held.
#[verifier::external_body]
pub(crate) fn buffer_len(b: &Buffer) -> (n: usize)
    ensures
        n == buffered(*b).len(),
{
    b.items.len()
}

/// `SmallVec::push`: appends `position` behind what is held. Below `BUFFER_LIMIT` the
/// growth that a push may need cannot overflow.
#[verifier::external_body]
pub(crate) fn buffer_push(b: &mut Buffer, position: usize)
    requires
        buffered(*old(b)).len() < BUFFER_LIMIT,
    ensures
        buffered(*final(b)) == buffered(*old(b)).push(position),
{
    b.items.push(position)
}

/// The indexing of `SmallVec`, which is that of the slice it derefs to: the position held
/// at `i`.
#[verifier::external_body]
pub(crate) fn buffer_at(b: &Buffer, i: usize) -> (position: usize)
    requires
        i < buffered(*b).len(),
    ensures
        position == buffered(*b)[i as int],
{
    b.items[i]
}

} // verus!
