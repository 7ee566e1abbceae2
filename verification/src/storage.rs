//! The gap buffer that holds the cumulative run ends.
//!
//! Nothing in this module is proved: each function states what the `gapbuf`
//! crate does, and the rest of the library is verified against these
//! statements. Running out of memory, or out of the size that one allocation
//! can have, is not modelled.

use gapbuf::GapBuffer;
use vstd::prelude::*;

verus! {

/// A `gapbuf::GapBuffer<u32>` of run ends. Verus sees nothing inside it; what it
/// holds is spoken of through [`gap_items`].
#[verifier::external_body]
#[derive(Debug, Hash)]
pub struct EndBuffer {
    inner: GapBuffer<u32>,
}

/// The elements of a buffer of run ends, in index order.
pub uninterp spec fn gap_items(buf: EndBuffer) -> Seq<u32>;

/// `GapBuffer::new`: the new buffer holds nothing.
#[verifier::external_body]
pub(crate) fn gap_new() -> (buf: EndBuffer)
    ensures
        gap_items(buf) == Seq::<u32>::empty(),
{
    EndBuffer { inner: GapBuffer::new() }
}

/// `GapBuffer::with_capacity`: the new buffer holds nothing. The crate panics
/// when the byte size of the reservation does not fit a memory layout, so the
/// capacity is bounded here.
#[verifier::external_body]
pub(crate) fn gap_with_capacity(capacity: usize) -> (buf: EndBuffer)
    requires
        capacity * 4 <= isize::MAX,
    ensures
        gap_items(buf) == Seq::<u32>::empty(),
{
    EndBuffer { inner: GapBuffer::with_capacity(capacity) }
}

/// `Slice::len`, reached through the buffer's `Deref`: the number of elements.
#[verifier::external_body]
pub(crate) fn gap_len(buf: &EndBuffer) -> (n: usize)
    ensures
        n == gap_items(*buf).len(),
{
    buf.inner.len()
}

/// `Slice::is_empty`: whether the buffer holds no element.
#[verifier::external_body]
pub(crate) fn gap_is_empty(buf: &EndBuffer) -> (b: bool)
    ensures
        b == (gap_items(*buf).len() == 0),
{
    buf.inner.is_empty()
}

/// `Index::index` of the buffer: the element at `index`. The crate panics when
/// `index` is out of bounds.
#[verifier::external_body]
pub(crate) fn gap_get(buf: &EndBuffer, index: usize) -> (end: u32)
    requires
        index < gap_items(*buf).len(),
    ensures
        end == gap_items(*buf)[index as int],
{
    buf.inner[index]
}

/// `IndexMut::index_mut` of the buffer, then an assignment: the element at
/// `index` is replaced and no other changes. The crate panics when `index` is
/// out of bounds.
#[verifier::external_body]
pub(crate) fn gap_set(buf: &mut EndBuffer, index: usize, end: u32)
    requires
        index < gap_items(*old(buf)).len(),
    ensures
        gap_items(*final(buf)) == gap_items(*old(buf)).update(index as int, end),
{
    buf.inner[index] = end;
}

/// `GapBuffer::push_back`: the element is appended after all others. The crate
/// panics when the count would overflow.
#[verifier::external_body]
pub(crate) fn gap_push_back(buf: &mut EndBuffer, end: u32)
    requires
        gap_items(*old(buf)).len() < usize::MAX,
    ensures
        gap_items(*final(buf)) == gap_items(*old(buf)).push(end),
{
    buf.inner.push_back(end)
}

/// `GapBuffer::pop_back`: `None` on an empty buffer, which stays as it is; else
/// the last element, which leaves the buffer.
#[verifier::external_body]
pub(crate) fn gap_pop_back(buf: &mut EndBuffer) -> (end: Option<u32>)
    ensures
        gap_items(*old(buf)).len() == 0 ==> end.is_none() && gap_items(*final(buf)) == gap_items(
            *old(buf),
        ),
        gap_items(*old(buf)).len() > 0 ==> end == Some(gap_items(*old(buf)).last())
            && gap_items(*final(buf)) == gap_items(*old(buf)).drop_last(),
{
    buf.inner.pop_back()
}

/// `GapBuffer::insert`: the element stands at `index` and those from there on
/// move up by one. The crate panics when `index` is beyond the length or the
/// count would overflow.
#[verifier::external_body]
pub(crate) fn gap_insert(buf: &mut EndBuffer, index: usize, end: u32)
    requires
        index <= gap_items(*old(buf)).len(),
        gap_items(*old(buf)).len() < usize::MAX,
    ensures
        gap_items(*final(buf)) == gap_items(*old(buf)).insert(index as int, end),
{
    buf.inner.insert(index, end)
}

/// `GapBuffer::remove`: the element at `index` is returned and those behind it
/// move down by one. The crate panics on an index beyond the length, and its
/// check lets the length itself through, where no element is: both are left out
/// here.
#[verifier::external_body]
pub(crate) fn gap_remove(buf: &mut EndBuffer, index: usize) -> (end: u32)
    requires
        index < gap_items(*old(buf)).len(),
    ensures
        end == gap_items(*old(buf))[index as int],
        gap_items(*final(buf)) == gap_items(*old(buf)).remove(index as int),
{
    buf.inner.remove(index)
}

/// `GapBuffer::splice` with a replacement of one element, the returned iterator
/// dropped at once: the elements in `from..to` leave and `end` stands in their
/// place. The crate panics when the range is out of bounds or reversed, and,
/// where the range is empty so that the buffer grows, when the count would
/// overflow.
#[verifier::external_body]
pub(crate) fn gap_splice_one(buf: &mut EndBuffer, from: usize, to: usize, end: u32)
    requires
        from <= to <= gap_items(*old(buf)).len(),
        from == to ==> gap_items(*old(buf)).len() < usize::MAX,
    ensures
        gap_items(*final(buf)) == gap_items(*old(buf)).subrange(0, from as int).push(end)
            + gap_items(*old(buf)).subrange(to as int, gap_items(*old(buf)).len() as int),
{
    buf.inner.splice(from..to, [end]);
}

/// `GapBuffer::clear`: the buffer holds nothing afterwards.
#[verifier::external_body]
pub(crate) fn gap_clear(buf: &mut EndBuffer)
    ensures
        gap_items(*final(buf)) == Seq::<u32>::empty(),
{
    buf.inner.clear()
}

/// `GapBuffer::shrink_to_fit`: the elements stay as they are.
#[verifier::external_body]
pub(crate) fn gap_shrink_to_fit(buf: &mut EndBuffer)
    ensures
        gap_items(*final(buf)) == gap_items(*old(buf)),
{
    buf.inner.shrink_to_fit()
}

/// `Slice::as_slices`: the part before the gap and the part behind it; one after
/// the other they are the buffer's elements.
#[verifier::external_body]
pub(crate) fn gap_as_slices(buf: &EndBuffer) -> (parts: (&[u32], &[u32]))
    ensures
        parts.0@ + parts.1@ == gap_items(*buf),
{
    buf.inner.as_slices()
}

/// `Clone::clone` of the buffer: the copy holds the same elements.
#[verifier::external_body]
pub(crate) fn gap_clone(buf: &EndBuffer) -> (copy: EndBuffer)
    ensures
        gap_items(copy) == gap_items(*buf),
{
    EndBuffer { inner: buf.inner.clone() }
}

} // verus!
