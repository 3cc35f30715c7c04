use crate::order::{at_most, below, higher, lower};
use vstd::pervasive::cloned;
use vstd::prelude::*;

verus! {

/// A half-open range of keys, `start` up to but not including `end`, bound to a value.
/// Segments compare by `start`, then `end`, then `value`.
#[derive(PartialEq, Eq, PartialOrd, Ord, Hash)]
pub struct Segment<K, V> {
    pub start: K,
    pub end: K,
    pub value: V,
}

/// Whether `key` lies in the range of `e`.
pub open spec fn covers<K: Ord, V>(e: Segment<K, V>, key: K) -> bool {
    at_most(e.start, key) && below(key, e.end)
}

/// Whether `e` lies wholly inside `a` up to `b`.
pub open spec fn inside<K: Ord, V>(e: Segment<K, V>, a: K, b: K) -> bool {
    at_most(a, e.start) && at_most(e.end, b)
}

/// Whether `e` shares a key with `a` up to `b`.
pub open spec fn meets<K: Ord, V>(e: Segment<K, V>, a: K, b: K) -> bool {
    below(e.start, b) && below(a, e.end)
}

/// Whether `e` reaches over both ends of `a` up to `b`, so that clearing the range cuts it
/// in two.
pub open spec fn straddles<K: Ord, V>(e: Segment<K, V>, a: K, b: K) -> bool {
    below(e.start, a) && below(b, e.end)
}

/// Whether neither key is below the other.
pub open spec fn level<K: Ord>(x: K, y: K) -> bool {
    !below(x, y) && !below(y, x)
}

/// The segments are non-empty and ascending, each ending no later than the next begins.
pub open spec fn well_formed<K: Ord, V>(s: Seq<Segment<K, V>>) -> bool {
    &&& forall|i: int| 0 <= i < s.len() ==> below(#[trigger] s[i].start, s[i].end)
    &&& forall|i: int, j: int|
        0 <= i < j < s.len() ==> at_most(#[trigger] s[i].end, #[trigger] s[j].start)
}

/// `e` with its end pulled down to `a` where it reached beyond.
pub open spec fn cut_end<K: Ord, V>(e: Segment<K, V>, a: K) -> Segment<K, V> {
    Segment { start: e.start, end: lower(e.end, a), value: e.value }
}

/// `e` with its start pushed up to `b` where it began earlier.
pub open spec fn cut_start<K: Ord, V>(e: Segment<K, V>, b: K) -> Segment<K, V> {
    Segment { start: higher(e.start, b), end: e.end, value: e.value }
}

/// What `s` holds below `a`: each segment that starts below `a`, cut off at `a`, in order.
pub open spec fn clip_below<K: Ord, V>(s: Seq<Segment<K, V>>, a: K) -> Seq<Segment<K, V>>
    decreases s.len(),
{
    if s.len() == 0 {
        Seq::empty()
    } else if below(s.last().start, a) {
        clip_below(s.drop_last(), a).push(cut_end(s.last(), a))
    } else {
        clip_below(s.drop_last(), a)
    }
}

/// What `s` holds from `b` on: each segment that ends above `b`, begun no earlier than `b`,
/// in order.
pub open spec fn clip_above<K: Ord, V>(s: Seq<Segment<K, V>>, b: K) -> Seq<Segment<K, V>>
    decreases s.len(),
{
    if s.len() == 0 {
        Seq::empty()
    } else if below(b, s.last().end) {
        clip_above(s.drop_last(), b).push(cut_start(s.last(), b))
    } else {
        clip_above(s.drop_last(), b)
    }
}

/// `s` with the keys from `a` up to `b` cleared: what it holds below `a`, then what it holds
/// from `b` on.
pub open spec fn removed<K: Ord, V>(s: Seq<Segment<K, V>>, a: K, b: K) -> Seq<Segment<K, V>> {
    clip_below(s, a) + clip_above(s, b)
}

/// The start of a segment that is to span the keys from `a` on: where a segment of `s`
/// begins level with `a`, the start of that segment; else `a`.
pub open spec fn anchor<K: Ord, V>(s: Seq<Segment<K, V>>, a: K) -> K {
    if exists|i: int| 0 <= i < s.len() && level(#[trigger] s[i].start, a) {
        s[choose|i: int| 0 <= i < s.len() && level(#[trigger] s[i].start, a)].start
    } else {
        a
    }
}

/// `s` with the keys from `a` up to `b` bound to `value` in one segment. A segment of `s`
/// that begins level with `a` keeps its place: the new segment has its start.
pub open spec fn inserted<K: Ord, V>(s: Seq<Segment<K, V>>, a: K, b: K, value: V) -> Seq<
    Segment<K, V>,
> {
    clip_below(s, a).push(Segment { start: anchor(s, a), end: b, value }) + clip_above(s, b)
}

/// Whether some segment of `s` reaches over both ends of `a` up to `b`.
pub open spec fn split_by<K: Ord, V>(s: Seq<Segment<K, V>>, a: K, b: K) -> bool {
    exists|i: int| 0 <= i < s.len() && straddles(#[trigger] s[i], a, b)
}

/// The segment of `s` that covers `key`, if there is one.
pub open spec fn lookup<K: Ord, V>(s: Seq<Segment<K, V>>, key: K) -> Option<Segment<K, V>> {
    if exists|i: int| 0 <= i < s.len() && covers(#[trigger] s[i], key) {
        Some(s[choose|i: int| 0 <= i < s.len() && covers(#[trigger] s[i], key)])
    } else {
        None
    }
}

/// Whether `got` is `want` but for the value at `at`, which is a copy of the one there.
pub open spec fn same_but_copy_at<K, V: Clone>(
    got: Seq<Segment<K, V>>,
    want: Seq<Segment<K, V>>,
    at: int,
) -> bool {
    &&& got.len() == want.len()
    &&& 0 <= at < want.len()
    &&& forall|i: int| 0 <= i < want.len() && i != at ==> #[trigger] got[i] == want[i]
    &&& got[at].start == want[at].start
    &&& got[at].end == want[at].end
    &&& cloned(want[at].value, got[at].value)
}

/// Whether `got` is `s` with the keys from `a` up to `b` cleared. Where a segment of `s`
/// reaches over both ends of the range, the part of it from `b` on carries a copy of its
/// value; everything else is as it was.
pub open spec fn cleared<K: Ord, V: Clone>(
    s: Seq<Segment<K, V>>,
    got: Seq<Segment<K, V>>,
    a: K,
    b: K,
) -> bool {
    if split_by(s, a, b) {
        same_but_copy_at(got, removed(s, a, b), clip_below(s, a).len() as int)
    } else {
        got == removed(s, a, b)
    }
}

/// Whether `got` is `s` with the keys from `a` up to `b` bound to `value` in one segment.
/// Where a segment of `s` reaches over both ends of the range, the part of it from `b` on
/// carries a copy of its value; everything else is as it was.
pub open spec fn overwritten<K: Ord, V: Clone>(
    s: Seq<Segment<K, V>>,
    got: Seq<Segment<K, V>>,
    a: K,
    b: K,
    value: V,
) -> bool {
    if split_by(s, a, b) {
        same_but_copy_at(got, inserted(s, a, b, value), clip_below(s, a).len() as int + 1)
    } else {
        got == inserted(s, a, b, value)
    }
}

} // verus!
