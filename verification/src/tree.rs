use crate::buffer::{buffer_at, buffer_len, buffer_new, buffer_push, buffered, Buffer, BUFFER_LIMIT};
use crate::lemmas::{
    lemma_anchor, lemma_ascending, lemma_clip_above_bound, lemma_clip_below_bound,
    lemma_discarded, lemma_lookup_at, lemma_lookup_none, lemma_trim_steps,
    lemma_well_formed_splice,
};
use crate::model::{
    cleared, clip_above, clip_below, inside, inserted, lookup, overwritten, same_but_copy_at,
    split_by, well_formed, Segment,
};
use crate::order::{at_most, below, is_below, lemma_below_transitive, ordered};
use std::ops::Range;
use vstd::pervasive::cloned;
use vstd::prelude::*;

verus! {

/// Disjoint half-open ranges of keys, each bound to a value, kept in ascending order.
/// Trees compare, and hash, as the sequences of their segments.
#[derive(PartialEq, Eq, PartialOrd, Ord, Hash)]
pub struct RangeTree<K, V> {
    segs: Vec<Segment<K, V>>,
}

impl<K, V> View for RangeTree<K, V> {
    type V = Seq<Segment<K, V>>;

    closed spec fn view(&self) -> Seq<Segment<K, V>> {
        self.segs@
    }
}

impl<K: Ord + Copy, V: Clone> RangeTree<K, V> {
    /// The segments are non-empty, ascending and disjoint.
    pub open spec fn wf(&self) -> bool {
        well_formed(self@)
    }

    /// A tree that binds no key.
    pub fn new() -> (tree: Self)
        ensures
            tree@ == Seq::<Segment<K, V>>::empty(),
            tree.wf(),
    {
        Self { segs: Vec::new() }
    }

    /// The number of segments that start below `key`, or with `through` set, that start at
    /// or below it; they are the first so many.
    fn rank(&self, key: K, through: bool) -> (n: usize)
        requires
            ordered::<K>(),
            self.wf(),
        ensures
            n <= self@.len(),
            forall|i: int|
                0 <= i < n ==> if through {
                    at_most(#[trigger] self@[i].start, key)
                } else {
                    below(self@[i].start, key)
                },
            forall|i: int|
                n <= i < self@.len() ==> if through {
                    below(key, #[trigger] self@[i].start)
                } else {
                    at_most(key, self@[i].start)
                },
    {
        let mut lo: usize = 0;
        let mut hi: usize = self.segs.len();
        while lo < hi
            invariant
                ordered::<K>(),
                self.wf(),
                lo <= hi <= self@.len(),
                forall|i: int|
                    0 <= i < lo ==> if through {
                        at_most(#[trigger] self@[i].start, key)
                    } else {
                        below(self@[i].start, key)
                    },
                forall|i: int|
                    hi <= i < self@.len() ==> if through {
                        below(key, #[trigger] self@[i].start)
                    } else {
                        at_most(key, self@[i].start)
                    },
            decreases hi - lo,
        {
            let mid: usize = lo + (hi - lo) / 2;
            let start: K = self.segs[mid].start;
            let before: bool = if through {
                !is_below(key, start)
            } else {
                is_below(start, key)
            };
            if before {
                assert forall|i: int| 0 <= i < mid + 1 implies if through {
                    at_most(#[trigger] self@[i].start, key)
                } else {
                    below(self@[i].start, key)
                } by {
                    if i < mid {
                        lemma_ascending(self@, i, mid as int);
                        lemma_below_transitive(self@[i].start, start, key);
                    }
                }
                lo = mid + 1;
            } else {
                assert forall|i: int| mid <= i < self@.len() implies if through {
                    below(key, #[trigger] self@[i].start)
                } else {
                    at_most(key, self@[i].start)
                } by {
                    if mid < i {
                        lemma_ascending(self@, mid as int, i);
                        lemma_below_transitive(key, start, self@[i].start);
                    }
                }
                hi = mid;
            }
        }
        lo
    }

    /// Scans backwards, without changing anything, from the last segment that starts
    /// below `b`, and records the positions of the segments that lie wholly inside `a` up
    /// to `b`. They are the positions below `top`, highest first. The scan is `complete`
    /// unless the buffer had to turn a position away.
    fn contained(&self, a: K, b: K) -> (plan: (Buffer, usize, bool))
        requires
            ordered::<K>(),
            self.wf(),
            below(a, b),
        ensures
            ({
                let (doomed, top, complete) = plan;
                let d = buffered(doomed);
                &&& d.len() <= top <= self@.len()
                &&& forall|j: int| 0 <= j < d.len() ==> #[trigger] d[j] == top - 1 - j
                &&& forall|k: int| top - d.len() <= k < top ==> inside(#[trigger] self@[k], a, b)
                &&& complete ==> forall|k: int|
                    0 <= k < self@.len() && inside(#[trigger] self@[k], a, b) ==> top - d.len()
                        <= k < top
                &&& !complete ==> d.len() > 0
            }),
    {
        let hi: usize = self.rank(b, false);
        let mut top: usize = hi;
        if top > 0 && is_below(b, self.segs[top - 1].end) {
            top = top - 1;
        }
        proof {
            assert forall|k: int| 0 <= k < top implies at_most(#[trigger] self@[k].end, b) by {
                if k < hi - 1 {
                    lemma_below_transitive(self@[k].end, self@[hi - 1].start, b);
                }
            }
            assert forall|k: int| top <= k < self@.len() implies !inside(
                #[trigger] self@[k],
                a,
                b,
            ) by {
                if k >= hi {
                    lemma_below_transitive(b, self@[k].start, self@[k].end);
                }
            }
        }
        let mut doomed: Buffer = buffer_new();
        let mut complete: bool = false;
        let mut i: usize = top;
        loop
            invariant
                ordered::<K>(),
                self.wf(),
                i <= top <= self@.len(),
                buffered(doomed).len() == top - i,
                forall|j: int| 0 <= j < top - i ==> #[trigger] buffered(doomed)[j] == top - 1 - j,
                forall|k: int| 0 <= k < top ==> at_most(#[trigger] self@[k].end, b),
                forall|k: int| i <= k < top ==> at_most(a, #[trigger] self@[k].start),
                complete ==> forall|k: int| 0 <= k < i ==> below(#[trigger] self@[k].start, a),
                !complete ==> top - i > 0 || i == top,
            ensures
                complete || buffered(doomed).len() >= BUFFER_LIMIT,
            decreases i,
        {
            if i == 0 {
                complete = true;
                break ;
            }
            if is_below(self.segs[i - 1].start, a) {
                proof {
                    assert forall|k: int| 0 <= k < i implies below(
                        #[trigger] self@[k].start,
                        a,
                    ) by {
                        if k < i - 1 {
                            lemma_ascending(self@, k, i - 1);
                            lemma_below_transitive(self@[k].start, self@[i - 1].start, a);
                        }
                    }
                }
                complete = true;
                break ;
            }
            if buffer_len(&doomed) >= BUFFER_LIMIT {
                break ;
            }
            buffer_push(&mut doomed, i - 1);
            i = i - 1;
        }
        (doomed, top, complete)
    }

    /// Removes the segments at the positions below `top` that `doomed` holds, highest
    /// first.
    fn discard(&mut self, doomed: &Buffer, top: usize)
        requires
            buffered(*doomed).len() <= top <= old(self)@.len(),
            forall|j: int|
                0 <= j < buffered(*doomed).len() ==> #[trigger] buffered(*doomed)[j] == top - 1 - j,
        ensures
            final(self)@ == old(self)@.take(top - buffered(*doomed).len()) + old(self)@.skip(
                top as int,
            ),
    {
        let count: usize = buffer_len(doomed);
        let mut j: usize = 0;
        assert(self@ =~= old(self)@.take(top as int) + old(self)@.skip(top as int));
        while j < count
            invariant
                j <= count <= top <= old(self)@.len(),
                count == buffered(*doomed).len(),
                forall|j: int| 0 <= j < count ==> #[trigger] buffered(*doomed)[j] == top - 1 - j,
                self@ == old(self)@.take(top - j) + old(self)@.skip(top as int),
            decreases count - j,
        {
            let position: usize = buffer_at(doomed, j);
            let ghost before = self@;
            self.segs.remove(position);
            assert(self@ =~= old(self)@.take(top - j - 1) + old(self)@.skip(top as int)) by {
                assert(self@ == before.remove(position as int));
            }
            j = j + 1;
        }
    }

    /// Cuts back the segments that reach into `a` up to `b` from either side, in a tree
    /// that holds no segment wholly inside that range: one that starts in the range is
    /// moved up to start at `b`; one that starts below `a` is cut off at `a`, and what it
    /// held from `b` on becomes a segment of its own with a copy of the value. Returns the
    /// number of segments below `a` afterwards.
    fn trim(&mut self, a: K, b: K) -> (at: usize)
        requires
            ordered::<K>(),
            old(self).wf(),
            below(a, b),
            forall|k: int| 0 <= k < old(self)@.len() ==> !inside(#[trigger] old(self)@[k], a, b),
        ensures
            final(self).wf(),
            at == clip_below(old(self)@, a).len(),
            cleared(old(self)@, final(self)@, a, b),
    {
        let ghost s = self@;
        let hi: usize = self.rank(b, false);
        let mut j: usize = hi;
        let ghost mut pulled = false;
        let ghost mut cut = false;
        let ghost mut split = false;
        if j > 0 && !is_below(self.segs[j - 1].start, a) {
            self.segs[j - 1].start = b;
            j = j - 1;
            proof {
                pulled = true;
            }
        }
        if j > 0 && is_below(a, self.segs[j - 1].end) {
            let past: K = self.segs[j - 1].end;
            self.segs[j - 1].end = a;
            if is_below(b, past) {
                let copy: V = self.segs[j - 1].value.clone();
                let ghost before = self@;
                self.segs.insert(j, Segment { start: b, end: past, value: copy });
                proof {
                    split = true;
                    assert(self@[j as int].value == copy);
                }
            }
            proof {
                cut = true;
            }
        }
        proof {
            lemma_trim_steps(s, self@, hi as int, pulled, cut, split, a, b);
        }
        j
    }

    /// Clears the keys from `a` up to `b`: discards the segments that lie wholly inside,
    /// batch by batch as the buffer takes them, then cuts back the one or two that reach
    /// in from outside. Returns the number of segments below `a` afterwards.
    fn clear(&mut self, a: K, b: K) -> (at: usize)
        requires
            ordered::<K>(),
            old(self).wf(),
            below(a, b),
        ensures
            final(self).wf(),
            at == clip_below(old(self)@, a).len(),
            cleared(old(self)@, final(self)@, a, b),
    {
        let ghost s = self@;
        loop
            invariant
                ordered::<K>(),
                below(a, b),
                self.wf(),
                clip_below(self@, a) == clip_below(s, a),
                clip_above(self@, b) == clip_above(s, b),
                split_by(self@, a, b) == split_by(s, a, b),
            ensures
                forall|k: int| 0 <= k < self@.len() ==> !inside(#[trigger] self@[k], a, b),
            decreases self@.len(),
        {
            let (doomed, top, complete) = self.contained(a, b);
            let ghost before = self@;
            self.discard(&doomed, top);
            proof {
                let x = top - buffered(doomed).len();
                lemma_discarded(before, x, top as int, a, b);
                if complete {
                    assert forall|k: int| 0 <= k < self@.len() implies !inside(
                        #[trigger] self@[k],
                        a,
                        b,
                    ) by {
                        if k < x {
                            assert(self@[k] == before[k]);
                        } else {
                            assert(self@[k] == before[k - x + top]);
                        }
                    }
                }
            }
            if complete {
                break ;
            }
        }
        self.trim(a, b)
    }

    /// Binds every key of `range` to `new_value`, in one segment. What was bound inside
    /// the range before is replaced, what was bound outside stays, and a segment that
    /// reached across an end of the range is cut back to the part outside. A segment that
    /// began level with the range keeps its start for the new one. An empty or inverted
    /// range changes nothing.
    pub fn insert(&mut self, range: Range<K>, new_value: V)
        requires
            ordered::<K>(),
            old(self).wf(),
        ensures
            final(self).wf(),
            if below(range.start, range.end) {
                overwritten(old(self)@, final(self)@, range.start, range.end, new_value)
            } else {
                final(self)@ == old(self)@
            },
    {
        let a: K = range.start;
        let b: K = range.end;
        if !is_below(a, b) {
            return ;
        }
        let ghost s = self@;
        let first: usize = self.rank(a, false);
        let start: K = if first < self.segs.len() && !is_below(a, self.segs[first].start) {
            self.segs[first].start
        } else {
            a
        };
        proof {
            lemma_anchor(s, first as int, a);
        }
        let at: usize = self.clear(a, b);
        let ghost cur = self@;
        let ghost fresh = Segment { start, end: b, value: new_value };
        proof {
            lemma_clip_below_bound(s, a);
            lemma_clip_above_bound(s, b);
            lemma_below_transitive(start, a, b);
            if at > 0 {
                assert(cur[at - 1].end == clip_below(s, a)[at - 1].end);
                assert(below(clip_below(s, a)[at - 1].start, a));
                lemma_below_transitive(cur[at - 1].end, a, start);
            }
            if at < cur.len() {
                assert(cur[at as int].start == clip_above(s, b)[0].start);
                assert(at_most(b, clip_above(s, b)[0].start));
            }
            lemma_well_formed_splice(cur, at as int, at as int, seq![fresh]);
            assert(cur.insert(at as int, fresh) =~= cur.take(at as int) + seq![fresh] + cur.skip(
                at as int,
            ));
        }
        self.segs.insert(at, Segment { start, end: b, value: new_value });
        proof {
            let got = self@;
            let want = inserted(s, a, b, new_value);
            if split_by(s, a, b) {
                assert forall|i: int| 0 <= i < want.len() && i != at + 1 implies #[trigger] got[i]
                    == want[i] by {
                    if i > at {
                        assert(got[i] == cur[i - 1]);
                    }
                }
                assert(same_but_copy_at(got, want, at + 1));
            } else {
                assert(got =~= want);
            }
        }
    }

    /// Unbinds every key of `range`. What was bound outside the range stays, and a
    /// segment that reached across an end of the range is cut back to the part outside.
    /// An empty or inverted range changes nothing.
    pub fn remove(&mut self, range: Range<K>)
        requires
            ordered::<K>(),
            old(self).wf(),
        ensures
            final(self).wf(),
            if below(range.start, range.end) {
                cleared(old(self)@, final(self)@, range.start, range.end)
            } else {
                final(self)@ == old(self)@
            },
    {
        if is_below(range.start, range.end) {
            self.clear(range.start, range.end);
        }
    }

    /// The segments in ascending order, each as its range and its value. The result has
    /// one item for each segment; walked backwards it gives them in descending order.
    pub fn iter(&self) -> (items: Vec<(Range<K>, &V)>)
        ensures
            items@.len() == self@.len(),
            forall|i: int|
                0 <= i < self@.len() ==> {
                    &&& (#[trigger] items@[i]).0.start == self@[i].start
                    &&& items@[i].0.end == self@[i].end
                    &&& *items@[i].1 == self@[i].value
                },
    {
        let mut items: Vec<(Range<K>, &V)> = Vec::new();
        let mut i: usize = 0;
        while i < self.segs.len()
            invariant
                i <= self@.len(),
                items@.len() == i,
                forall|k: int|
                    0 <= k < i ==> {
                        &&& (#[trigger] items@[k]).0.start == self@[k].start
                        &&& items@[k].0.end == self@[k].end
                        &&& *items@[k].1 == self@[k].value
                    },
            decreases self@.len() - i,
        {
            let seg = &self.segs[i];
            items.push((seg.start..seg.end, &seg.value));
            i = i + 1;
        }
        items
    }

    /// The segments in ascending order, each as its range and its value, which may be
    /// changed in place. The ranges stay as they are.
    pub fn iter_mut(&mut self) -> (items: Vec<(Range<K>, &mut V)>)
        ensures
            items@.len() == old(self)@.len(),
            final(self)@.len() == old(self)@.len(),
            forall|i: int|
                0 <= i < old(self)@.len() ==> {
                    &&& (#[trigger] items@[i]).0.start == old(self)@[i].start
                    &&& items@[i].0.end == old(self)@[i].end
                    &&& *items@[i].1 == old(self)@[i].value
                },
            forall|i: int|
                0 <= i < old(self)@.len() ==> {
                    &&& (#[trigger] final(self)@[i]).start == old(self)@[i].start
                    &&& final(self)@[i].end == old(self)@[i].end
                    &&& final(self)@[i].value == *final(items@[i].1)
                },
            old(self).wf() ==> final(self).wf(),
    {
        let ghost s = self@;
        let count: usize = self.segs.len();
        let mut items: Vec<(Range<K>, &mut V)> = Vec::new();
        let mut rest: &mut [Segment<K, V>] = self.segs.as_mut_slice();
        let mut i: usize = 0;
        while rest.len() > 0
            invariant
                s.len() == count,
                i + rest@.len() == s.len(),
                rest@ == s.skip(i as int),
                items@.len() == i,
                after_borrow(self.segs)@ == Seq::new(
                    i as nat,
                    |k: int|
                        Segment { start: s[k].start, end: s[k].end, value: *final(items@[k].1) },
                ) + final(rest)@,
                forall|k: int|
                    0 <= k < i ==> {
                        &&& (#[trigger] items@[k]).0.start == s[k].start
                        &&& items@[k].0.end == s[k].end
                        &&& *items@[k].1 == s[k].value
                    },
            decreases rest@.len(),
        {
            let (head, tail) = rest.split_at_mut(1);
            let seg = &mut head[0];
            items.push((seg.start..seg.end, &mut seg.value));
            rest = tail;
            i = i + 1;
        }
        items
    }

    /// The segment that covers `key`, as its range and its value.
    pub fn get(&self, key: K) -> (found: Option<(Range<K>, &V)>)
        requires
            ordered::<K>(),
            self.wf(),
        ensures
            match found {
                Some((range, value)) => lookup(self@, key) == Some(
                    Segment { start: range.start, end: range.end, value: *value },
                ),
                None => lookup(self@, key).is_none(),
            },
    {
        let n: usize = self.rank(key, true);
        if n == 0 {
            return None;
        }
        let seg = &self.segs[n - 1];
        if is_below(key, seg.end) {
            proof {
                lemma_lookup_at(self@, key, n - 1);
            }
            Some((seg.start..seg.end, &seg.value))
        } else {
            proof {
                lemma_lookup_none(self@, key, n as int);
            }
            None
        }
    }
}

impl<K: Ord + Copy, V: Clone> Clone for RangeTree<K, V> {
    /// A tree with the same ranges, each bound to a copy of its value.
    fn clone(&self) -> (tree: Self)
        ensures
            tree@.len() == self@.len(),
            forall|i: int|
                0 <= i < self@.len() ==> {
                    &&& (#[trigger] tree@[i]).start == self@[i].start
                    &&& tree@[i].end == self@[i].end
                    &&& cloned(self@[i].value, tree@[i].value)
                },
            self.wf() ==> tree.wf(),
    {
        let mut segs: Vec<Segment<K, V>> = Vec::new();
        let mut i: usize = 0;
        while i < self.segs.len()
            invariant
                i <= self@.len(),
                segs@.len() == i,
                forall|k: int|
                    0 <= k < i ==> {
                        &&& (#[trigger] segs@[k]).start == self@[k].start
                        &&& segs@[k].end == self@[k].end
                        &&& cloned(self@[k].value, segs@[k].value)
                    },
            decreases self@.len() - i,
        {
            let seg = &self.segs[i];
            segs.push(Segment { start: seg.start, end: seg.end, value: seg.value.clone() });
            i = i + 1;
        }
        let tree = Self { segs };
        proof {
            if self.wf() {
                assert forall|i: int, j: int| 0 <= i < j < tree@.len() implies at_most(
                    #[trigger] tree@[i].end,
                    #[trigger] tree@[j].start,
                ) by {
                    assert(at_most(self@[i].end, self@[j].start));
                }
            }
        }
        tree
    }
}

impl<K, V> Default for RangeTree<K, V> {
    /// A tree that binds no key.
    fn default() -> (tree: Self)
        ensures
            tree@ == Seq::<Segment<K, V>>::empty(),
    {
        Self { segs: Vec::new() }
    }
}

} // verus!
