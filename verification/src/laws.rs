use crate::lemmas::{
    lemma_anchor, lemma_ascending, lemma_clip_above_suffix, lemma_clip_below_prefix,
    lemma_clip_parts, lemma_clip_single, lemma_lookup_at, lemma_removed_untouched,
};
use crate::model::{
    anchor, cleared, clip_above, clip_below, covers, cut_end, inserted, level, lookup, meets,
    overwritten, removed, split_by, straddles, well_formed, Segment,
};
use crate::order::{at_most, below, higher, lemma_below_asymmetric, lemma_below_transitive, lower, ordered};
use crate::tree::RangeTree;
use vstd::pervasive::cloned;
use vstd::prelude::*;

verus! {

/// How the segments of a sequence with `a` up to `b` cleared, or bound anew with `gap`
/// set to 1, stand to those of the sequence `s` it was made from: the first `n` are the
/// first `n` of `s` cut off at `a`, the last `m` are the last `m` of `s` begun no earlier
/// than `b`; the segments of `s` in between lay inside the range.
spec fn laid_out<K: Ord, V: Clone>(
    s: Seq<Segment<K, V>>,
    got: Seq<Segment<K, V>>,
    a: K,
    b: K,
    gap: int,
) -> bool {
    let n = clip_below(s, a).len() as int;
    let m = clip_above(s, b).len() as int;
    let from = s.len() - m;
    &&& n <= s.len()
    &&& m <= s.len()
    &&& got.len() == n + gap + m
    &&& forall|i: int| #![trigger got[i]] 0 <= i < n ==> got[i] == cut_end(s[i], a)
    &&& forall|i: int| #![trigger s[i]] 0 <= i < n ==> below(s[i].start, a)
    &&& forall|i: int| #![trigger s[i]] n <= i < s.len() ==> at_most(a, s[i].start)
    &&& forall|j: int|
        #![trigger got[j]]
        n + gap <= j < got.len() ==> {
            let e = s[j - n - gap + from];
            &&& got[j].start == higher(e.start, b)
            &&& got[j].end == e.end
            &&& if j == n + gap && straddles(e, a, b) {
                cloned(e.value, got[j].value)
            } else {
                got[j].value == e.value
            }
        }
    &&& forall|i: int| #![trigger s[i]] from <= i < s.len() ==> below(b, s[i].end)
    &&& forall|i: int| #![trigger s[i]] 0 <= i < from ==> at_most(s[i].end, b)
}

/// A sequence that is `s` with `a` up to `b` cleared is laid out as `laid_out` says.
proof fn lemma_cleared_laid_out<K: Ord, V: Clone>(
    s: Seq<Segment<K, V>>,
    got: Seq<Segment<K, V>>,
    a: K,
    b: K,
)
    requires
        ordered::<K>(),
        well_formed(s),
        below(a, b),
        cleared(s, got, a, b),
    ensures
        laid_out(s, got, a, b, 0),
{
    lemma_clip_below_prefix(s, a);
    lemma_clip_above_suffix(s, b);
    lemma_split_place(s, a, b);
    let n = clip_below(s, a).len() as int;
    let m = clip_above(s, b).len() as int;
    let from = s.len() - m;
    let want = removed(s, a, b);
    assert forall|i: int| #![trigger got[i]] 0 <= i < n implies got[i] == cut_end(s[i], a) by {
        assert(want[i] == clip_below(s, a)[i]);
    }
    assert forall|j: int| #![trigger got[j]] n <= j < got.len() implies {
        let e = s[j - n + from];
        &&& got[j].start == higher(e.start, b)
        &&& got[j].end == e.end
        &&& if j == n && straddles(e, a, b) {
            cloned(e.value, got[j].value)
        } else {
            got[j].value == e.value
        }
    } by {
        assert(want[j] == clip_above(s, b)[j - (n)]);
    }
    assert forall|i: int| #![trigger s[i]] from <= i < s.len() implies below(b, s[i].end) by {
        let c = clip_above(s, b)[i - from];
    }
    assert forall|i: int| #![trigger s[i]] 0 <= i < n implies below(s[i].start, a) by {
        let c = clip_below(s, a)[i];
    }
}

/// A sequence that is `s` with `a` up to `b` bound anew is laid out as `laid_out` says,
/// with the new segment between the two parts.
proof fn lemma_overwritten_laid_out<K: Ord, V: Clone>(
    s: Seq<Segment<K, V>>,
    got: Seq<Segment<K, V>>,
    a: K,
    b: K,
    value: V,
)
    requires
        ordered::<K>(),
        well_formed(s),
        below(a, b),
        overwritten(s, got, a, b, value),
    ensures
        laid_out(s, got, a, b, 1),
        got[clip_below(s, a).len() as int] == (Segment { start: anchor(s, a), end: b, value }),
        level(anchor(s, a), a),
{
    lemma_clip_below_prefix(s, a);
    lemma_clip_above_suffix(s, b);
    lemma_split_place(s, a, b);
    let n = clip_below(s, a).len() as int;
    let m = clip_above(s, b).len() as int;
    let from = s.len() - m;
    let want = inserted(s, a, b, value);
    assert(want[n] == (Segment { start: anchor(s, a), end: b, value }));
    lemma_anchor(s, n, a);
    assert forall|i: int| #![trigger got[i]] 0 <= i < n implies got[i] == cut_end(s[i], a) by {
        assert(want[i] == clip_below(s, a)[i]);
    }
    assert forall|j: int| #![trigger got[j]] n + 1 <= j < got.len() implies {
        let e = s[j - (n + 1) + from];
        &&& got[j].start == higher(e.start, b)
        &&& got[j].end == e.end
        &&& if j == n + 1 && straddles(e, a, b) {
            cloned(e.value, got[j].value)
        } else {
            got[j].value == e.value
        }
    } by {
        assert(want[j] == clip_above(s, b)[j - (n + 1)]);
    }
    assert forall|i: int| #![trigger s[i]] from <= i < s.len() implies below(b, s[i].end) by {
        let c = clip_above(s, b)[i - from];
    }
    assert forall|i: int| #![trigger s[i]] 0 <= i < n implies below(s[i].start, a) by {
        let c = clip_below(s, a)[i];
    }
}

/// A segment that reaches over both ends of `a` up to `b` is the last that starts below
/// `a` and the first that ends above `b`; without one, those that start below `a` all
/// come before those that end above `b`.
proof fn lemma_split_place<K: Ord, V>(s: Seq<Segment<K, V>>, a: K, b: K)
    requires
        ordered::<K>(),
        well_formed(s),
        below(a, b),
    ensures
        ({
            let n = clip_below(s, a).len() as int;
            let from = s.len() - clip_above(s, b).len();
            if split_by(s, a, b) {
                n >= 1 && from == n - 1 && straddles(s[from], a, b)
            } else {
                n <= from && (from < s.len() ==> !straddles(s[from], a, b))
            }
        }),
{
    lemma_clip_below_prefix(s, a);
    lemma_clip_above_suffix(s, b);
    let n = clip_below(s, a).len() as int;
    let m = clip_above(s, b).len() as int;
    let from = s.len() - m;
    assert forall|i: int| 0 <= i < n implies below(#[trigger] s[i].start, a) by {
        assert(clip_below(s, a)[i] == cut_end(s[i], a));
    }
    assert forall|i: int| from <= i < s.len() implies below(b, #[trigger] s[i].end) by {
        assert(below(b, s[s.len() - m + (i - from)].end)) by {
            let c = clip_above(s, b)[i - from];
        }
    }
    if split_by(s, a, b) {
        let i = choose|i: int| 0 <= i < s.len() && straddles(#[trigger] s[i], a, b);
        assert(i < n);
        assert(i >= from);
        if i < n - 1 {
            lemma_below_transitive(s[i].end, s[i + 1].start, a);
            lemma_below_transitive(s[i].end, a, b);
            lemma_below_asymmetric(s[i].end, b);
        }
        if from < i {
            lemma_ascending(s, from, i);
            lemma_below_transitive(s[from].end, s[i].start, a);
            lemma_below_transitive(s[from].end, a, b);
            lemma_below_asymmetric(s[from].end, b);
        }
    } else {
        if from < n {
            assert(straddles(s[n - 1], a, b));
        }
    }
}

/// How what was bound to a key outside `a` up to `b` (`was`) stands to what is bound to
/// it once the range has been cleared or bound anew (`now`). A key that was unbound
/// stays so. A key that was bound stays bound, to the part of its segment on its side of
/// the range, with the same value; only where the segment reached over both ends of the
/// range, its part from `b` on carries a copy of the value.
pub open spec fn kept<K: Ord, V: Clone>(
    was: Option<Segment<K, V>>,
    now: Option<Segment<K, V>>,
    a: K,
    b: K,
    key: K,
) -> bool {
    match (was, now) {
        (None, None) => true,
        (Some(e), Some(g)) => if below(key, a) {
            g == cut_end(e, a)
        } else {
            &&& g.start == higher(e.start, b)
            &&& g.end == e.end
            &&& if straddles(e, a, b) {
                cloned(e.value, g.value)
            } else {
                g.value == e.value
            }
        },
        _ => false,
    }
}

/// `lookup` for a key outside the range, in a sequence laid out as `laid_out` says.
proof fn lemma_kept<K: Ord, V: Clone>(
    s: Seq<Segment<K, V>>,
    got: Seq<Segment<K, V>>,
    a: K,
    b: K,
    gap: int,
    key: K,
)
    requires
        ordered::<K>(),
        well_formed(s),
        well_formed(got),
        below(a, b),
        0 <= gap <= 1,
        laid_out(s, got, a, b, gap),
        gap == 1 ==> level(got[clip_below(s, a).len() as int].start, a) && got[clip_below(
            s,
            a,
        ).len() as int].end == b,
        below(key, a) || at_most(b, key),
    ensures
        kept(lookup(s, key), lookup(got, key), a, b, key),
{
    let n = clip_below(s, a).len() as int;
    let from = s.len() - clip_above(s, b).len();
    lemma_split_place(s, a, b);
    lemma_below_asymmetric(a, b);
    lemma_below_transitive(key, a, b);
    lemma_below_transitive(a, b, key);
    if lookup(s, key).is_some() {
        let i = choose|i: int| 0 <= i < s.len() && covers(#[trigger] s[i], key);
        let e = s[i];
        if below(key, a) {
            lemma_below_transitive(e.start, key, a);
            assert(i < n);
            assert(got[i] == cut_end(e, a));
            lemma_lookup_at(got, key, i);
        } else {
            lemma_below_transitive(b, key, e.end);
            assert(i >= from);
            let j = i - from + n + gap;
            assert(got[j].end == e.end);
            lemma_lookup_at(got, key, j);
            if straddles(e, a, b) {
                assert(i < n);
            }
        }
    } else {
        assert forall|j: int| 0 <= j < got.len() implies !covers(#[trigger] got[j], key) by {
            if j < n {
                assert(got[j] == cut_end(s[j], a));
                assert(!covers(s[j], key));
                if below(key, a) {
                    lemma_below_transitive(key, a, s[j].end);
                } else {
                    lemma_below_transitive(lower(s[j].end, a), a, key);
                }
            } else if j >= n + gap {
                let e = s[j - n - gap + from];
                assert(got[j].end == e.end);
                assert(!covers(e, key));
                lemma_below_asymmetric(b, b);
                lemma_below_asymmetric(e.start, b);
                if below(key, a) {
                    lemma_below_transitive(key, b, higher(e.start, b));
                } else {
                    lemma_below_transitive(e.start, higher(e.start, b), key);
                }
            } else if below(key, a) {
                lemma_below_transitive(got[j].start, key, a);
            }
        }
    }
}

/// No key of the range is covered by a sequence that is `s` with the range cleared.
proof fn lemma_sides_miss<K: Ord, V: Clone>(
    s: Seq<Segment<K, V>>,
    got: Seq<Segment<K, V>>,
    a: K,
    b: K,
    key: K,
)
    requires
        ordered::<K>(),
        well_formed(s),
        below(a, b),
        laid_out(s, got, a, b, 0),
        at_most(a, key),
        below(key, b),
    ensures
        forall|j: int| 0 <= j < got.len() ==> !covers(#[trigger] got[j], key),
{
    let n = clip_below(s, a).len() as int;
    let from = s.len() - clip_above(s, b).len();
    assert forall|j: int| 0 <= j < got.len() implies !covers(#[trigger] got[j], key) by {
        if j < n {
            assert(got[j] == cut_end(s[j], a));
            lemma_below_asymmetric(a, a);
            lemma_below_transitive(lower(s[j].end, a), a, key);
        } else {
            let e = s[j - n + from];
            assert(got[j].start == higher(e.start, b));
            lemma_below_asymmetric(b, b);
            lemma_below_transitive(key, b, higher(e.start, b));
        }
    }
}

/// A sequence laid out as `laid_out` says is well-formed.
proof fn lemma_laid_out_well_formed<K: Ord, V: Clone>(
    s: Seq<Segment<K, V>>,
    got: Seq<Segment<K, V>>,
    a: K,
    b: K,
    gap: int,
)
    requires
        ordered::<K>(),
        well_formed(s),
        below(a, b),
        0 <= gap <= 1,
        laid_out(s, got, a, b, gap),
        gap == 1 ==> level(got[clip_below(s, a).len() as int].start, a) && got[clip_below(
            s,
            a,
        ).len() as int].end == b,
    ensures
        well_formed(got),
{
    let n = clip_below(s, a).len() as int;
    let from = s.len() - clip_above(s, b).len();
    lemma_below_asymmetric(a, b);
    lemma_below_asymmetric(a, a);
    lemma_below_asymmetric(b, b);
    assert forall|x: int| 0 <= x < got.len() implies below(#[trigger] got[x].start, got[x].end) by {
        if x < n {
            assert(got[x] == cut_end(s[x], a));
            assert(below(s[x].start, a));
        } else if x >= n + gap {
            let e = s[x - n - gap + from];
            assert(got[x].end == e.end);
            assert(below(b, e.end));
        } else {
            lemma_below_transitive(got[x].start, a, b);
        }
    }
    assert forall|x: int, y: int| 0 <= x < y < got.len() implies at_most(
        #[trigger] got[x].end,
        #[trigger] got[y].start,
    ) by {
        if x < n {
            let e = s[x];
            assert(got[x] == cut_end(e, a));
            lemma_below_asymmetric(a, e.end);
            lemma_below_asymmetric(e.end, e.end);
            if y < n {
                assert(got[y] == cut_end(s[y], a));
                lemma_below_transitive(lower(e.end, a), e.end, s[y].start);
            } else if y >= n + gap {
                let f = s[y - n - gap + from];
                assert(got[y].start == higher(f.start, b));
                lemma_below_transitive(lower(e.end, a), a, b);
                lemma_below_transitive(lower(e.end, a), b, higher(f.start, b));
            } else {
                lemma_below_transitive(lower(e.end, a), a, got[y].start);
            }
        } else if x >= n + gap {
            let e = s[x - n - gap + from];
            let f = s[y - n - gap + from];
            assert(got[x].end == e.end);
            assert(got[y].start == higher(f.start, b));
            assert(at_most(e.end, f.start));
            lemma_below_asymmetric(f.start, b);
            lemma_below_asymmetric(f.start, f.start);
            lemma_below_transitive(e.end, f.start, higher(f.start, b));
        } else {
            let f = s[y - n - gap + from];
            assert(got[y].start == higher(f.start, b));
        }
    }
}

/// What `insert` leaves of a well-formed tree is well-formed.
pub proof fn law_insert_keeps_order<K: Ord + Copy, V: Clone>(
    before: RangeTree<K, V>,
    after: RangeTree<K, V>,
    a: K,
    b: K,
    value: V,
)
    requires
        ordered::<K>(),
        before.wf(),
        below(a, b),
        overwritten(before@, after@, a, b, value),
    ensures
        after.wf(),
{
    lemma_overwritten_laid_out(before@, after@, a, b, value);
    lemma_laid_out_well_formed(before@, after@, a, b, 1);
}

/// What `remove` leaves of a well-formed tree is well-formed.
pub proof fn law_remove_keeps_order<K: Ord + Copy, V: Clone>(
    before: RangeTree<K, V>,
    after: RangeTree<K, V>,
    a: K,
    b: K,
)
    requires
        ordered::<K>(),
        before.wf(),
        below(a, b),
        cleared(before@, after@, a, b),
    ensures
        after.wf(),
{
    lemma_cleared_laid_out(before@, after@, a, b);
    lemma_laid_out_well_formed(before@, after@, a, b, 0);
}

/// After `insert` every key of the range is bound to the new value, by the one segment
/// that spans the range. Its start is level with that of the range: see `anchor`.
pub proof fn law_insert_overwrites<K: Ord + Copy, V: Clone>(
    before: RangeTree<K, V>,
    after: RangeTree<K, V>,
    a: K,
    b: K,
    value: V,
    key: K,
)
    requires
        ordered::<K>(),
        before.wf(),
        below(a, b),
        overwritten(before@, after@, a, b, value),
        at_most(a, key),
        below(key, b),
    ensures
        lookup(after@, key) == Some(Segment { start: anchor(before@, a), end: b, value }),
{
    law_insert_keeps_order(before, after, a, b, value);
    lemma_overwritten_laid_out(before@, after@, a, b, value);
    let n = clip_below(before@, a).len() as int;
    lemma_below_transitive(after@[n].start, a, key);
    assert(covers(after@[n], key));
    lemma_lookup_at(after@, key, n);
}

/// After `insert` a key outside the range is bound as it was before: see `kept`.
pub proof fn law_insert_keeps_outside<K: Ord + Copy, V: Clone>(
    before: RangeTree<K, V>,
    after: RangeTree<K, V>,
    a: K,
    b: K,
    value: V,
    key: K,
)
    requires
        ordered::<K>(),
        before.wf(),
        below(a, b),
        overwritten(before@, after@, a, b, value),
        below(key, a) || at_most(b, key),
    ensures
        kept(lookup(before@, key), lookup(after@, key), a, b, key),
{
    law_insert_keeps_order(before, after, a, b, value);
    lemma_overwritten_laid_out(before@, after@, a, b, value);
    lemma_kept(before@, after@, a, b, 1, key);
}

/// After `remove` no key of the range is bound.
pub proof fn law_remove_clears<K: Ord + Copy, V: Clone>(
    before: RangeTree<K, V>,
    after: RangeTree<K, V>,
    a: K,
    b: K,
    key: K,
)
    requires
        ordered::<K>(),
        before.wf(),
        below(a, b),
        cleared(before@, after@, a, b),
        at_most(a, key),
        below(key, b),
    ensures
        lookup(after@, key).is_none(),
{
    law_remove_keeps_order(before, after, a, b);
    lemma_cleared_laid_out(before@, after@, a, b);
    lemma_sides_miss(before@, after@, a, b, key);
}

/// After `remove` a key outside the range is bound as it was before: see `kept`.
pub proof fn law_remove_keeps_outside<K: Ord + Copy, V: Clone>(
    before: RangeTree<K, V>,
    after: RangeTree<K, V>,
    a: K,
    b: K,
    key: K,
)
    requires
        ordered::<K>(),
        before.wf(),
        below(a, b),
        cleared(before@, after@, a, b),
        below(key, a) || at_most(b, key),
    ensures
        kept(lookup(before@, key), lookup(after@, key), a, b, key),
{
    law_remove_keeps_order(before, after, a, b);
    lemma_cleared_laid_out(before@, after@, a, b);
    lemma_kept(before@, after@, a, b, 0, key);
}

/// `insert` with the same range and value a second time changes nothing: the tree after
/// the second call is the tree after the first.
pub proof fn law_insert_idempotent<K: Ord + Copy, V: Clone>(
    first: RangeTree<K, V>,
    second: RangeTree<K, V>,
    third: RangeTree<K, V>,
    a: K,
    b: K,
    value: V,
)
    requires
        ordered::<K>(),
        first.wf(),
        if below(a, b) {
            overwritten(first@, second@, a, b, value)
        } else {
            second@ == first@
        },
        if below(a, b) {
            overwritten(second@, third@, a, b, value)
        } else {
            third@ == second@
        },
    ensures
        third@ == second@,
{
    if below(a, b) {
        law_insert_keeps_order(first, second, a, b, value);
        let s = second@;
        let fresh = Segment { start: anchor(first@, a), end: b, value };
        lemma_overwritten_laid_out(first@, s, a, b, value);
        let n = clip_below(first@, a).len() as int;
        assert forall|k: int| 0 <= k < n implies below(#[trigger] s[k].start, a) by {
            assert(s[k] == cut_end(first@[k], a));
            assert(below(first@[k].start, a));
        }
        assert forall|k: int| n <= k < s.len() implies at_most(a, #[trigger] s[k].start) by {
            if k > n {
                let e = first@[k - n - 1 + (first@.len() - clip_above(first@, b).len())];
                assert(s[k].start == higher(e.start, b));
                lemma_below_asymmetric(b, b);
                lemma_below_transitive(a, b, higher(e.start, b));
            }
        }
        lemma_anchor(s, n, a);
        assert(anchor(s, a) == fresh.start);
        lemma_below_asymmetric(a, a);
        lemma_below_asymmetric(b, b);
        lemma_below_asymmetric(a, b);
        assert forall|k: int| 0 <= k < n implies at_most(#[trigger] s[k].end, a) by {
            assert(s[k] == cut_end(first@[k], a));
        }
        assert forall|k: int| n + 1 <= k < s.len() implies at_most(b, #[trigger] s[k].start) by {
            let e = first@[k - n - 1 + (first@.len() - clip_above(first@, b).len())];
            assert(s[k].start == higher(e.start, b));
        }
        lemma_clip_parts(s, n, n + 1, a, b);
        assert(s.subrange(n, n + 1) =~= seq![fresh]);
        lemma_clip_single(fresh, a);
        lemma_clip_single(fresh, b);
        assert(inserted(s, a, b, value) =~= s);
        assert forall|k: int| 0 <= k < s.len() implies !straddles(#[trigger] s[k], a, b) by {
            if k < n {
                lemma_below_transitive(s[k].end, a, b);
            } else if k > n {
                lemma_below_transitive(a, b, s[k].start);
            }
        }
    }
}

/// `remove` of a range that no segment shares a key with changes nothing.
pub proof fn law_remove_in_gap<K: Ord + Copy, V: Clone>(
    before: RangeTree<K, V>,
    after: RangeTree<K, V>,
    a: K,
    b: K,
)
    requires
        ordered::<K>(),
        before.wf(),
        below(a, b),
        cleared(before@, after@, a, b),
        forall|i: int| 0 <= i < before@.len() ==> !meets(#[trigger] before@[i], a, b),
    ensures
        after@ == before@,
{
    lemma_removed_untouched(before@, a, b);
    assert forall|i: int| 0 <= i < before@.len() implies !straddles(
        #[trigger] before@[i],
        a,
        b,
    ) by {
        assert(!meets(before@[i], a, b));
        let e = before@[i];
        if below(e.start, a) {
            lemma_below_transitive(e.start, a, b);
        }
        if below(b, e.end) {
            lemma_below_transitive(a, b, e.end);
        }
    }
}

} // verus!
