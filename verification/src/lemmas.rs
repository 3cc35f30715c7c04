use crate::model::{
    anchor, cleared, clip_above, clip_below, covers, cut_end, cut_start, inside, level, lookup,
    meets, removed, same_but_copy_at, split_by, straddles, well_formed, Segment,
};
use crate::order::{
    at_most, below, higher, lemma_below_asymmetric, lemma_below_transitive, lower, ordered,
};
use vstd::pervasive::cloned;
use vstd::prelude::*;

verus! {

/// Clipping below takes the parts of a concatenation one by one.
pub proof fn lemma_clip_below_concat<K: Ord, V>(x: Seq<Segment<K, V>>, y: Seq<Segment<K, V>>, a: K)
    ensures
        clip_below(x + y, a) == clip_below(x, a) + clip_below(y, a),
    decreases y.len(),
{
    if y.len() == 0 {
        assert(x + y =~= x);
        assert(clip_below(x, a) + clip_below(y, a) =~= clip_below(x, a));
    } else {
        assert((x + y).drop_last() =~= x + y.drop_last());
        assert((x + y).last() == y.last());
        lemma_clip_below_concat(x, y.drop_last(), a);
        if below(y.last().start, a) {
            assert(clip_below(x + y, a) =~= clip_below(x, a) + clip_below(y, a));
        }
    }
}

/// Clipping above takes the parts of a concatenation one by one.
pub proof fn lemma_clip_above_concat<K: Ord, V>(x: Seq<Segment<K, V>>, y: Seq<Segment<K, V>>, b: K)
    ensures
        clip_above(x + y, b) == clip_above(x, b) + clip_above(y, b),
    decreases y.len(),
{
    if y.len() == 0 {
        assert(x + y =~= x);
        assert(clip_above(x, b) + clip_above(y, b) =~= clip_above(x, b));
    } else {
        assert((x + y).drop_last() =~= x + y.drop_last());
        assert((x + y).last() == y.last());
        lemma_clip_above_concat(x, y.drop_last(), b);
        if below(b, y.last().end) {
            assert(clip_above(x + y, b) =~= clip_above(x, b) + clip_above(y, b));
        }
    }
}

/// What clipping makes of a single segment.
pub proof fn lemma_clip_single<K: Ord, V>(e: Segment<K, V>, k: K)
    ensures
        clip_below(seq![e], k) == if below(e.start, k) {
            seq![cut_end(e, k)]
        } else {
            Seq::empty()
        },
        clip_above(seq![e], k) == if below(k, e.end) {
            seq![cut_start(e, k)]
        } else {
            Seq::empty()
        },
{
    let s = seq![e];
    assert(s.drop_last() =~= Seq::<Segment<K, V>>::empty());
    assert(s.last() == e);
    assert(clip_below(s.drop_last(), k) =~= Seq::<Segment<K, V>>::empty());
    assert(clip_above(s.drop_last(), k) =~= Seq::<Segment<K, V>>::empty());
    if below(e.start, k) {
        assert(clip_below(s, k) =~= seq![cut_end(e, k)]);
    }
    if below(k, e.end) {
        assert(clip_above(s, k) =~= seq![cut_start(e, k)]);
    }
}

/// Segments that end at or below `a` are kept whole below `a`, and none of them reaches
/// above a `b` that is not below `a`.
pub proof fn lemma_clip_all_below<K: Ord, V>(x: Seq<Segment<K, V>>, a: K, b: K)
    requires
        ordered::<K>(),
        at_most(a, b),
        forall|i: int| 0 <= i < x.len() ==> below(#[trigger] x[i].start, x[i].end),
        forall|i: int| 0 <= i < x.len() ==> at_most(#[trigger] x[i].end, a),
    ensures
        clip_below(x, a) == x,
        clip_above(x, b) == Seq::<Segment<K, V>>::empty(),
    decreases x.len(),
{
    if x.len() > 0 {
        let e = x.last();
        assert(forall|i: int| 0 <= i < x.drop_last().len() ==> x.drop_last()[i] == x[i]);
        lemma_clip_all_below(x.drop_last(), a, b);
        lemma_below_transitive(e.start, e.end, a);
        lemma_below_transitive(e.end, a, b);
        assert(cut_end(e, a) == e);
        assert(clip_below(x, a) =~= x);
    } else {
        assert(clip_below(x, a) =~= x);
    }
}

/// Segments that start at or above `b` are kept whole from `b` on, and none of them starts
/// below an `a` that is not above `b`.
pub proof fn lemma_clip_all_above<K: Ord, V>(x: Seq<Segment<K, V>>, a: K, b: K)
    requires
        ordered::<K>(),
        at_most(a, b),
        forall|i: int| 0 <= i < x.len() ==> below(#[trigger] x[i].start, x[i].end),
        forall|i: int| 0 <= i < x.len() ==> at_most(b, #[trigger] x[i].start),
    ensures
        clip_above(x, b) == x,
        clip_below(x, a) == Seq::<Segment<K, V>>::empty(),
    decreases x.len(),
{
    if x.len() > 0 {
        let e = x.last();
        assert(forall|i: int| 0 <= i < x.drop_last().len() ==> x.drop_last()[i] == x[i]);
        lemma_clip_all_above(x.drop_last(), a, b);
        lemma_below_transitive(b, e.start, e.end);
        lemma_below_transitive(a, b, e.start);
        assert(cut_start(e, b) == e);
        assert(clip_above(x, b) =~= x);
    } else {
        assert(clip_above(x, b) =~= x);
    }
}

/// Segments that lie wholly inside `a` up to `b` leave nothing on either side.
pub proof fn lemma_clip_inside<K: Ord, V>(x: Seq<Segment<K, V>>, a: K, b: K)
    requires
        forall|i: int| 0 <= i < x.len() ==> inside(#[trigger] x[i], a, b),
    ensures
        clip_below(x, a) == Seq::<Segment<K, V>>::empty(),
        clip_above(x, b) == Seq::<Segment<K, V>>::empty(),
    decreases x.len(),
{
    if x.len() > 0 {
        assert(forall|i: int| 0 <= i < x.drop_last().len() ==> x.drop_last()[i] == x[i]);
        assert(inside(x[x.len() - 1], a, b));
        lemma_clip_inside(x.drop_last(), a, b);
    }
}

/// In a well-formed sequence the starts ascend strictly, and so do the ends.
pub proof fn lemma_ascending<K: Ord, V>(s: Seq<Segment<K, V>>, i: int, j: int)
    requires
        ordered::<K>(),
        well_formed(s),
        0 <= i < j < s.len(),
    ensures
        below(s[i].start, s[j].start),
        below(s[i].end, s[j].end),
        below(s[i].start, s[j].end),
{
    lemma_below_transitive(s[i].start, s[i].end, s[j].start);
    lemma_below_transitive(s[i].end, s[j].start, s[j].end);
    lemma_below_transitive(s[i].start, s[j].start, s[j].end);
}

/// Replacing the stretch from `i` up to `j` by segments that are well-formed among
/// themselves and stay between the neighbours keeps the sequence well-formed.
pub proof fn lemma_well_formed_splice<K: Ord, V>(
    s: Seq<Segment<K, V>>,
    i: int,
    j: int,
    mid: Seq<Segment<K, V>>,
)
    requires
        ordered::<K>(),
        well_formed(s),
        0 <= i <= j <= s.len(),
        well_formed(mid),
        i > 0 ==> forall|m: int| 0 <= m < mid.len() ==> at_most(s[i - 1].end, #[trigger] mid[m].start),
        j < s.len() ==> forall|m: int| 0 <= m < mid.len() ==> at_most(#[trigger] mid[m].end, s[j].start),
    ensures
        well_formed(s.take(i) + mid + s.skip(j)),
{
    let r = s.take(i) + mid + s.skip(j);
    let n = mid.len() as int;
    assert forall|x: int| 0 <= x < r.len() implies below(#[trigger] r[x].start, r[x].end) by {
        if x < i {
            assert(r[x] == s[x]);
        } else if x < i + n {
            assert(r[x] == mid[x - i]);
        } else {
            assert(r[x] == s[x - i - n + j]);
        }
    }
    assert forall|x: int, y: int| 0 <= x < y < r.len() implies at_most(
        #[trigger] r[x].end,
        #[trigger] r[y].start,
    ) by {
        if y < i {
            assert(r[x] == s[x] && r[y] == s[y]);
        } else if x < i {
            assert(r[x] == s[x]);
            if y < i + n {
                assert(r[y] == mid[y - i]);
                if x < i - 1 {
                    lemma_ascending(s, x, i - 1);
                }
                lemma_below_transitive(s[x].end, s[i - 1].end, mid[y - i].start);
            } else {
                assert(r[y] == s[y - i - n + j]);
            }
        } else if x < i + n {
            assert(r[x] == mid[x - i]);
            if y < i + n {
                assert(r[y] == mid[y - i]);
            } else {
                let t = y - i - n + j;
                assert(r[y] == s[t]);
                if j < t {
                    lemma_ascending(s, j, t);
                }
                lemma_below_transitive(mid[x - i].end, s[j].start, s[t].start);
            }
        } else {
            assert(r[x] == s[x - i - n + j] && r[y] == s[y - i - n + j]);
        }
    }
}

/// A well-formed sequence of which no segment shares a key with `a` up to `b` is what
/// clearing that range leaves of it.
pub proof fn lemma_removed_untouched<K: Ord, V>(s: Seq<Segment<K, V>>, a: K, b: K)
    requires
        ordered::<K>(),
        well_formed(s),
        below(a, b),
        forall|i: int| 0 <= i < s.len() ==> !meets(#[trigger] s[i], a, b),
    ensures
        removed(s, a, b) == s,
    decreases s.len(),
{
    if s.len() == 0 {
        assert(removed(s, a, b) =~= s);
    } else {
        let e = s.last();
        let t = s.drop_last();
        assert(forall|i: int| 0 <= i < t.len() ==> t[i] == s[i]);
        assert(!meets(s[s.len() - 1], a, b));
        lemma_below_asymmetric(a, b);
        if below(e.start, b) {
            // `e` ends at or below `a`, and so does all that comes before it
            assert(at_most(e.end, a));
            assert forall|i: int| 0 <= i < t.len() implies at_most(#[trigger] t[i].end, a) by {
                lemma_ascending(s, i, s.len() - 1);
                lemma_below_transitive(t[i].end, e.end, a);
            }
            assert forall|i: int| 0 <= i < s.len() implies at_most(#[trigger] s[i].end, a) by {
                if i < t.len() {
                    assert(s[i] == t[i]);
                }
            }
            lemma_clip_all_below(s, a, b);
            assert(removed(s, a, b) =~= s);
        } else {
            lemma_removed_untouched(t, a, b);
            lemma_below_transitive(a, b, e.start);
            lemma_below_transitive(b, e.start, e.end);
            assert(cut_start(e, b) == e);
            assert(clip_below(s, a) == clip_below(t, a));
            assert(clip_above(s, b) == clip_above(t, b).push(e));
            assert(removed(s, a, b) =~= removed(t, a, b).push(e));
            assert(t.push(e) =~= s);
        }
    }
}

/// Where the first `p` segments end at or below `a` and those from `q` on start at or
/// above `b`, clipping leaves the former and the latter whole and works on the stretch
/// between them alone.
pub proof fn lemma_clip_parts<K: Ord, V>(s: Seq<Segment<K, V>>, p: int, q: int, a: K, b: K)
    requires
        ordered::<K>(),
        well_formed(s),
        below(a, b),
        0 <= p <= q <= s.len(),
        forall|k: int| 0 <= k < p ==> at_most(#[trigger] s[k].end, a),
        forall|k: int| q <= k < s.len() ==> at_most(b, #[trigger] s[k].start),
    ensures
        clip_below(s, a) == s.take(p) + clip_below(s.subrange(p, q), a),
        clip_above(s, b) == clip_above(s.subrange(p, q), b) + s.skip(q),
{
    let pre = s.take(p);
    let mid = s.subrange(p, q);
    let post = s.skip(q);
    assert(s =~= pre + mid + post);
    lemma_below_asymmetric(a, b);
    lemma_clip_all_below(pre, a, b);
    lemma_clip_all_above(post, a, b);
    lemma_clip_below_concat(pre, mid, a);
    lemma_clip_below_concat(pre + mid, post, a);
    lemma_clip_above_concat(pre, mid, b);
    lemma_clip_above_concat(pre + mid, post, b);
    assert(clip_below(s, a) =~= pre + clip_below(mid, a));
    assert(clip_above(s, b) =~= clip_above(mid, b) + post);
}

/// What clearing `a` up to `b` leaves of a sequence in which at most two segments, those
/// from `p` up to `q`, share a key with the range, and none lies wholly inside it. The
/// first of the two is cut off at `a` where it starts below `a`, the last begins at `b`
/// where it ends above `b`; one segment may be both.
pub proof fn lemma_removed_shape<K: Ord, V>(s: Seq<Segment<K, V>>, p: int, q: int, a: K, b: K)
    requires
        ordered::<K>(),
        well_formed(s),
        below(a, b),
        0 <= p <= q <= s.len(),
        q - p <= 2,
        forall|k: int| 0 <= k < p ==> at_most(#[trigger] s[k].end, a),
        forall|k: int| q <= k < s.len() ==> at_most(b, #[trigger] s[k].start),
        forall|k: int| p <= k < q ==> meets(#[trigger] s[k], a, b) && !inside(s[k], a, b),
    ensures
        clip_below(s, a) == s.take(p) + (if q > p && below(s[p].start, a) {
            seq![Segment { start: s[p].start, end: a, value: s[p].value }]
        } else {
            Seq::empty()
        }),
        clip_above(s, b) == (if q > p && below(b, s[q - 1].end) {
            seq![Segment { start: b, end: s[q - 1].end, value: s[q - 1].value }]
        } else {
            Seq::empty()
        }) + s.skip(q),
        split_by(s, a, b) <==> q == p + 1 && straddles(s[p], a, b),
        q == p + 2 ==> below(s[p].start, a) && at_most(s[p].end, b) && at_most(a, s[p + 1].start)
            && below(b, s[p + 1].end),
{
    let mid = s.subrange(p, q);
    lemma_clip_parts(s, p, q, a, b);
    lemma_below_asymmetric(a, b);
    if q == p {
        assert(mid =~= Seq::<Segment<K, V>>::empty());
        assert(clip_below(mid, a) =~= Seq::<Segment<K, V>>::empty());
        assert(clip_above(mid, b) =~= Seq::<Segment<K, V>>::empty());
    } else if q == p + 1 {
        let e = s[p];
        assert(meets(s[p], a, b));
        assert(mid =~= seq![e]);
        lemma_clip_single(e, a);
        lemma_clip_single(e, b);
    } else {
        let e0 = s[p];
        let e1 = s[p + 1];
        assert(meets(s[p], a, b) && !inside(s[p], a, b));
        assert(meets(s[p + 1], a, b) && !inside(s[p + 1], a, b));
        assert(at_most(e0.end, e1.start));
        lemma_below_transitive(e0.end, e1.start, b);
        lemma_below_transitive(a, e0.end, e1.start);
        lemma_below_asymmetric(e0.end, b);
        lemma_below_asymmetric(a, e1.start);
        assert(mid =~= seq![e0] + seq![e1]);
        lemma_clip_below_concat(seq![e0], seq![e1], a);
        lemma_clip_above_concat(seq![e0], seq![e1], b);
        lemma_clip_single(e0, a);
        lemma_clip_single(e0, b);
        lemma_clip_single(e1, a);
        lemma_clip_single(e1, b);
        assert(clip_below(mid, a) =~= seq![cut_end(e0, a)]);
        assert(clip_above(mid, b) =~= seq![cut_start(e1, b)]);
    }
    assert forall|i: int| 0 <= i < s.len() && straddles(#[trigger] s[i], a, b) implies q == p + 1
        && i == p by {
        if i < p {
            lemma_below_transitive(s[i].end, a, b);
            lemma_below_asymmetric(s[i].end, b);
        } else if i >= q {
            lemma_below_transitive(a, b, s[i].start);
            lemma_below_asymmetric(a, s[i].start);
        } else {
            assert(meets(s[i], a, b));
        }
    }
    if q == p + 1 && straddles(s[p], a, b) {
        assert(split_by(s, a, b));
    }
}

/// Where the segment before `p` ends at or below `a`, so do all before it.
pub proof fn lemma_ends_below<K: Ord, V>(s: Seq<Segment<K, V>>, p: int, a: K)
    requires
        ordered::<K>(),
        well_formed(s),
        0 <= p <= s.len(),
        p > 0 ==> at_most(s[p - 1].end, a),
    ensures
        forall|k: int| 0 <= k < p ==> at_most(#[trigger] s[k].end, a),
{
    assert forall|k: int| 0 <= k < p implies at_most(#[trigger] s[k].end, a) by {
        if k < p - 1 {
            lemma_ascending(s, k, p - 1);
            lemma_below_transitive(s[k].end, s[p - 1].end, a);
        }
    }
}

/// A sequence as in `lemma_removed_shape`, with the stretch from `p` up to `q` replaced
/// by `mid`, is that sequence with `a` up to `b` cleared, where `mid` holds the first
/// segment of the stretch cut off at `a`, if it starts below `a`, and then the last begun
/// at `b`, if it ends above `b`, the latter with its value or, where one segment is cut
/// in two, with a copy of it.
pub proof fn lemma_trimmed<K: Ord, V: Clone>(
    s: Seq<Segment<K, V>>,
    got: Seq<Segment<K, V>>,
    mid: Seq<Segment<K, V>>,
    p: int,
    q: int,
    a: K,
    b: K,
)
    requires
        ordered::<K>(),
        well_formed(s),
        below(a, b),
        0 <= p <= q <= s.len(),
        q - p <= 2,
        forall|k: int| 0 <= k < p ==> at_most(#[trigger] s[k].end, a),
        forall|k: int| q <= k < s.len() ==> at_most(b, #[trigger] s[k].start),
        forall|k: int| p <= k < q ==> meets(#[trigger] s[k], a, b) && !inside(s[k], a, b),
        got == s.take(p) + mid + s.skip(q),
        mid.len() == (if q > p && below(s[p].start, a) {
            1int
        } else {
            0int
        }) + (if q > p && below(b, s[q - 1].end) {
            1int
        } else {
            0int
        }),
        q > p && below(s[p].start, a) ==> mid[0] == (Segment {
            start: s[p].start,
            end: a,
            value: s[p].value,
        }),
        q > p && below(b, s[q - 1].end) ==> {
            &&& mid.last().start == b
            &&& mid.last().end == s[q - 1].end
            &&& if q == p + 1 && straddles(s[p], a, b) {
                cloned(s[p].value, mid.last().value)
            } else {
                mid.last().value == s[q - 1].value
            }
        },
    ensures
        well_formed(got),
        cleared(s, got, a, b),
        clip_below(s, a).len() == p + (if q > p && below(s[p].start, a) {
            1int
        } else {
            0int
        }),
{
    lemma_removed_shape(s, p, q, a, b);
    lemma_below_asymmetric(a, b);
    assert(well_formed(mid)) by {
        if mid.len() == 2 {
            assert(mid[1] == mid.last());
        }
        if mid.len() == 1 {
            assert(mid[0] == mid.last());
        }
    }
    assert(p > 0 ==> forall|m: int|
        0 <= m < mid.len() ==> at_most(s[p - 1].end, #[trigger] mid[m].start)) by {
        if p > 0 {
            lemma_below_transitive(s[p - 1].end, a, b);
            if mid.len() > 0 {
                assert(mid[mid.len() - 1] == mid.last());
            }
        }
    }
    assert(q < s.len() ==> forall|m: int|
        0 <= m < mid.len() ==> at_most(#[trigger] mid[m].end, s[q].start)) by {
        if q < s.len() {
            lemma_below_transitive(a, b, s[q].start);
            if mid.len() > 0 {
                assert(mid[mid.len() - 1] == mid.last());
            }
        }
    }
    lemma_well_formed_splice(s, p, q, mid);
    let want = removed(s, a, b);
    if split_by(s, a, b) {
        assert(mid.len() == 2);
        assert(mid[1] == mid.last());
        assert(got.len() == want.len());
        assert(same_but_copy_at(got, want, p + 1));
    } else {
        if mid.len() > 0 {
            assert(mid[mid.len() - 1] == mid.last());
        }
        assert(got =~= want);
    }
}

/// Taking out a stretch of segments that lie wholly inside `a` up to `b` changes nothing
/// of what the sequence holds on either side of the range.
pub proof fn lemma_discarded<K: Ord, V>(s: Seq<Segment<K, V>>, x: int, y: int, a: K, b: K)
    requires
        ordered::<K>(),
        well_formed(s),
        0 <= x <= y <= s.len(),
        forall|k: int| x <= k < y ==> inside(#[trigger] s[k], a, b),
    ensures
        well_formed(s.take(x) + s.skip(y)),
        clip_below(s.take(x) + s.skip(y), a) == clip_below(s, a),
        clip_above(s.take(x) + s.skip(y), b) == clip_above(s, b),
        split_by(s.take(x) + s.skip(y), a, b) == split_by(s, a, b),
{
    let pre = s.take(x);
    let mid = s.subrange(x, y);
    let post = s.skip(y);
    let r = pre + post;
    let none = Seq::<Segment<K, V>>::empty();
    assert(pre + none + post =~= r);
    lemma_well_formed_splice(s, x, y, none);
    assert(s =~= pre + mid + post);
    lemma_clip_inside(mid, a, b);
    lemma_clip_below_concat(pre, mid, a);
    lemma_clip_below_concat(pre + mid, post, a);
    lemma_clip_below_concat(pre, post, a);
    lemma_clip_above_concat(pre, mid, b);
    lemma_clip_above_concat(pre + mid, post, b);
    lemma_clip_above_concat(pre, post, b);
    assert(clip_below(pre, a) + none =~= clip_below(pre, a));
    assert(clip_above(pre, b) + none =~= clip_above(pre, b));
    if split_by(s, a, b) {
        let i = choose|i: int| 0 <= i < s.len() && straddles(#[trigger] s[i], a, b);
        if i < x {
            assert(r[i] == s[i]);
        } else {
            assert(i >= y);
            assert(r[i - y + x] == s[i]);
        }
        assert(split_by(r, a, b));
    }
    if split_by(r, a, b) {
        let i = choose|i: int| 0 <= i < r.len() && straddles(#[trigger] r[i], a, b);
        if i < x {
            assert(r[i] == s[i]);
        } else {
            assert(r[i] == s[i - x + y]);
        }
        assert(split_by(s, a, b));
    }
}

/// What a sequence holds below `a` starts below `a` and ends at or below it.
pub proof fn lemma_clip_below_bound<K: Ord, V>(s: Seq<Segment<K, V>>, a: K)
    requires
        ordered::<K>(),
    ensures
        forall|i: int|
            #![trigger clip_below(s, a)[i]]
            0 <= i < clip_below(s, a).len() ==> below(clip_below(s, a)[i].start, a) && at_most(
                clip_below(s, a)[i].end,
                a,
            ),
    decreases s.len(),
{
    if s.len() > 0 {
        let t = clip_below(s.drop_last(), a);
        lemma_clip_below_bound(s.drop_last(), a);
        lemma_below_asymmetric(a, a);
        assert forall|i: int|
            #![trigger clip_below(s, a)[i]]
            0 <= i < clip_below(s, a).len() implies below(clip_below(s, a)[i].start, a)
            && at_most(clip_below(s, a)[i].end, a) by {
            if below(s.last().start, a) {
                assert(clip_below(s, a) == t.push(cut_end(s.last(), a)));
                if i < t.len() {
                    assert(clip_below(s, a)[i] == t[i]);
                    assert(below(t[i].start, a) && at_most(t[i].end, a));
                } else {
                    assert(clip_below(s, a)[i] == cut_end(s.last(), a));
                    assert(at_most(lower(s.last().end, a), a));
                }
            } else {
                assert(clip_below(s, a) == t);
                assert(clip_below(s, a)[i] == t[i]);
                assert(below(t[i].start, a) && at_most(t[i].end, a));
            }
        }
    }
}

/// What a sequence holds from `b` on starts at or above `b` and ends above it.
pub proof fn lemma_clip_above_bound<K: Ord, V>(s: Seq<Segment<K, V>>, b: K)
    requires
        ordered::<K>(),
    ensures
        forall|i: int|
            #![trigger clip_above(s, b)[i]]
            0 <= i < clip_above(s, b).len() ==> at_most(b, clip_above(s, b)[i].start) && below(
                b,
                clip_above(s, b)[i].end,
            ),
    decreases s.len(),
{
    if s.len() > 0 {
        let t = clip_above(s.drop_last(), b);
        lemma_clip_above_bound(s.drop_last(), b);
        lemma_below_asymmetric(b, b);
        assert forall|i: int|
            #![trigger clip_above(s, b)[i]]
            0 <= i < clip_above(s, b).len() implies at_most(b, clip_above(s, b)[i].start)
            && below(b, clip_above(s, b)[i].end) by {
            if below(b, s.last().end) {
                assert(clip_above(s, b) == t.push(cut_start(s.last(), b)));
                if i < t.len() {
                    assert(clip_above(s, b)[i] == t[i]);
                    assert(at_most(b, t[i].start) && below(b, t[i].end));
                } else {
                    assert(clip_above(s, b)[i] == cut_start(s.last(), b));
                    assert(at_most(b, higher(s.last().start, b)));
                }
            } else {
                assert(clip_above(s, b) == t);
                assert(clip_above(s, b)[i] == t[i]);
                assert(at_most(b, t[i].start) && below(b, t[i].end));
            }
        }
    }
}

/// The segment `e` begun at `b` instead.
pub open spec fn pulled_up<K, V>(e: Segment<K, V>, b: K) -> Segment<K, V> {
    Segment { start: b, end: e.end, value: e.value }
}

/// The segment `e` ended at `a` instead.
pub open spec fn cut_back<K, V>(e: Segment<K, V>, a: K) -> Segment<K, V> {
    Segment { start: e.start, end: a, value: e.value }
}

/// The steps by which a sequence without a segment wholly inside `a` up to `b` is cut
/// back, told of a sequence in which `q` segments start below `b`: the last of them is
/// pulled up to `b` if it starts at or above `a` (`pulled`); the one before what then
/// remains below, if it ends above `a`, is cut back to `a` (`cut`), and where it ended
/// above `b` too, a segment from `b` to its end follows it, with a copy of its value
/// (`split`). What these steps give is the sequence with the range cleared.
pub proof fn lemma_trim_steps<K: Ord, V: Clone>(
    s: Seq<Segment<K, V>>,
    got: Seq<Segment<K, V>>,
    q: int,
    pulled: bool,
    cut: bool,
    split: bool,
    a: K,
    b: K,
)
    requires
        ordered::<K>(),
        well_formed(s),
        below(a, b),
        0 <= q <= s.len(),
        forall|k: int| 0 <= k < q ==> below(#[trigger] s[k].start, b),
        forall|k: int| q <= k < s.len() ==> at_most(b, #[trigger] s[k].start),
        forall|k: int| 0 <= k < s.len() ==> !inside(#[trigger] s[k], a, b),
        pulled == (q > 0 && at_most(a, s[q - 1].start)),
        ({
            let j = if pulled {
                q - 1
            } else {
                q
            };
            let s1 = if pulled {
                s.update(q - 1, pulled_up(s[q - 1], b))
            } else {
                s
            };
            let s2 = if cut {
                s1.update(j - 1, cut_back(s[j - 1], a))
            } else {
                s1
            };
            &&& cut == (j > 0 && below(a, s[j - 1].end))
            &&& split == (cut && below(b, s[j - 1].end))
            &&& if split {
                &&& got == s2.insert(j, got[j])
                &&& got.len() == s2.len() + 1
                &&& got[j].start == b
                &&& got[j].end == s[j - 1].end
                &&& cloned(s[j - 1].value, got[j].value)
            } else {
                got == s2
            }
        }),
    ensures
        well_formed(got),
        cleared(s, got, a, b),
        clip_below(s, a).len() == (if pulled {
            q - 1
        } else {
            q
        }),
{
    let j = if pulled {
        q - 1
    } else {
        q
    };
    let p = if cut {
        j - 1
    } else {
        j
    };
    if pulled {
        assert(!inside(s[q - 1], a, b));
        lemma_below_transitive(a, b, s[q - 1].end);
    }
    if cut {
        if j < q {
            lemma_below_transitive(s[j - 1].end, s[j].start, b);
            lemma_below_asymmetric(s[j - 1].end, b);
            assert(!inside(s[j - 1], a, b));
        }
        lemma_below_transitive(s[j - 1].start, a, b);
        if j > 1 {
            lemma_below_transitive(s[j - 2].end, s[j - 1].start, a);
        }
    }
    lemma_ends_below(s, p, a);
    assert forall|k: int| p <= k < q implies meets(#[trigger] s[k], a, b) && !inside(
        s[k],
        a,
        b,
    ) by {
        lemma_below_transitive(a, s[k].start, s[k].end);
    }
    let first = if cut {
        seq![cut_back(s[j - 1], a)]
    } else {
        Seq::empty()
    };
    let second = if split {
        seq![got[j]]
    } else if pulled {
        seq![pulled_up(s[q - 1], b)]
    } else {
        Seq::empty()
    };
    let mid = first + second;
    assert(got =~= s.take(p) + mid + s.skip(q));
    lemma_trimmed(s, got, mid, p, q, a, b);
}

/// In a well-formed sequence the segments that start below `a` come first: what the
/// sequence holds below `a` is that many of its first segments, each cut off at `a`.
pub proof fn lemma_clip_below_prefix<K: Ord, V>(s: Seq<Segment<K, V>>, a: K)
    requires
        ordered::<K>(),
        well_formed(s),
    ensures
        clip_below(s, a).len() <= s.len(),
        forall|i: int|
            #![trigger clip_below(s, a)[i]]
            #![trigger s[i]]
            0 <= i < clip_below(s, a).len() ==> clip_below(s, a)[i] == cut_end(s[i], a) && below(
                s[i].start,
                a,
            ),
        forall|i: int| clip_below(s, a).len() <= i < s.len() ==> at_most(a, #[trigger] s[i].start),
    decreases s.len(),
{
    if s.len() > 0 {
        let t = s.drop_last();
        let n = s.len() - 1;
        assert(forall|i: int| 0 <= i < t.len() ==> t[i] == s[i]);
        lemma_clip_below_prefix(t, a);
        let c = clip_below(t, a);
        if below(s.last().start, a) {
            // every segment before the last starts below `a` too
            assert(c.len() == n) by {
                if c.len() < n {
                    assert(at_most(a, t[c.len() as int].start));
                    lemma_ascending(s, c.len() as int, n);
                    lemma_below_transitive(t[c.len() as int].start, s[n].start, a);
                }
            }
            assert forall|i: int|
                #![trigger clip_below(s, a)[i]]
                #![trigger s[i]]
                0 <= i < clip_below(s, a).len() implies clip_below(s, a)[i] == cut_end(s[i], a)
                && below(s[i].start, a) by {
                if i < n {
                    assert(clip_below(s, a)[i] == c[i]);
                    assert(c[i] == cut_end(t[i], a));
                }
            }
        } else {
            assert(clip_below(s, a) == c);
            assert forall|i: int|
                #![trigger clip_below(s, a)[i]]
                #![trigger s[i]]
                0 <= i < clip_below(s, a).len() implies clip_below(s, a)[i] == cut_end(s[i], a)
                && below(s[i].start, a) by {
                assert(c[i] == cut_end(t[i], a));
            }
            assert forall|i: int| clip_below(s, a).len() <= i < s.len() implies at_most(
                a,
                #[trigger] s[i].start,
            ) by {
                if i < n {
                    assert(at_most(a, t[i].start));
                }
            }
        }
    }
}

/// In a well-formed sequence the segments that end above `b` come last: what the
/// sequence holds from `b` on is that many of its last segments, each begun no earlier
/// than `b`.
pub proof fn lemma_clip_above_suffix<K: Ord, V>(s: Seq<Segment<K, V>>, b: K)
    requires
        ordered::<K>(),
        well_formed(s),
    ensures
        clip_above(s, b).len() <= s.len(),
        forall|i: int|
            #![trigger clip_above(s, b)[i]]
            0 <= i < clip_above(s, b).len() ==> clip_above(s, b)[i] == cut_start(
                s[s.len() - clip_above(s, b).len() + i],
                b,
            ) && below(b, s[s.len() - clip_above(s, b).len() + i].end),
        forall|i: int|
            0 <= i < s.len() - clip_above(s, b).len() ==> at_most(#[trigger] s[i].end, b),
    decreases s.len(),
{
    if s.len() > 0 {
        let t = s.drop_last();
        let n = s.len() - 1;
        assert(forall|i: int| 0 <= i < t.len() ==> t[i] == s[i]);
        lemma_clip_above_suffix(t, b);
        let c = clip_above(t, b);
        if below(b, s.last().end) {
            let d = clip_above(s, b);
            assert(d == c.push(cut_start(s.last(), b)));
            assert forall|i: int| #![trigger d[i]] 0 <= i < d.len() implies d[i] == cut_start(
                s[s.len() - d.len() + i],
                b,
            ) && below(b, s[s.len() - d.len() + i].end) by {
                if i < c.len() {
                    assert(d[i] == c[i]);
                    assert(c[i] == cut_start(t[t.len() - c.len() + i], b));
                }
            }
        } else {
            // no segment before the last ends above `b` either
            assert(c.len() == 0) by {
                if c.len() > 0 {
                    assert(c[0] == cut_start(t[t.len() - c.len() + 0], b));
                    let k = t.len() - c.len();
                    lemma_ascending(s, k, n);
                    lemma_below_transitive(b, s[k].end, s[n].end);
                }
            }
            assert(clip_above(s, b) == c);
        }
    }
}

/// In a well-formed sequence the segment that covers a key is the one that `lookup` gives.
pub proof fn lemma_lookup_at<K: Ord, V>(s: Seq<Segment<K, V>>, key: K, i: int)
    requires
        ordered::<K>(),
        well_formed(s),
        0 <= i < s.len(),
        covers(s[i], key),
    ensures
        lookup(s, key) == Some(s[i]),
{
    let j = choose|j: int| 0 <= j < s.len() && covers(#[trigger] s[j], key);
    if j < i {
        lemma_below_transitive(key, s[j].end, s[i].start);
    } else if i < j {
        lemma_below_transitive(key, s[i].end, s[j].start);
    }
}

/// Where the first `n` segments start at or below a key and end at or below it, and the
/// others start above it, no segment covers the key.
pub proof fn lemma_lookup_none<K: Ord, V>(s: Seq<Segment<K, V>>, key: K, n: int)
    requires
        ordered::<K>(),
        well_formed(s),
        0 <= n <= s.len(),
        n > 0 ==> at_most(s[n - 1].end, key),
        forall|i: int| n <= i < s.len() ==> below(key, #[trigger] s[i].start),
    ensures
        lookup(s, key).is_none(),
{
    assert forall|i: int| 0 <= i < s.len() implies !covers(#[trigger] s[i], key) by {
        if i < n - 1 {
            lemma_ascending(s, i, n - 1);
            lemma_below_transitive(s[i].end, s[n - 1].end, key);
        }
    }
}

/// Where the first `n` segments start below `a` and the others do not, only the segment
/// at `n` can begin level with `a`.
pub proof fn lemma_anchor<K: Ord, V>(s: Seq<Segment<K, V>>, n: int, a: K)
    requires
        ordered::<K>(),
        well_formed(s),
        0 <= n <= s.len(),
        forall|i: int| 0 <= i < n ==> below(#[trigger] s[i].start, a),
        forall|i: int| n <= i < s.len() ==> at_most(a, #[trigger] s[i].start),
    ensures
        anchor(s, a) == if n < s.len() && !below(a, s[n].start) {
            s[n].start
        } else {
            a
        },
        level(anchor(s, a), a),
{
    lemma_below_asymmetric(a, a);
    assert forall|i: int| 0 <= i < s.len() && level(#[trigger] s[i].start, a) implies i == n by {
        if i > n {
            lemma_ascending(s, n, i);
            lemma_below_transitive(a, s[n].start, s[i].start);
        }
    }
    if n < s.len() && !below(a, s[n].start) {
        assert(level(s[n].start, a));
    }
}

} // verus!
