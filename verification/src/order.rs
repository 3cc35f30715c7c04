use std::cmp::Ordering;
use vstd::prelude::*;
use vstd::std_specs::cmp::{OrdSpec, PartialEqSpec, PartialOrdSpec};

verus! {

/// Whether `a` is strictly below `b` in the order of `K`.
pub open spec fn below<K: Ord>(a: K, b: K) -> bool {
    a.cmp_spec(&b) == Ordering::Less
}

/// Whether `a` is below `b` or level with it: `b` is not strictly below `a`.
pub open spec fn at_most<K: Ord>(a: K, b: K) -> bool {
    !below(b, a)
}

/// Whether the comparisons of `K` form a total order that its operators follow.
pub open spec fn ordered<K: Ord>() -> bool {
    vstd::laws_cmp::obeys_cmp::<K>()
}

/// The lower of two keys; the first where they are level.
pub open spec fn lower<K: Ord>(a: K, b: K) -> K {
    if below(b, a) {
        b
    } else {
        a
    }
}

/// The higher of two keys; the first where they are level.
pub open spec fn higher<K: Ord>(a: K, b: K) -> K {
    if below(a, b) {
        b
    } else {
        a
    }
}

/// Compares two keys with `<`.
pub fn is_below<K: Ord + Copy>(a: K, b: K) -> (r: bool)
    requires
        ordered::<K>(),
    ensures
        r == below(a, b),
{
    proof {
        reveal(vstd::laws_cmp::obeys_cmp_partial_ord);
        reveal(vstd::laws_cmp::obeys_cmp_ord);
    }
    a < b
}

/// No key is below itself, and of two keys at most one is below the other.
pub proof fn lemma_below_asymmetric<K: Ord>(a: K, b: K)
    requires
        ordered::<K>(),
    ensures
        !below(a, a),
        below(a, b) ==> !below(b, a),
{
    reveal(vstd::laws_cmp::obeys_cmp_partial_ord);
    reveal(vstd::laws_cmp::obeys_cmp_ord);
    reveal(vstd::laws_cmp::obeys_partial_cmp_spec_properties);
    reveal(vstd::laws_eq::obeys_eq_spec_properties);
    assert(a.partial_cmp_spec(&b) == Some(a.cmp_spec(&b)));
    assert(b.partial_cmp_spec(&a) == Some(b.cmp_spec(&a)));
    assert(a.partial_cmp_spec(&a) == Some(a.cmp_spec(&a)));
}

/// Two keys that are level with each other compare alike against any third.
proof fn lemma_level_alike<K: Ord>(a: K, b: K, c: K)
    requires
        ordered::<K>(),
        !below(a, b),
        !below(b, a),
    ensures
        below(a, c) == below(b, c),
        below(c, a) == below(c, b),
{
    reveal(vstd::laws_cmp::obeys_cmp_partial_ord);
    reveal(vstd::laws_cmp::obeys_cmp_ord);
    reveal(vstd::laws_cmp::obeys_partial_cmp_spec_properties);
    reveal(vstd::laws_eq::obeys_eq_spec_properties);
    assert(a.partial_cmp_spec(&b) == Some(a.cmp_spec(&b)));
    assert(b.partial_cmp_spec(&a) == Some(b.cmp_spec(&a)));
    assert(a.partial_cmp_spec(&c) == Some(a.cmp_spec(&c)));
    assert(c.partial_cmp_spec(&a) == Some(c.cmp_spec(&a)));
    assert(b.partial_cmp_spec(&c) == Some(b.cmp_spec(&c)));
    assert(c.partial_cmp_spec(&b) == Some(c.cmp_spec(&b)));
    assert(a.eq_spec(&b));
    assert(b.eq_spec(&a));
}

/// `below` is transitive, also where one of the two steps is only `at_most`.
pub proof fn lemma_below_transitive<K: Ord>(a: K, b: K, c: K)
    requires
        ordered::<K>(),
    ensures
        below(a, b) && below(b, c) ==> below(a, c),
        below(a, b) && at_most(b, c) ==> below(a, c),
        at_most(a, b) && below(b, c) ==> below(a, c),
        at_most(a, b) && at_most(b, c) ==> at_most(a, c),
        below(a, c) ==> at_most(a, c),
        at_most(a, a),
{
    lemma_below_asymmetric(a, b);
    lemma_below_asymmetric(b, c);
    lemma_below_asymmetric(a, c);
    assert(below(a, b) && below(b, c) ==> below(a, c)) by {
        reveal(vstd::laws_cmp::obeys_cmp_partial_ord);
        reveal(vstd::laws_cmp::obeys_cmp_ord);
        reveal(vstd::laws_cmp::obeys_partial_cmp_spec_properties);
        assert(a.partial_cmp_spec(&b) == Some(a.cmp_spec(&b)));
        assert(b.partial_cmp_spec(&c) == Some(b.cmp_spec(&c)));
        assert(a.partial_cmp_spec(&c) == Some(a.cmp_spec(&c)));
    }
    assert(below(c, b) && below(b, a) ==> below(c, a)) by {
        reveal(vstd::laws_cmp::obeys_cmp_partial_ord);
        reveal(vstd::laws_cmp::obeys_cmp_ord);
        reveal(vstd::laws_cmp::obeys_partial_cmp_spec_properties);
        assert(c.partial_cmp_spec(&b) == Some(c.cmp_spec(&b)));
        assert(b.partial_cmp_spec(&a) == Some(b.cmp_spec(&a)));
        assert(c.partial_cmp_spec(&a) == Some(c.cmp_spec(&a)));
    }
    if !below(a, b) && !below(b, a) {
        lemma_level_alike(a, b, c);
    }
    if !below(b, c) && !below(c, b) {
        lemma_level_alike(b, c, a);
    }
    lemma_total(a, b);
    lemma_total(b, c);
    lemma_total(a, c);
}

/// Of two keys one is below the other, or they are level: `at_most` holds one way at least.
pub proof fn lemma_total<K: Ord>(a: K, b: K)
    requires
        ordered::<K>(),
    ensures
        at_most(a, b) || at_most(b, a),
{
    lemma_below_asymmetric(a, b);
}

} // verus!
