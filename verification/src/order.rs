use core::cmp::Ordering;
use vstd::laws_cmp::{
    obeys_cmp, obeys_cmp_ord, obeys_cmp_partial_ord, obeys_partial_cmp_spec_properties,
};
use vstd::prelude::*;
use vstd::std_specs::cmp::{OrdSpec, PartialEqSpec, PartialOrdSpec};

verus! {

/// The comparisons of the key type `K` obey the laws of a total order.
pub open spec fn lawful<K: Ord>() -> bool {
    obeys_cmp::<K>()
}

/// The comparisons of the integer types obey the laws.
pub proof fn lemma_integers_lawful()
    ensures
        lawful::<u8>(),
        lawful::<u16>(),
        lawful::<u32>(),
        lawful::<u64>(),
        lawful::<u128>(),
        lawful::<usize>(),
        lawful::<i8>(),
        lawful::<i16>(),
        lawful::<i32>(),
        lawful::<i64>(),
        lawful::<i128>(),
        lawful::<isize>(),
{
    broadcast use vstd::laws_cmp::group_laws_cmp;

}

/// `a` is ordered strictly before `b`.
pub open spec fn lt<K: Ord>(a: K, b: K) -> bool {
    a.cmp_spec(&b) == Ordering::Less
}

/// Neither key is ordered before the other: the two compare as equal.
pub open spec fn same<K: Ord>(a: K, b: K) -> bool {
    !lt(a, b) && !lt(b, a)
}

/// `a` comes before `b`: strictly if `strict`, else `a` is at most `b`.
pub open spec fn before<K: Ord>(a: K, b: K, strict: bool) -> bool {
    if strict {
        lt(a, b)
    } else {
        !lt(b, a)
    }
}

/// The bound `lo`, where there is one, comes before `k`.
pub open spec fn above<K: Ord>(lo: Option<K>, k: K, strict: bool) -> bool {
    match lo {
        Some(l) => before(l, k, strict),
        None => true,
    }
}

/// `k` comes before the bound `hi`, where there is one.
pub open spec fn below<K: Ord>(k: K, hi: Option<K>, strict: bool) -> bool {
    match hi {
        Some(h) => before(k, h, strict),
        None => true,
    }
}

/// No key is ordered before itself.
pub proof fn lemma_lt_irreflexive<K: Ord>(a: K)
    requires
        lawful::<K>(),
    ensures
        !lt(a, a),
{
    reveal(obeys_partial_cmp_spec_properties);
    reveal(obeys_cmp_ord);
    assert(a.partial_cmp_spec(&a) == Some(a.cmp_spec(&a)));
}

/// Of two keys at most one is ordered before the other.
pub proof fn lemma_lt_asymmetric<K: Ord>(a: K, b: K)
    requires
        lawful::<K>(),
        lt(a, b),
    ensures
        !lt(b, a),
{
    reveal(obeys_partial_cmp_spec_properties);
    reveal(obeys_cmp_ord);
    assert(a.partial_cmp_spec(&b) == Some(a.cmp_spec(&b)));
    assert(b.partial_cmp_spec(&a) == Some(b.cmp_spec(&a)));
}

/// The strict order is transitive.
pub proof fn lemma_lt_transitive<K: Ord>(a: K, b: K, c: K)
    requires
        lawful::<K>(),
        lt(a, b),
        lt(b, c),
    ensures
        lt(a, c),
{
    reveal(obeys_partial_cmp_spec_properties);
    reveal(obeys_cmp_ord);
    assert(a.partial_cmp_spec(&b) == Some(a.cmp_spec(&b)));
    assert(b.partial_cmp_spec(&c) == Some(b.cmp_spec(&c)));
    assert(a.partial_cmp_spec(&c) == Some(a.cmp_spec(&c)));
}

/// Comparing as equal is transitive.
pub proof fn lemma_same_transitive<K: Ord>(a: K, b: K, c: K)
    requires
        lawful::<K>(),
        same(a, b),
        same(b, c),
    ensures
        same(a, c),
{
    reveal(obeys_partial_cmp_spec_properties);
    reveal(obeys_cmp_ord);
    reveal(vstd::laws_eq::obeys_eq_spec_properties);
    assert(a.partial_cmp_spec(&b) == Some(a.cmp_spec(&b)));
    assert(b.partial_cmp_spec(&a) == Some(b.cmp_spec(&a)));
    assert(b.partial_cmp_spec(&c) == Some(b.cmp_spec(&c)));
    assert(c.partial_cmp_spec(&b) == Some(c.cmp_spec(&b)));
    assert(a.partial_cmp_spec(&c) == Some(a.cmp_spec(&c)));
    assert(c.partial_cmp_spec(&a) == Some(c.cmp_spec(&a)));
    assert(a.eq_spec(&b));
    assert(b.eq_spec(&c));
    assert(a.eq_spec(&c));
    assert(c.eq_spec(&a));
}

/// "At most" is transitive: if `c` is not before `b` and `b` is not before
/// `a`, then `c` is not before `a`.
pub proof fn lemma_not_lt_transitive<K: Ord>(a: K, b: K, c: K)
    requires
        lawful::<K>(),
        !lt(b, a),
        !lt(c, b),
    ensures
        !lt(c, a),
{
    if lt(c, a) {
        // c < a, a <= b, b <= c
        if lt(a, b) {
            lemma_lt_transitive(c, a, b);
        } else if lt(b, c) {
            lemma_lt_transitive(b, c, a);
        } else {
            lemma_same_transitive(a, b, c);
        }
    }
}

/// A strict step and a step of "at most" make a strict step, in either order.
pub proof fn lemma_lt_mixed<K: Ord>(a: K, b: K, c: K)
    requires
        lawful::<K>(),
    ensures
        lt(a, b) && !lt(c, b) ==> lt(a, c),
        !lt(b, a) && lt(b, c) ==> lt(a, c),
{
    if lt(a, b) && !lt(c, b) && !lt(a, c) {
        lemma_not_lt_transitive(b, c, a);
    }
    if !lt(b, a) && lt(b, c) && !lt(a, c) {
        lemma_not_lt_transitive(c, a, b);
    }
}

/// A key may be replaced by one that compares equal to it, on either side of
/// `before`.
pub proof fn lemma_before_same<K: Ord>(a: K, b: K, c: K, strict: bool)
    requires
        lawful::<K>(),
    ensures
        before(a, b, strict) && same(b, c) ==> before(a, c, strict),
        same(a, b) && before(b, c, strict) ==> before(a, c, strict),
{
    lemma_lt_mixed(a, b, c);
    if !strict {
        if before(a, b, strict) && same(b, c) {
            lemma_not_lt_transitive(a, b, c);
        }
        if same(a, b) && before(b, c, strict) {
            lemma_not_lt_transitive(a, b, c);
        }
    }
}

/// `before` is transitive, for either strictness.
pub proof fn lemma_before_transitive<K: Ord>(a: K, b: K, c: K, strict: bool)
    requires
        lawful::<K>(),
        before(a, b, strict),
        before(b, c, strict),
    ensures
        before(a, c, strict),
{
    if strict {
        lemma_lt_transitive(a, b, c);
    } else {
        lemma_not_lt_transitive(a, b, c);
    }
}

/// The three-way comparison of two keys.
pub fn compare<K: Ord>(a: &K, b: &K) -> (r: Ordering)
    requires
        lawful::<K>(),
    ensures
        (r == Ordering::Less) == lt(*a, *b),
        (r == Ordering::Greater) == lt(*b, *a),
        (r == Ordering::Equal) == same(*a, *b),
{
    proof {
        reveal(obeys_cmp_ord);
        reveal(obeys_cmp_partial_ord);
        reveal(obeys_partial_cmp_spec_properties);
        assert(a.partial_cmp_spec(b) == Some(a.cmp_spec(b)));
        assert(b.partial_cmp_spec(a) == Some(b.cmp_spec(a)));
    }
    a.cmp(b)
}

/// Whether `a` is ordered strictly before `b`.
pub fn less<K: Ord>(a: &K, b: &K) -> (r: bool)
    requires
        lawful::<K>(),
    ensures
        r == lt(*a, *b),
{
    proof {
        reveal(obeys_cmp_ord);
        reveal(obeys_cmp_partial_ord);
        assert(a.partial_cmp_spec(b) == Some(a.cmp_spec(b)));
    }
    *a < *b
}

/// Whether `a` and `b` compare as different keys.
pub fn differs<K: Ord>(a: &K, b: &K) -> (r: bool)
    requires
        lawful::<K>(),
    ensures
        r == !same(*a, *b),
{
    proof {
        reveal(obeys_cmp_ord);
        reveal(obeys_cmp_partial_ord);
        reveal(obeys_partial_cmp_spec_properties);
        assert(a.partial_cmp_spec(b) == Some(a.cmp_spec(b)));
        assert(b.partial_cmp_spec(a) == Some(b.cmp_spec(a)));
    }
    *a != *b
}

} // verus!
