use crate::order::{
    above, before, below, lawful, lemma_before_same, lemma_before_transitive, lemma_lt_asymmetric,
    lemma_lt_irreflexive, lemma_lt_transitive, lemma_same_transitive, lt, same,
};
use crate::tree::{Color, Tree};
use vstd::prelude::*;

verus! {

/* Search order */

proof fn lemma_paint_ordered<K: Ord, V>(
    t: Tree<K, V>,
    c: Color,
    lo: Option<K>,
    hi: Option<K>,
    strict: bool,
)
    ensures
        t.paint(c).ordered(lo, hi, strict) == t.ordered(lo, hi, strict),
        t.blacken().ordered(lo, hi, strict) == t.ordered(lo, hi, strict),
{
}

proof fn lemma_rotate_left_ordered<K: Ord, V>(
    t: Tree<K, V>,
    lo: Option<K>,
    hi: Option<K>,
    strict: bool,
)
    requires
        lawful::<K>(),
        t.ordered(lo, hi, strict),
    ensures
        t.rotate_left().ordered(lo, hi, strict),
{
    if let Tree::Node { color, left, key, value, right } = t {
        if let Tree::Node { color: c2, left: l2, key: k2, value: v2, right: r2 } = *right {
            assert(right.ordered(Some(key), hi, strict));
            assert(before(key, k2, strict));
            if let Some(l) = lo {
                lemma_before_transitive(l, key, k2, strict);
            }
            let x = Tree::Node { color, left, key, value, right: l2 };
            assert(x.ordered(lo, Some(k2), strict));
        }
    }
}

proof fn lemma_rotate_right_ordered<K: Ord, V>(
    t: Tree<K, V>,
    lo: Option<K>,
    hi: Option<K>,
    strict: bool,
)
    requires
        lawful::<K>(),
        t.ordered(lo, hi, strict),
    ensures
        t.rotate_right().ordered(lo, hi, strict),
{
    if let Tree::Node { color, left, key, value, right } = t {
        if let Tree::Node { color: c2, left: l2, key: k2, value: v2, right: r2 } = *left {
            assert(left.ordered(lo, Some(key), strict));
            assert(before(k2, key, strict));
            if let Some(h) = hi {
                lemma_before_transitive(k2, key, h, strict);
            }
            let x = Tree::Node { color, left: r2, key, value, right };
            assert(x.ordered(Some(k2), hi, strict));
        }
    }
}

proof fn lemma_mend_ordered<K: Ord, V>(
    g: Tree<K, V>,
    k: K,
    lo: Option<K>,
    hi: Option<K>,
    strict: bool,
)
    requires
        lawful::<K>(),
        g.ordered(lo, hi, strict),
    ensures
        g.mend(k).ordered(lo, hi, strict),
{
    if let Tree::Node { color, left, key, value, right } = g {
        let p = g.toward(k);
        let u = g.away(k);
        if p.is_red() && p.toward(k).is_red() {
            if lt(k, key) {
                lemma_paint_ordered(p, Color::Black, lo, Some(key), strict);
                lemma_paint_ordered(u, Color::Black, Some(key), hi, strict);
                if !u.is_red() {
                    let q = if lt(k, p->key) {
                        p
                    } else {
                        p.rotate_left()
                    };
                    lemma_rotate_left_ordered(p, lo, Some(key), strict);
                    lemma_paint_ordered(q, Color::Black, lo, Some(key), strict);
                    let g2 = Tree::node(Color::Red, q.blacken(), key, value, u);
                    assert(g2.ordered(lo, hi, strict));
                    lemma_rotate_right_ordered(g2, lo, hi, strict);
                }
            } else {
                lemma_paint_ordered(p, Color::Black, Some(key), hi, strict);
                lemma_paint_ordered(u, Color::Black, lo, Some(key), strict);
                if !u.is_red() {
                    let q = if lt(k, p->key) {
                        p.rotate_right()
                    } else {
                        p
                    };
                    lemma_rotate_right_ordered(p, Some(key), hi, strict);
                    lemma_paint_ordered(q, Color::Black, Some(key), hi, strict);
                    let g2 = Tree::node(Color::Red, u, key, value, q.blacken());
                    assert(g2.ordered(lo, hi, strict));
                    lemma_rotate_left_ordered(g2, lo, hi, strict);
                }
            }
        }
    }
}

proof fn lemma_ins_ordered<K: Ord, V>(
    t: Tree<K, V>,
    k: K,
    v: V,
    lo: Option<K>,
    hi: Option<K>,
    strict: bool,
)
    requires
        lawful::<K>(),
        t.ordered(lo, hi, strict),
        above(lo, k, strict),
        below(k, hi, strict),
        strict ==> !t.has_key(k),
    ensures
        t.ins(k, v).ordered(lo, hi, strict),
    decreases t,
{
    match t {
        Tree::Leaf => {
            reveal_with_fuel(Tree::ordered, 2);
        },
        Tree::Node { color, left, key, value, right } => {
            if lt(k, key) {
                lemma_lt_asymmetric(k, key);
                lemma_ins_ordered(*left, k, v, lo, Some(key), strict);
                let g = Tree::node(color, left.ins(k, v), key, value, *right);
                assert(g.ordered(lo, hi, strict));
                lemma_mend_ordered(g, k, lo, hi, strict);
            } else {
                lemma_ins_ordered(*right, k, v, Some(key), hi, strict);
                let g = Tree::node(color, *left, key, value, right.ins(k, v));
                assert(g.ordered(lo, hi, strict));
                lemma_mend_ordered(g, k, lo, hi, strict);
            }
        },
    }
}

/// Bounds may be dropped: a tree in search order between two bounds is in
/// search order without them.
proof fn lemma_ordered_widen<K: Ord, V>(
    t: Tree<K, V>,
    lo: Option<K>,
    hi: Option<K>,
    strict: bool,
    drop_lo: bool,
    drop_hi: bool,
)
    requires
        t.ordered(lo, hi, strict),
    ensures
        t.ordered(
            if drop_lo {
                None
            } else {
                lo
            },
            if drop_hi {
                None
            } else {
                hi
            },
            strict,
        ),
    decreases t,
{
    if let Tree::Node { left, key, right, .. } = t {
        lemma_ordered_widen(*left, lo, Some(key), strict, drop_lo, false);
        lemma_ordered_widen(*right, Some(key), hi, strict, false, drop_hi);
    }
}

/// A key of a tree in search order between two bounds lies between them.
proof fn lemma_has_key_bounds<K: Ord, V>(
    t: Tree<K, V>,
    q: K,
    lo: Option<K>,
    hi: Option<K>,
    strict: bool,
)
    requires
        lawful::<K>(),
        t.ordered(lo, hi, strict),
        t.has_key(q),
    ensures
        above(lo, q, strict),
        below(q, hi, strict),
    decreases t,
{
    if let Tree::Node { left, key, right, .. } = t {
        if same(q, key) {
            if let Some(l) = lo {
                lemma_before_same(l, key, q, strict);
            }
            if let Some(h) = hi {
                lemma_before_same(q, key, h, strict);
            }
        } else if left.has_key(q) {
            lemma_has_key_bounds(*left, q, lo, Some(key), strict);
            if let Some(h) = hi {
                lemma_before_transitive(q, key, h, strict);
            }
        } else {
            lemma_has_key_bounds(*right, q, Some(key), hi, strict);
            if let Some(l) = lo {
                lemma_before_transitive(l, key, q, strict);
            }
        }
    }
}

/* Which keys a tree has */

proof fn lemma_rotate_has_key<K: Ord, V>(t: Tree<K, V>, q: K)
    ensures
        t.rotate_left().has_key(q) == t.has_key(q),
        t.rotate_right().has_key(q) == t.has_key(q),
        t.blacken().has_key(q) == t.has_key(q),
{
    if let Tree::Node { color, left, key, value, right } = t {
        if let Tree::Node { color: c2, left: l2, key: k2, value: v2, right: r2 } = *right {
            let x = Tree::Node { color, left, key, value, right: l2 };
            assert(x.has_key(q) == (same(q, key) || left.has_key(q) || l2.has_key(q)));
            assert(right.has_key(q) == (same(q, k2) || l2.has_key(q) || r2.has_key(q)));
        }
        if let Tree::Node { color: c2, left: l2, key: k2, value: v2, right: r2 } = *left {
            let x = Tree::Node { color, left: r2, key, value, right };
            assert(x.has_key(q) == (same(q, key) || r2.has_key(q) || right.has_key(q)));
            assert(left.has_key(q) == (same(q, k2) || l2.has_key(q) || r2.has_key(q)));
        }
    }
}

proof fn lemma_mend_has_key<K: Ord, V>(g: Tree<K, V>, k: K, q: K)
    ensures
        g.mend(k).has_key(q) == g.has_key(q),
{
    if let Tree::Node { color, left, key, value, right } = g {
        let p = g.toward(k);
        let u = g.away(k);
        lemma_rotate_has_key(p, q);
        lemma_rotate_has_key(u, q);
        if p.is_red() && p.toward(k).is_red() && !u.is_red() {
            if lt(k, key) {
                let r = if lt(k, p->key) {
                    p
                } else {
                    p.rotate_left()
                };
                lemma_rotate_has_key(r, q);
                let g2 = Tree::node(Color::Red, r.blacken(), key, value, u);
                assert(g2.has_key(q) == g.has_key(q));
                lemma_rotate_has_key(g2, q);
            } else {
                let r = if lt(k, p->key) {
                    p.rotate_right()
                } else {
                    p
                };
                lemma_rotate_has_key(r, q);
                let g2 = Tree::node(Color::Red, u, key, value, r.blacken());
                assert(g2.has_key(q) == g.has_key(q));
                lemma_rotate_has_key(g2, q);
            }
        }
    }
}

proof fn lemma_ins_has_key<K: Ord, V>(t: Tree<K, V>, k: K, v: V, q: K)
    ensures
        t.ins(k, v).has_key(q) == (t.has_key(q) || same(q, k)),
    decreases t,
{
    match t {
        Tree::Leaf => {
            reveal_with_fuel(Tree::has_key, 2);
        },
        Tree::Node { color, left, key, value, right } => {
            if lt(k, key) {
                lemma_ins_has_key(*left, k, v, q);
                let g = Tree::node(color, left.ins(k, v), key, value, *right);
                assert(g.has_key(q) == (t.has_key(q) || same(q, k)));
                lemma_mend_has_key(g, k, q);
            } else {
                lemma_ins_has_key(*right, k, v, q);
                let g = Tree::node(color, *left, key, value, right.ins(k, v));
                assert(g.has_key(q) == (t.has_key(q) || same(q, k)));
                lemma_mend_has_key(g, k, q);
            }
        },
    }
}

/* Which entries a tree holds */

proof fn lemma_rotate_entries<K, V>(t: Tree<K, V>)
    ensures
        t.rotate_left().entries() == t.entries(),
        t.rotate_right().entries() == t.entries(),
        t.blacken().entries() == t.entries(),
        t.size() == t.entries().len(),
    decreases t,
{
    reveal_with_fuel(Tree::entries, 3);
    assert(t.rotate_left().entries() =~= t.entries());
    assert(t.rotate_right().entries() =~= t.entries());
    assert(t.blacken().entries() =~= t.entries());
    if let Tree::Node { left, right, .. } = t {
        lemma_rotate_entries(*left);
        lemma_rotate_entries(*right);
    }
}

proof fn lemma_mend_entries<K: Ord, V>(g: Tree<K, V>, k: K)
    ensures
        g.mend(k).entries() == g.entries(),
{
    if let Tree::Node { color, left, key, value, right } = g {
        let p = g.toward(k);
        let u = g.away(k);
        lemma_rotate_entries(p);
        lemma_rotate_entries(u);
        if p.is_red() && p.toward(k).is_red() {
            if u.is_red() {
                assert(g.mend(k).entries() =~= g.entries());
            } else if lt(k, key) {
                let r = if lt(k, p->key) {
                    p
                } else {
                    p.rotate_left()
                };
                lemma_rotate_entries(r);
                let g2 = Tree::node(Color::Red, r.blacken(), key, value, u);
                assert(g2.entries() =~= g.entries());
                lemma_rotate_entries(g2);
            } else {
                let r = if lt(k, p->key) {
                    p.rotate_right()
                } else {
                    p
                };
                lemma_rotate_entries(r);
                let g2 = Tree::node(Color::Red, u, key, value, r.blacken());
                assert(g2.entries() =~= g.entries());
                lemma_rotate_entries(g2);
            }
        }
    }
}

proof fn lemma_ins_entries<K: Ord, V>(t: Tree<K, V>, k: K, v: V)
    ensures
        t.ins(k, v).entries() == t.entries().insert((k, v)),
    decreases t,
{
    match t {
        Tree::Leaf => {
            reveal_with_fuel(Tree::entries, 2);
            assert(t.ins(k, v).entries() =~= t.entries().insert((k, v)));
        },
        Tree::Node { color, left, key, value, right } => {
            if lt(k, key) {
                lemma_ins_entries(*left, k, v);
                let g = Tree::node(color, left.ins(k, v), key, value, *right);
                assert(g.entries() =~= t.entries().insert((k, v)));
                lemma_mend_entries(g, k);
            } else {
                lemma_ins_entries(*right, k, v);
                let g = Tree::node(color, *left, key, value, right.ins(k, v));
                assert(g.entries() =~= t.entries().insert((k, v)));
                lemma_mend_entries(g, k);
            }
        },
    }
}

/* Colours and black heights */

proof fn lemma_mend_red_black<K: Ord, V>(g: Tree<K, V>, k: K)
    requires
        g is Node,
        g.is_balanced(),
        g.away(k).no_red_red(),
        g.toward(k).no_red_red_below(),
        g.toward(k).is_red() ==> !g.toward(k).away(k).is_red(),
        g.is_red() ==> !g.away(k).is_red() && g.toward(k).no_red_red(),
    ensures
        g.mend(k) is Node,
        g.mend(k).is_balanced(),
        g.mend(k).black_height() == g.black_height(),
        g.mend(k).no_red_red_below(),
        !g.is_red() ==> g.mend(k).no_red_red(),
        g.is_red() ==> g.mend(k) == g,
{
    reveal_with_fuel(Tree::is_balanced, 3);
    reveal_with_fuel(Tree::no_red_red, 3);
    reveal_with_fuel(Tree::black_height, 3);
    if let Tree::Node { color, left, key, value, right } = g {
        let p = g.toward(k);
        let u = g.away(k);
        if p.is_red() && p.toward(k).is_red() {
            assert(!p.no_red_red());
            assert(color == Color::Black);
            let z = p.toward(k);
            let s = p.away(k);
            assert(p.is_balanced());
            assert(z.no_red_red() && s.no_red_red());
            assert(z.black_height() == s.black_height());
            if u.is_red() {
                assert(p.blacken().no_red_red());
                assert(u.blacken().no_red_red());
                assert(p.blacken().is_balanced());
                assert(u.blacken().is_balanced());
                assert(p.blacken().black_height() == u.blacken().black_height());
            } else if lt(k, key) {
                let q = if lt(k, p->key) {
                    p
                } else {
                    p.rotate_left()
                };
                assert(q.is_red());
                let g2 = Tree::node(Color::Red, q.blacken(), key, value, u);
                let r = g2.rotate_right();
                assert(r == g.mend(k));
                let ql = *q->left;
                let qr = *q->right;
                assert(ql.is_red() && !qr.is_red());
                assert(ql.no_red_red() && qr.no_red_red());
                assert(ql.is_balanced() && qr.is_balanced());
                assert(ql.black_height() == qr.black_height());
                assert(qr.black_height() == u.black_height());
                let x = Tree::node(Color::Red, qr, key, value, u);
                assert(x.no_red_red());
                assert(x.is_balanced());
                assert(x.black_height() == ql.black_height());
                assert(r == Tree::node(Color::Black, ql, q->key, q->value, x));
            } else {
                let q = if lt(k, p->key) {
                    p.rotate_right()
                } else {
                    p
                };
                assert(q.is_red());
                let g2 = Tree::node(Color::Red, u, key, value, q.blacken());
                let r = g2.rotate_left();
                assert(r == g.mend(k));
                let ql = *q->left;
                let qr = *q->right;
                assert(qr.is_red() && !ql.is_red());
                assert(ql.no_red_red() && qr.no_red_red());
                assert(ql.is_balanced() && qr.is_balanced());
                assert(ql.black_height() == qr.black_height());
                assert(ql.black_height() == u.black_height());
                let x = Tree::node(Color::Red, u, key, value, ql);
                assert(x.no_red_red());
                assert(x.is_balanced());
                assert(x.black_height() == qr.black_height());
                assert(r == Tree::node(Color::Black, x, q->key, q->value, qr));
            }
        }
    }
}

proof fn lemma_ins_red_black<K: Ord, V>(t: Tree<K, V>, k: K, v: V)
    requires
        t.no_red_red(),
        t.is_balanced(),
    ensures
        t.ins(k, v) is Node,
        t.ins(k, v).is_balanced(),
        t.ins(k, v).black_height() == t.black_height(),
        t.ins(k, v).no_red_red_below(),
        !t.is_red() ==> t.ins(k, v).no_red_red(),
        t.ins(k, v).is_red() ==> !t.ins(k, v).away(k).is_red(),
    decreases t,
{
    match t {
        Tree::Leaf => {
            reveal_with_fuel(Tree::is_balanced, 2);
            reveal_with_fuel(Tree::no_red_red, 2);
            reveal_with_fuel(Tree::black_height, 2);
        },
        Tree::Node { color, left, key, value, right } => {
            if lt(k, key) {
                lemma_ins_red_black(*left, k, v);
                let g = Tree::node(color, left.ins(k, v), key, value, *right);
                assert(g.toward(k) == left.ins(k, v));
                assert(g.away(k) == *right);
                lemma_mend_red_black(g, k);
            } else {
                lemma_ins_red_black(*right, k, v);
                let g = Tree::node(color, *left, key, value, right.ins(k, v));
                assert(g.toward(k) == right.ins(k, v));
                assert(g.away(k) == *left);
                lemma_mend_red_black(g, k);
            }
        },
    }
}

/* What a search finds */

proof fn lemma_search_found<K: Ord, V>(t: Tree<K, V>, q: K, lo: Option<K>, hi: Option<K>)
    requires
        lawful::<K>(),
        t.ordered(lo, hi, false),
    ensures
        t.search(q) is Node <==> t.has_key(q),
        t.search(q) is Node ==> same(q, t.search(q)->key),
    decreases t,
{
    if let Tree::Node { left, key, right, .. } = t {
        if same(q, key) {
        } else if lt(q, key) {
            lemma_search_found(*left, q, lo, Some(key));
            if right.has_key(q) {
                lemma_has_key_bounds(*right, q, Some(key), hi, false);
            }
        } else {
            lemma_search_found(*right, q, Some(key), hi);
            if left.has_key(q) {
                lemma_has_key_bounds(*left, q, lo, Some(key), false);
            }
        }
    }
}

/// How three keys compare, as far as two comparisons decide a third.
proof fn lemma_three_keys<K: Ord>(a: K, b: K, c: K)
    requires
        lawful::<K>(),
    ensures
        lt(a, b) ==> !lt(b, a),
        lt(a, b) && lt(b, c) ==> lt(a, c),
        same(a, b) && lt(b, c) ==> lt(a, c),
        lt(a, b) && same(b, c) ==> lt(a, c),
{
    if lt(a, b) {
        lemma_lt_asymmetric(a, b);
    }
    if lt(a, b) && lt(b, c) {
        lemma_lt_transitive(a, b, c);
    }
    lemma_before_same(a, b, c, true);
}

proof fn lemma_rotate_lookup<K: Ord, V>(t: Tree<K, V>, q: K, lo: Option<K>, hi: Option<K>)
    requires
        lawful::<K>(),
        t.ordered(lo, hi, true),
    ensures
        t.rotate_left().lookup(q) == t.lookup(q),
        t.rotate_right().lookup(q) == t.lookup(q),
        t.blacken().lookup(q) == t.lookup(q),
{
    reveal_with_fuel(Tree::search, 3);
    reveal_with_fuel(Tree::ordered, 2);
    if let Tree::Node { color, left, key, value, right } = t {
        if let Tree::Node { color: c2, left: l2, key: k2, value: v2, right: r2 } = *right {
            assert(lt(key, k2));
            lemma_three_keys(q, key, k2);
            lemma_three_keys(key, q, k2);
            lemma_three_keys(key, k2, q);
            lemma_three_keys(k2, q, key);
        }
        if let Tree::Node { color: c2, left: l2, key: k2, value: v2, right: r2 } = *left {
            assert(lt(k2, key));
            lemma_three_keys(q, k2, key);
            lemma_three_keys(k2, q, key);
            lemma_three_keys(k2, key, q);
            lemma_three_keys(key, q, k2);
        }
    }
}

proof fn lemma_mend_lookup<K: Ord, V>(g: Tree<K, V>, k: K, q: K, lo: Option<K>, hi: Option<K>)
    requires
        lawful::<K>(),
        g.ordered(lo, hi, true),
    ensures
        g.mend(k).lookup(q) == g.lookup(q),
{
    if let Tree::Node { color, left, key, value, right } = g {
        let p = g.toward(k);
        let u = g.away(k);
        if p.is_red() && p.toward(k).is_red() {
            if lt(k, key) {
                lemma_rotate_lookup(p, q, lo, Some(key));
                lemma_rotate_lookup(u, q, Some(key), hi);
                if !u.is_red() {
                    let r = if lt(k, p->key) {
                        p
                    } else {
                        p.rotate_left()
                    };
                    lemma_rotate_left_ordered(p, lo, Some(key), true);
                    lemma_rotate_lookup(r, q, lo, Some(key));
                    lemma_paint_ordered(r, Color::Black, lo, Some(key), true);
                    let g2 = Tree::node(Color::Red, r.blacken(), key, value, u);
                    assert(g2.ordered(lo, hi, true));
                    assert(g2.lookup(q) == g.lookup(q));
                    lemma_rotate_lookup(g2, q, lo, hi);
                }
            } else {
                lemma_rotate_lookup(p, q, Some(key), hi);
                lemma_rotate_lookup(u, q, lo, Some(key));
                if !u.is_red() {
                    let r = if lt(k, p->key) {
                        p.rotate_right()
                    } else {
                        p
                    };
                    lemma_rotate_right_ordered(p, Some(key), hi, true);
                    lemma_rotate_lookup(r, q, Some(key), hi);
                    lemma_paint_ordered(r, Color::Black, Some(key), hi, true);
                    let g2 = Tree::node(Color::Red, u, key, value, r.blacken());
                    assert(g2.ordered(lo, hi, true));
                    assert(g2.lookup(q) == g.lookup(q));
                    lemma_rotate_lookup(g2, q, lo, hi);
                }
            }
        }
    }
}

proof fn lemma_ins_lookup<K: Ord, V>(
    t: Tree<K, V>,
    k: K,
    v: V,
    q: K,
    lo: Option<K>,
    hi: Option<K>,
)
    requires
        lawful::<K>(),
        t.ordered(lo, hi, true),
        above(lo, k, true),
        below(k, hi, true),
        !t.has_key(k),
    ensures
        t.ins(k, v).lookup(q) == if same(q, k) {
            Some(v)
        } else {
            t.lookup(q)
        },
    decreases t,
{
    match t {
        Tree::Leaf => {
            reveal_with_fuel(Tree::search, 2);
        },
        Tree::Node { color, left, key, value, right } => {
            lemma_three_keys(q, k, key);
            lemma_three_keys(k, key, q);
            lemma_three_keys(key, q, k);
            lemma_three_keys(q, key, k);
            lemma_three_keys(k, q, key);
            lemma_three_keys(key, k, q);
            if same(q, key) && same(q, k) {
                lemma_same_transitive(k, q, key);
            }
            if lt(k, key) {
                lemma_ins_ordered(*left, k, v, lo, Some(key), true);
                lemma_ins_lookup(*left, k, v, q, lo, Some(key));
                let g = Tree::node(color, left.ins(k, v), key, value, *right);
                assert(g.ordered(lo, hi, true));
                lemma_mend_lookup(g, k, q, lo, hi);
            } else {
                lemma_ins_ordered(*right, k, v, Some(key), hi, true);
                lemma_ins_lookup(*right, k, v, q, Some(key), hi);
                let g = Tree::node(color, *left, key, value, right.ins(k, v));
                assert(g.ordered(lo, hi, true));
                lemma_mend_lookup(g, k, q, lo, hi);
            }
        },
    }
}

/* The laws of insertion and search */

/// Insertion keeps the search order: if at every node no key of the left
/// subtree is after the node's key and no key of the right subtree before
/// it, the same holds after an insertion.
pub proof fn lemma_insert_keeps_search_order<K: Ord, V>(t: Tree<K, V>, k: K, v: V)
    requires
        lawful::<K>(),
        t.is_search_tree(),
    ensures
        t.insert(k, v).is_search_tree(),
{
    lemma_ins_ordered(t, k, v, None, None, false);
    lemma_paint_ordered(t.ins(k, v), Color::Black, None, None, false);
}

/// Insertion of a key that the tree does not have keeps the strict search
/// order, in which no two keys compare equal.
pub proof fn lemma_insert_keeps_strict_order<K: Ord, V>(t: Tree<K, V>, k: K, v: V)
    requires
        lawful::<K>(),
        t.is_strict_search_tree(),
        !t.has_key(k),
    ensures
        t.insert(k, v).is_strict_search_tree(),
{
    lemma_ins_ordered(t, k, v, None, None, true);
    lemma_paint_ordered(t.ins(k, v), Color::Black, None, None, true);
}

/// In a search tree every key of a node's left subtree is at most the node's
/// key, and every key of its right subtree at least the node's key; in a
/// strict search tree they are strictly less and strictly greater. Both
/// subtrees are search trees of the same kind, so this holds at every node.
pub proof fn lemma_subtree_keys<K: Ord, V>(t: Tree<K, V>, x: K, strict: bool)
    requires
        lawful::<K>(),
        t.ordered(None, None, strict),
        t is Node,
    ensures
        t->left.has_key(x) ==> before(x, t->key, strict),
        t->right.has_key(x) ==> before(t->key, x, strict),
        t->left.ordered(None, None, strict),
        t->right.ordered(None, None, strict),
{
    let key = t->key;
    if t->left.has_key(x) {
        lemma_has_key_bounds(*t->left, x, None, Some(key), strict);
    }
    if t->right.has_key(x) {
        lemma_has_key_bounds(*t->right, x, Some(key), None, strict);
    }
    lemma_ordered_widen(*t->left, None, Some(key), strict, false, true);
    lemma_ordered_widen(*t->right, Some(key), None, strict, true, false);
}

/// What `lemma_subtree_keys` says of the root holds at every node of the
/// tree.
pub proof fn lemma_order_at_every_node<K: Ord, V>(
    t: Tree<K, V>,
    n: Tree<K, V>,
    x: K,
    strict: bool,
)
    requires
        lawful::<K>(),
        t.ordered(None, None, strict),
        t.has_subtree(n),
        n is Node,
    ensures
        n->left.has_key(x) ==> before(x, n->key, strict),
        n->right.has_key(x) ==> before(n->key, x, strict),
    decreases t,
{
    lemma_subtree_keys(t, x, strict);
    if t != n {
        if t->left.has_subtree(n) {
            lemma_order_at_every_node(*t->left, n, x, strict);
        } else {
            lemma_order_at_every_node(*t->right, n, x, strict);
        }
    }
}

/// In a balanced tree every path from the root to a leaf passes the same
/// number of black nodes: the tree's black height.
pub proof fn lemma_paths_count_alike<K, V>(t: Tree<K, V>, turns: Seq<bool>)
    requires
        t.is_balanced(),
    ensures
        t.blacks_along(turns) matches Some(n) ==> n == t.black_height(),
    decreases turns.len(),
{
    if let Tree::Node { left, right, .. } = t {
        if turns.len() > 0 {
            lemma_paths_count_alike(*left, turns.drop_first());
            lemma_paths_count_alike(*right, turns.drop_first());
        }
    }
}

/// Two to the power of `n`.
pub open spec fn two_to(n: nat) -> nat
    decreases n,
{
    if n == 0 {
        1
    } else {
        2 * two_to((n - 1) as nat)
    }
}

/// A tree that is balanced and has no red node with a red child is not
/// high: no path from the root to a leaf is longer than twice the black
/// height, and one more under a red root; and the tree has at least two to
/// the power of its black height, less one, nodes. So the height grows with
/// the logarithm of the number of nodes.
pub proof fn lemma_height_is_logarithmic<K, V>(t: Tree<K, V>)
    requires
        t.no_red_red(),
        t.is_balanced(),
    ensures
        t.height() <= 2 * t.black_height() + if t.is_red() {
            1nat
        } else {
            0nat
        },
        two_to(t.black_height()) <= t.size() + 1,
    decreases t,
{
    if let Tree::Node { left, right, .. } = t {
        lemma_height_is_logarithmic(*left);
        lemma_height_is_logarithmic(*right);
    }
}

/// A strict search tree is a search tree.
pub proof fn lemma_strict_is_search_tree<K: Ord, V>(
    t: Tree<K, V>,
    lo: Option<K>,
    hi: Option<K>,
)
    requires
        lawful::<K>(),
        t.ordered(lo, hi, true),
    ensures
        t.ordered(lo, hi, false),
    decreases t,
{
    if let Tree::Node { left, key, right, .. } = t {
        if let Some(l) = lo {
            lemma_lt_asymmetric(l, key);
        }
        if let Some(h) = hi {
            lemma_lt_asymmetric(key, h);
        }
        lemma_strict_is_search_tree(*left, lo, Some(key));
        lemma_strict_is_search_tree(*right, Some(key), hi);
    }
}

/// Insertion keeps the red-black properties: the root is black, no red node
/// has a red child, and all paths from a node down to a leaf pass the same
/// number of black nodes.
pub proof fn lemma_insert_keeps_red_black<K: Ord, V>(t: Tree<K, V>, k: K, v: V)
    requires
        t.is_red_black(),
    ensures
        t.insert(k, v).is_red_black(),
        t.insert(k, v) is Node,
{
    lemma_ins_red_black(t, k, v);
}

/// After an insertion the tree has the inserted key, and the keys that it
/// had before.
pub proof fn lemma_insert_has_key<K: Ord, V>(t: Tree<K, V>, k: K, v: V, q: K)
    ensures
        t.insert(k, v).has_key(q) == (t.has_key(q) || same(q, k)),
{
    lemma_ins_has_key(t, k, v, q);
    lemma_rotate_has_key(t.ins(k, v), q);
}

/// An insertion adds one entry and takes none away: the tree holds the
/// entries that it held before, each as often as before, and the new one
/// once more. It has one node more.
pub proof fn lemma_insert_adds_one_entry<K: Ord, V>(t: Tree<K, V>, k: K, v: V)
    ensures
        t.insert(k, v).entries() == t.entries().insert((k, v)),
        t.insert(k, v).size() == t.size() + 1,
{
    lemma_ins_entries(t, k, v);
    lemma_rotate_entries(t.ins(k, v));
    lemma_rotate_entries(t);
    lemma_rotate_entries(t.insert(k, v));
}

/// In a search tree a search finds a value for exactly the keys that the
/// tree has, and finds it at a node whose key compares equal.
pub proof fn lemma_lookup_finds_keys<K: Ord, V>(t: Tree<K, V>, q: K)
    requires
        lawful::<K>(),
        t.is_search_tree(),
    ensures
        t.lookup(q) is Some <==> t.has_key(q),
        t.search(q) is Node ==> same(q, t.search(q)->key),
{
    lemma_search_found(t, q, None, None);
}

/// After the insertion of a key that a strict search tree does not have, a
/// search for that key finds the inserted value, and a search for any other
/// key finds what it found before.
pub proof fn lemma_insert_then_lookup<K: Ord, V>(t: Tree<K, V>, k: K, v: V, q: K)
    requires
        lawful::<K>(),
        t.is_strict_search_tree(),
        !t.has_key(k),
    ensures
        t.insert(k, v).lookup(q) == if same(q, k) {
            Some(v)
        } else {
            t.lookup(q)
        },
{
    lemma_ins_lookup(t, k, v, q, None, None);
    lemma_ins_ordered(t, k, v, None, None, true);
    lemma_rotate_lookup(t.ins(k, v), q, None, None);
}

/// No two of the first `n` entries have keys that compare equal.
pub open spec fn distinct_keys<K: Ord, V>(entries: Seq<(K, V)>, n: nat) -> bool {
    forall|i: int, j: int| 0 <= i < j < n ==> !same(entries[i].0, entries[j].0)
}

/// After entries with distinct keys were inserted into an empty tree, in any
/// order, the tree is a strict search tree with the red-black properties, it
/// has the keys of the entries and no others, and a search for the key of an
/// entry finds the value of that entry.
pub proof fn lemma_entries_round_trip<K: Ord, V>(entries: Seq<(K, V)>, n: nat)
    requires
        lawful::<K>(),
        n <= entries.len(),
        distinct_keys(entries, n),
    ensures
        Tree::from_entries(entries, n).is_strict_search_tree(),
        Tree::from_entries(entries, n).is_red_black(),
        forall|q: K|
            Tree::from_entries(entries, n).has_key(q) <==> exists|j: int|
                0 <= j < n && same(q, #[trigger] entries[j].0),
        forall|i: int|
            0 <= i < n ==> Tree::from_entries(entries, n).lookup(#[trigger] entries[i].0) == Some(
                entries[i].1,
            ),
    decreases n,
{
    let t = Tree::from_entries(entries, n);
    if n > 0 {
        let m = (n - 1) as nat;
        let prev = Tree::from_entries(entries, m);
        let k = entries[n - 1].0;
        let v = entries[n - 1].1;
        lemma_entries_round_trip(entries, m);
        if prev.has_key(k) {
            let j = choose|j: int| 0 <= j < m && same(k, #[trigger] entries[j].0);
            assert(!same(entries[j].0, entries[n - 1].0));
        }
        lemma_insert_keeps_strict_order(prev, k, v);
        lemma_insert_keeps_red_black(prev, k, v);
        lemma_lt_irreflexive(k);
        assert forall|q: K| t.has_key(q) <==> exists|j: int|
            0 <= j < n && same(q, #[trigger] entries[j].0) by {
            lemma_insert_has_key(prev, k, v, q);
            if prev.has_key(q) {
                let j = choose|j: int| 0 <= j < m && same(q, #[trigger] entries[j].0);
                assert(0 <= j < n && same(q, entries[j].0));
            }
            if same(q, k) {
                assert(same(q, entries[n - 1].0));
            }
        }
        assert forall|i: int| 0 <= i < n implies t.lookup(#[trigger] entries[i].0) == Some(
            entries[i].1,
        ) by {
            lemma_insert_then_lookup(prev, k, v, entries[i].0);
        }
    }
}

} // verus!
