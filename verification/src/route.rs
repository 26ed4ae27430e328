use crate::order::lt;
use crate::tree::{Color, Tree};
use vstd::prelude::*;

// The way from the root of a tree down to one of its places, as the list of
// the nodes passed, and the tree seen as what stands at that place, plugged
// into the way.

verus! {

/// One node on the way from the root down to a place in the tree, seen from
/// that place: what the node holds, on which side the way goes on, and the
/// subtree on the other side.
pub struct Frame<K, V> {
    pub go_left: bool,
    pub color: Color,
    pub key: K,
    pub value: V,
    pub sibling: Tree<K, V>,
}

impl<K, V> Frame<K, V> {
    /// The tree at this node when `sub` is the subtree on the way's side.
    pub open spec fn fill(self, sub: Tree<K, V>) -> Tree<K, V> {
        if self.go_left {
            Tree::node(self.color, sub, self.key, self.value, self.sibling)
        } else {
            Tree::node(self.color, self.sibling, self.key, self.value, sub)
        }
    }
}

/// The whole tree, when `sub` stands at the end of the way `ctx`, whose
/// first frame is the root.
pub open spec fn plug<K, V>(ctx: Seq<Frame<K, V>>, sub: Tree<K, V>) -> Tree<K, V>
    decreases ctx.len(),
{
    if ctx.len() == 0 {
        sub
    } else {
        plug(ctx.drop_last(), ctx.last().fill(sub))
    }
}

/// The whole tree, when `sub` stands at the end of the way `ctx` and every
/// node of the way is mended for `k` on the way back up.
pub open spec fn rebuild<K: Ord, V>(ctx: Seq<Frame<K, V>>, sub: Tree<K, V>, k: K) -> Tree<K, V>
    decreases ctx.len(),
{
    if ctx.len() == 0 {
        sub
    } else {
        rebuild(ctx.drop_last(), ctx.last().fill(sub).mend(k), k)
    }
}

/// At its `j`-th node the way `ctx` goes on to the side where `k` belongs,
/// and if that node is red, neither the node before it nor the root of the
/// subtree beside the way is red.
pub open spec fn calm_at<K: Ord, V>(ctx: Seq<Frame<K, V>>, k: K, j: int) -> bool {
    &&& ctx[j].go_left == lt(k, ctx[j].key)
    &&& ctx[j].color == Color::Red ==> !ctx[j].sibling.is_red() && (j > 0 ==> ctx[j - 1].color
        == Color::Black)
}

/// The way `ctx` is the way on which `k` belongs, and on it no red node has
/// a red child.
pub open spec fn calm<K: Ord, V>(ctx: Seq<Frame<K, V>>, k: K) -> bool {
    forall|j: int| 0 <= j < ctx.len() ==> #[trigger] calm_at(ctx, k, j)
}

/// Nothing is left to mend above `sub` on the way `ctx`: `sub` has a black
/// root, or it has a red root under a black node and its child on `k`'s
/// side is black.
pub open spec fn quiet<K: Ord, V>(ctx: Seq<Frame<K, V>>, sub: Tree<K, V>, k: K) -> bool {
    sub.is_red() ==> !sub.toward(k).is_red() && (ctx.len() > 0 ==> ctx.last().color
        == Color::Black)
}

/// A way with one frame more at its end fills that frame first.
pub(crate) proof fn lemma_rebuild_push<K: Ord, V>(
    ctx: Seq<Frame<K, V>>,
    f: Frame<K, V>,
    sub: Tree<K, V>,
    k: K,
)
    ensures
        rebuild(ctx.push(f), sub, k) == rebuild(ctx, f.fill(sub).mend(k), k),
        plug(ctx.push(f), sub) == plug(ctx, f.fill(sub)),
{
    assert(ctx.push(f).drop_last() =~= ctx);
}

/// Where nothing is left to mend, mending on the way up changes nothing.
pub(crate) proof fn lemma_rebuild_quiet<K: Ord, V>(ctx: Seq<Frame<K, V>>, sub: Tree<K, V>, k: K)
    requires
        calm(ctx, k),
        quiet(ctx, sub, k),
    ensures
        rebuild(ctx, sub, k) == plug(ctx, sub),
    decreases ctx.len(),
{
    if ctx.len() > 0 {
        let f = ctx.last();
        let g = f.fill(sub);
        assert(calm_at(ctx, k, ctx.len() - 1));
        assert(g.toward(k) == sub);
        assert(g.mend(k) == g);
        let rest = ctx.drop_last();
        assert(calm_at(ctx, k, ctx.len() - 1));
        assert forall|j: int| 0 <= j < rest.len() implies #[trigger] calm_at(rest, k, j) by {
            assert(calm_at(ctx, k, j));
        }
        lemma_rebuild_quiet(rest, g, k);
    }
}

/// One round of mending: below a red node, a red subtree whose child on
/// `k`'s side is black is mended at the node above the red node.
pub(crate) proof fn lemma_rebuild_step<K: Ord, V>(ctx: Seq<Frame<K, V>>, z: Tree<K, V>, k: K)
    requires
        calm(ctx, k),
        ctx.len() >= 2,
        ctx.last().color == Color::Red,
        z.is_red(),
        !z.toward(k).is_red(),
    ensures
        rebuild(ctx, z, k) == rebuild(
            ctx.subrange(0, ctx.len() - 2),
            ctx[ctx.len() - 2].fill(ctx.last().fill(z)).mend(k),
            k,
        ),
        ctx[ctx.len() - 2].fill(ctx.last().fill(z)).toward(k) == ctx.last().fill(z),
        ctx.last().fill(z).toward(k) == z,
{
    let p = ctx.last();
    let g = ctx[ctx.len() - 2];
    let pt = p.fill(z);
    assert(calm_at(ctx, k, ctx.len() - 1));
    assert(calm_at(ctx, k, ctx.len() - 2));
    assert(pt.toward(k) == z);
    assert(pt.mend(k) == pt);
    let rest = ctx.drop_last();
    assert(rest.last() == g);
    assert(rest.drop_last() =~= ctx.subrange(0, ctx.len() - 2));
    assert(rebuild(ctx, z, k) == rebuild(rest, pt, k));
}

/// The frame of the root of `t` on the way on which `k` belongs.
pub open spec fn frame_of<K: Ord, V>(t: Tree<K, V>, k: K) -> Frame<K, V> {
    Frame {
        go_left: lt(k, t->key),
        color: t->color,
        key: t->key,
        value: t->value,
        sibling: t.away(k),
    }
}

/// The way on which `k` belongs goes one node further down, into the
/// subtree `t` at its end.
pub(crate) proof fn lemma_way_down<K: Ord, V>(ctx: Seq<Frame<K, V>>, t: Tree<K, V>, k: K, v: V)
    requires
        t is Node,
        calm(ctx, k),
        t.no_red_red(),
        ctx.len() > 0 && ctx.last().color == Color::Red ==> !t.is_red(),
    ensures
        calm(ctx.push(frame_of(t, k)), k),
        rebuild(ctx.push(frame_of(t, k)), t.toward(k).ins(k, v), k) == rebuild(ctx, t.ins(k, v), k),
        t.toward(k).no_red_red(),
        t.is_red() ==> !t.toward(k).is_red(),
        frame_of(t, k).fill(t.toward(k)) == t,
{
    let f = frame_of(t, k);
    let ctx2 = ctx.push(f);
    lemma_rebuild_push(ctx, f, t.toward(k).ins(k, v), k);
    assert(f.fill(t.toward(k).ins(k, v)).mend(k) == t.ins(k, v));
    assert forall|j: int| 0 <= j < ctx2.len() implies #[trigger] calm_at(ctx2, k, j) by {
        if j < ctx.len() {
            assert(calm_at(ctx, k, j));
        } else if j > 0 {
            assert(calm_at(ctx, k, j - 1));
        }
    }
}

} // verus!
