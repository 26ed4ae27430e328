use crate::node::{Node, NodeLink};
use crate::route::{plug, Frame};
use crate::tree::{Color, Tree};
use vstd::prelude::*;

// How the nodes of an arena form a tree, at rest and while an insertion is
// under way. Beside the nodes stands, for each node, the model of the subtree
// below it. During an insertion the nodes above the place of work, the way
// from the root to the hole, wait with stale models; every other node's
// model is right at every step, and at the end the way is settled from the
// hole up to the root.

verus! {

/// The model of the subtree below a link, where `shape` holds for each node
/// the model of the subtree below it.
pub open spec fn tree_at<K, V>(shape: Seq<Tree<K, V>>, l: NodeLink) -> Tree<K, V> {
    match l.inner {
        None => Tree::Leaf,
        Some(i) => shape[i as int],
    }
}

/// The links of node `i` lead to nodes of the arena, its children are two
/// different nodes, and each child has node `i` as its parent.
pub open spec fn links_ok<K, V>(nodes: Seq<Node<K, V>>, i: int) -> bool {
    let n = nodes[i];
    &&& n.parent.valid(nodes)
    &&& n.left.valid(nodes)
    &&& n.right.valid(nodes)
    &&& (n.left.inner is Some ==> nodes[n.left.at()].parent.inner is Some && nodes[n.left.at()].parent.at() == i)
    &&& (n.right.inner is Some ==> nodes[n.right.at()].parent.inner is Some && nodes[n.right.at()].parent.at() == i)
    &&& (n.left.inner is Some ==> n.left != n.right)
}

/// The model of the subtree below node `i` is made of what the node holds
/// and of the models of the subtrees below its children.
pub open spec fn shape_ok<K, V>(nodes: Seq<Node<K, V>>, shape: Seq<Tree<K, V>>, i: int) -> bool {
    shape[i] == Tree::node(
        nodes[i].color,
        tree_at(shape, nodes[i].left),
        nodes[i].key,
        nodes[i].value,
        tree_at(shape, nodes[i].right),
    )
}

/// The links of every node are in order.
pub open spec fn all_links_ok<K, V>(nodes: Seq<Node<K, V>>) -> bool {
    forall|i: int| 0 <= i < nodes.len() ==> #[trigger] links_ok(nodes, i)
}

/// Node `i` is one of the nodes of `path`.
pub open spec fn on_path(path: Seq<usize>, i: int) -> bool {
    exists|j: int| 0 <= j < path.len() && #[trigger] path[j] as int == i
}

/// The model of the subtree is right for every node that is not on `path`.
pub open spec fn off_path_ok<K, V>(
    nodes: Seq<Node<K, V>>,
    shape: Seq<Tree<K, V>>,
    path: Seq<usize>,
) -> bool {
    forall|i: int|
        0 <= i < nodes.len() && !on_path(path, i) ==> #[trigger] shape_ok(nodes, shape, i)
}

/// The link at position `j` of the way: to the `j`-th node of `path`, and
/// after the last of them to `hole`.
pub open spec fn link_at(path: Seq<usize>, hole: NodeLink, j: int) -> NodeLink {
    if 0 <= j < path.len() {
        NodeLink { inner: Some(path[j]) }
    } else {
        hole
    }
}

/// The link to the node before position `j` of the way; the sentinel before
/// the first.
pub open spec fn link_up(path: Seq<usize>, j: int) -> NodeLink {
    if 0 < j <= path.len() {
        NodeLink { inner: Some(path[j - 1]) }
    } else {
        NodeLink::nil()
    }
}

/// The link to the last node of the way; the sentinel where it has none.
pub open spec fn last_link(path: Seq<usize>) -> NodeLink {
    link_up(path, path.len() as int)
}

/// The `j`-th node of the way is in the arena, the way goes on to its child
/// on the side that the frame names, it comes from its parent, and the frame
/// holds what the node holds and the model of the subtree on the other side.
pub open spec fn on_route<K, V>(
    nodes: Seq<Node<K, V>>,
    shape: Seq<Tree<K, V>>,
    path: Seq<usize>,
    ctx: Seq<Frame<K, V>>,
    hole: NodeLink,
    j: int,
) -> bool {
    let n = nodes[path[j] as int];
    let f = ctx[j];
    &&& (path[j] as int) < nodes.len()
    &&& n.child(f.go_left) == link_at(path, hole, j + 1)
    &&& n.parent == link_up(path, j)
    &&& f.color == n.color
    &&& f.key == n.key
    &&& f.value == n.value
    &&& f.sibling == tree_at(shape, n.child(!f.go_left))
}

/// `path` is a way from the root down to `hole`, described by `ctx`: each
/// of its nodes is the child of the one before, none occurs twice, and
/// `hole` is none of them.
pub open spec fn route<K, V>(
    nodes: Seq<Node<K, V>>,
    shape: Seq<Tree<K, V>>,
    root: NodeLink,
    path: Seq<usize>,
    ctx: Seq<Frame<K, V>>,
    hole: NodeLink,
) -> bool {
    &&& path.len() == ctx.len()
    &&& hole.valid(nodes)
    &&& root == link_at(path, hole, 0)
    &&& forall|j: int| 0 <= j < path.len() ==> #[trigger] on_route(nodes, shape, path, ctx, hole, j)
    &&& forall|i: int, j: int| 0 <= i < j < path.len() ==> path[i] != path[j]
    &&& hole.inner is Some ==> !on_path(path, hole.at()) && nodes[hole.at()].parent == link_up(
        path,
        path.len() as int,
    )
}

/// The state of the arena while the nodes of `path` wait to be settled: all
/// links are in order, `path` is a way from the root to `hole`, and the
/// models of the subtrees are right for every node that is not on the way.
pub open spec fn inv<K, V>(
    nodes: Seq<Node<K, V>>,
    shape: Seq<Tree<K, V>>,
    root: NodeLink,
    path: Seq<usize>,
    ctx: Seq<Frame<K, V>>,
    hole: NodeLink,
) -> bool {
    &&& shape.len() == nodes.len()
    &&& all_links_ok(nodes)
    &&& off_path_ok(nodes, shape, path)
    &&& route(nodes, shape, root, path, ctx, hole)
}

/// The state of the arena at rest: all links are in order, the root has no
/// parent, and the models of the subtrees are right for every node.
pub open spec fn settled<K, V>(
    nodes: Seq<Node<K, V>>,
    shape: Seq<Tree<K, V>>,
    root: NodeLink,
) -> bool {
    inv(nodes, shape, root, Seq::<usize>::empty(), Seq::<Frame<K, V>>::empty(), root)
}

/// The subtree beside the way at its `j`-th node is off the way, and so its
/// model is right.
pub(crate) proof fn lemma_sibling<K, V>(
    nodes: Seq<Node<K, V>>,
    shape: Seq<Tree<K, V>>,
    root: NodeLink,
    path: Seq<usize>,
    ctx: Seq<Frame<K, V>>,
    hole: NodeLink,
    j: int,
)
    requires
        inv(nodes, shape, root, path, ctx, hole),
        0 <= j < path.len(),
    ensures
        ({
            let s = nodes[path[j] as int].child(!ctx[j].go_left);
            &&& s.valid(nodes)
            &&& tree_at(shape, s) == ctx[j].sibling
            &&& s.inner is Some ==> {
                &&& !on_path(path, s.at())
                &&& s != hole
                &&& shape_ok(nodes, shape, s.at())
                &&& nodes[s.at()].parent == (NodeLink { inner: Some(path[j]) })
            }
        }),
{
    let n = nodes[path[j] as int];
    let s = n.child(!ctx[j].go_left);
    assert(on_route(nodes, shape, path, ctx, hole, j));
    assert(links_ok(nodes, path[j] as int));
    if s.inner is Some {
        if on_path(path, s.at()) {
            let m = choose|m: int| 0 <= m < path.len() && #[trigger] path[m] as int == s.at();
            assert(on_route(nodes, shape, path, ctx, hole, m));
            assert(m > 0 && path[m - 1] == path[j]);
            assert(m - 1 == j);
            assert(false);
        }
        if s == hole {
            assert(j == path.len() - 1);
            assert(false);
        }
    }
}

/// The last node of the way is settled: its model is made of its frame and
/// the model at the hole, and it becomes the hole of the way before it.
pub(crate) proof fn lemma_pop<K, V>(
    nodes: Seq<Node<K, V>>,
    shape: Seq<Tree<K, V>>,
    root: NodeLink,
    path: Seq<usize>,
    ctx: Seq<Frame<K, V>>,
    hole: NodeLink,
)
    requires
        inv(nodes, shape, root, path, ctx, hole),
        path.len() > 0,
    ensures
        inv(
            nodes,
            shape.update(path.last() as int, ctx.last().fill(tree_at(shape, hole))),
            root,
            path.drop_last(),
            ctx.drop_last(),
            NodeLink { inner: Some(path.last()) },
        ),
{
    let n = path.len() as int;
    let p = path.last() as int;
    let f = ctx.last();
    let t = f.fill(tree_at(shape, hole));
    let shape2 = shape.update(p, t);
    let path2 = path.drop_last();
    let ctx2 = ctx.drop_last();
    let hole2 = NodeLink { inner: Some(path.last()) };
    assert(on_route(nodes, shape, path, ctx, hole, n - 1));
    assert(links_ok(nodes, p));
    lemma_sibling(nodes, shape, root, path, ctx, hole, n - 1);
    assert(!on_path(path2, p)) by {
        if on_path(path2, p) {
            let m = choose|m: int| 0 <= m < path2.len() && #[trigger] path2[m] as int == p;
            assert(path[m] != path[n - 1]);
        }
    }
    assert forall|j: int| 0 <= j < path2.len() implies #[trigger] on_route(
        nodes,
        shape2,
        path2,
        ctx2,
        hole2,
        j,
    ) by {
        assert(on_route(nodes, shape, path, ctx, hole, j));
        lemma_sibling(nodes, shape, root, path, ctx, hole, j);
        assert(path[j] != path[n - 1]);
    }
    assert forall|i: int| 0 <= i < nodes.len() && !on_path(path2, i) implies #[trigger] shape_ok(
        nodes,
        shape2,
        i,
    ) by {
        if i == p {
            assert(nodes[p].child(f.go_left) == hole);
            assert(tree_at(shape2, hole) == tree_at(shape, hole));
        } else {
            assert(!on_path(path, i)) by {
                if on_path(path, i) {
                    let m = choose|m: int| 0 <= m < path.len() && #[trigger] path[m] as int == i;
                    assert(path2[m] as int == i);
                }
            }
            assert(shape_ok(nodes, shape, i));
            assert(links_ok(nodes, i));
            if nodes[i].left.inner is Some && nodes[i].left.at() == p {
                assert(n >= 2 && path[n - 2] as int == i);
                assert(false);
            }
            if nodes[i].right.inner is Some && nodes[i].right.at() == p {
                assert(n >= 2 && path[n - 2] as int == i);
                assert(false);
            }
        }
    }
}

/// All nodes of the way are settled, from the last up to the root. The
/// whole tree is then what stood at the hole, plugged into the way.
pub(crate) proof fn lemma_settle<K, V>(
    nodes: Seq<Node<K, V>>,
    shape: Seq<Tree<K, V>>,
    root: NodeLink,
    path: Seq<usize>,
    ctx: Seq<Frame<K, V>>,
    hole: NodeLink,
) -> (done: Seq<Tree<K, V>>)
    requires
        inv(nodes, shape, root, path, ctx, hole),
    ensures
        settled(nodes, done, root),
        tree_at(done, root) == plug(ctx, tree_at(shape, hole)),
    decreases path.len(),
{
    if path.len() == 0 {
        assert(path =~= Seq::<usize>::empty());
        assert(ctx =~= Seq::<Frame<K, V>>::empty());
        shape
    } else {
        let p = path.last() as int;
        let t = ctx.last().fill(tree_at(shape, hole));
        lemma_pop(nodes, shape, root, path, ctx, hole);
        lemma_settle(
            nodes,
            shape.update(p, t),
            root,
            path.drop_last(),
            ctx.drop_last(),
            NodeLink { inner: Some(path.last()) },
        )
    }
}

/// No tree is its own child.
pub(crate) proof fn lemma_not_own_child<K, V>(t: Tree<K, V>)
    requires
        t is Node,
    ensures
        *t->left != t,
        *t->right != t,
{
    assert(t->left.height() < t.height());
    assert(t->right.height() < t.height());
}

/// A child of a node that is off the way is off the way too, and is another
/// node than its parent.
pub(crate) proof fn lemma_child_off_path<K, V>(
    nodes: Seq<Node<K, V>>,
    shape: Seq<Tree<K, V>>,
    root: NodeLink,
    path: Seq<usize>,
    ctx: Seq<Frame<K, V>>,
    hole: NodeLink,
    i: int,
    go_left: bool,
)
    requires
        inv(nodes, shape, root, path, ctx, hole),
        0 <= i < nodes.len(),
        !on_path(path, i),
        nodes[i].child(go_left).inner is Some,
    ensures
        ({
            let c = nodes[i].child(go_left);
            &&& c.at() < nodes.len()
            &&& !on_path(path, c.at())
            &&& c.at() != i
            &&& c != hole
            &&& shape_ok(nodes, shape, c.at())
            &&& nodes[c.at()].parent == NodeLink { inner: Some(i as usize) }
        }),
{
    let c = nodes[i].child(go_left);
    assert(links_ok(nodes, i));
    assert(shape_ok(nodes, shape, i));
    if on_path(path, c.at()) {
        let m = choose|m: int| 0 <= m < path.len() && #[trigger] path[m] as int == c.at();
        assert(on_route(nodes, shape, path, ctx, hole, m));
        assert(m > 0 && path[m - 1] as int == i);
        assert(false);
    }
    assert(shape_ok(nodes, shape, c.at()));
    lemma_not_own_child(shape[i]);
    if c == hole {
        if path.len() > 0 {
            assert(path[path.len() - 1] as int == i);
        }
        assert(false);
    }
}

/// The nodes of `b` hold, each at its place, the keys and values that the
/// nodes of `a` hold.
pub open spec fn same_entries<K, V>(a: Seq<Node<K, V>>, b: Seq<Node<K, V>>) -> bool {
    &&& a.len() == b.len()
    &&& forall|i: int|
        0 <= i < a.len() ==> (#[trigger] b[i]).key == a[i].key && b[i].value == a[i].value
}

/// The node with another colour.
pub open spec fn painted<K, V>(n: Node<K, V>, c: Color) -> Node<K, V> {
    Node { color: c, ..n }
}

/// The node at the hole may change its colour: the model of its subtree
/// changes its root's colour with it.
pub(crate) proof fn lemma_paint_hole<K, V>(
    nodes: Seq<Node<K, V>>,
    shape: Seq<Tree<K, V>>,
    root: NodeLink,
    path: Seq<usize>,
    ctx: Seq<Frame<K, V>>,
    hole: NodeLink,
    c: Color,
)
    requires
        inv(nodes, shape, root, path, ctx, hole),
        hole.inner is Some,
    ensures
        inv(
            nodes.update(hole.at(), painted(nodes[hole.at()], c)),
            shape.update(hole.at(), shape[hole.at()].paint(c)),
            root,
            path,
            ctx,
            hole,
        ),
{
    let h = hole.at();
    let nodes2 = nodes.update(h, painted(nodes[h], c));
    let shape2 = shape.update(h, shape[h].paint(c));
    assert(shape_ok(nodes, shape, h));
    assert(links_ok(nodes, h));
    lemma_not_own_child(shape[h]);
    assert forall|i: int| 0 <= i < nodes2.len() implies #[trigger] links_ok(nodes2, i) by {
        assert(links_ok(nodes, i));
    }
    assert forall|j: int| 0 <= j < path.len() implies #[trigger] on_route(
        nodes2,
        shape2,
        path,
        ctx,
        hole,
        j,
    ) by {
        assert(on_route(nodes, shape, path, ctx, hole, j));
        lemma_sibling(nodes, shape, root, path, ctx, hole, j);
    }
    assert forall|i: int| 0 <= i < nodes2.len() && !on_path(path, i) implies #[trigger] shape_ok(
        nodes2,
        shape2,
        i,
    ) by {
        assert(shape_ok(nodes, shape, i));
        assert(links_ok(nodes, i));
        if i == h {
            if nodes[h].left.inner is Some {
                lemma_child_off_path(nodes, shape, root, path, ctx, hole, h, true);
            }
            if nodes[h].right.inner is Some {
                lemma_child_off_path(nodes, shape, root, path, ctx, hole, h, false);
            }
        } else {
            if nodes[i].left.inner is Some {
                lemma_child_off_path(nodes, shape, root, path, ctx, hole, i, true);
            }
            if nodes[i].right.inner is Some {
                lemma_child_off_path(nodes, shape, root, path, ctx, hole, i, false);
            }
        }
    }
}

/// The node beside the way at its `j`-th node may change its colour: the
/// model of its subtree changes its root's colour with it, in the frame too.
pub(crate) proof fn lemma_paint_sibling<K, V>(
    nodes: Seq<Node<K, V>>,
    shape: Seq<Tree<K, V>>,
    root: NodeLink,
    path: Seq<usize>,
    ctx: Seq<Frame<K, V>>,
    hole: NodeLink,
    j: int,
    c: Color,
)
    requires
        inv(nodes, shape, root, path, ctx, hole),
        0 <= j < path.len(),
        nodes[path[j] as int].child(!ctx[j].go_left).inner is Some,
    ensures
        ({
            let s = nodes[path[j] as int].child(!ctx[j].go_left).at();
            inv(
                nodes.update(s, painted(nodes[s], c)),
                shape.update(s, shape[s].paint(c)),
                root,
                path,
                ctx.update(j, Frame { sibling: ctx[j].sibling.paint(c), ..ctx[j] }),
                hole,
            )
        }),
{
    let sl = nodes[path[j] as int].child(!ctx[j].go_left);
    let s = sl.at();
    let nodes2 = nodes.update(s, painted(nodes[s], c));
    let shape2 = shape.update(s, shape[s].paint(c));
    let ctx2 = ctx.update(j, Frame { sibling: ctx[j].sibling.paint(c), ..ctx[j] });
    lemma_sibling(nodes, shape, root, path, ctx, hole, j);
    assert(links_ok(nodes, s));
    lemma_not_own_child(shape[s]);
    assert forall|i: int| 0 <= i < nodes2.len() implies #[trigger] links_ok(nodes2, i) by {
        assert(links_ok(nodes, i));
    }
    assert forall|m: int| 0 <= m < path.len() implies #[trigger] on_route(
        nodes2,
        shape2,
        path,
        ctx2,
        hole,
        m,
    ) by {
        assert(on_route(nodes, shape, path, ctx, hole, m));
        lemma_sibling(nodes, shape, root, path, ctx, hole, m);
        if m != j {
            assert(path[m] != path[j]);
        }
    }
    assert forall|i: int| 0 <= i < nodes2.len() && !on_path(path, i) implies #[trigger] shape_ok(
        nodes2,
        shape2,
        i,
    ) by {
        assert(shape_ok(nodes, shape, i));
        assert(links_ok(nodes, i));
        if nodes[i].left.inner is Some {
            lemma_child_off_path(nodes, shape, root, path, ctx, hole, i, true);
        }
        if nodes[i].right.inner is Some {
            lemma_child_off_path(nodes, shape, root, path, ctx, hole, i, false);
        }
    }
}

/// The way goes one node further down: the node at the hole joins the way,
/// and its child on the side `go_left` is the new hole.
pub(crate) proof fn lemma_descend<K, V>(
    nodes: Seq<Node<K, V>>,
    shape: Seq<Tree<K, V>>,
    root: NodeLink,
    path: Seq<usize>,
    ctx: Seq<Frame<K, V>>,
    hole: NodeLink,
    go_left: bool,
)
    requires
        inv(nodes, shape, root, path, ctx, hole),
        hole.inner is Some,
    ensures
        ({
            let n = nodes[hole.at()];
            inv(
                nodes,
                shape,
                root,
                path.push(hole.inner.unwrap()),
                ctx.push(
                    Frame {
                        go_left,
                        color: n.color,
                        key: n.key,
                        value: n.value,
                        sibling: tree_at(shape, n.child(!go_left)),
                    },
                ),
                n.child(go_left),
            )
        }),
{
    let h = hole.at();
    let n = nodes[h];
    let f = Frame {
        go_left,
        color: n.color,
        key: n.key,
        value: n.value,
        sibling: tree_at(shape, n.child(!go_left)),
    };
    let path2 = path.push(hole.inner.unwrap());
    let ctx2 = ctx.push(f);
    let hole2 = n.child(go_left);
    assert(links_ok(nodes, h));
    if hole2.inner is Some {
        lemma_child_off_path(nodes, shape, root, path, ctx, hole, h, go_left);
        if on_path(path2, hole2.at()) {
            let m = choose|m: int| 0 <= m < path2.len() && #[trigger] path2[m] as int == hole2.at();
            if m < path.len() {
                assert(path[m] as int == hole2.at());
            }
            assert(false);
        }
    }
    assert forall|j: int| 0 <= j < path2.len() implies #[trigger] on_route(
        nodes,
        shape,
        path2,
        ctx2,
        hole2,
        j,
    ) by {
        if j < path.len() {
            assert(on_route(nodes, shape, path, ctx, hole, j));
        }
    }
    assert forall|i: int, j: int| 0 <= i < j < path2.len() implies path2[i] != path2[j] by {
        if j == path.len() {
            assert(path[i] as int != h);
        }
    }
    assert forall|i: int| 0 <= i < nodes.len() && !on_path(path2, i) implies #[trigger] shape_ok(
        nodes,
        shape,
        i,
    ) by {
        if on_path(path, i) {
            let m = choose|m: int| 0 <= m < path.len() && #[trigger] path[m] as int == i;
            assert(path2[m] as int == i);
        }
    }
}

/// The node with another child on one side.
pub open spec fn with_child<K, V>(n: Node<K, V>, go_left: bool, c: NodeLink) -> Node<K, V> {
    if go_left {
        Node { left: c, ..n }
    } else {
        Node { right: c, ..n }
    }
}

/// Node `i` after the rotation at `x` in which `x` goes down to the left, if
/// `down_left`, or else to the right, and its child on the other side takes
/// its place. That child's subtree on the side to which `x` goes becomes the
/// subtree of `x` on the side from which the child came. Only links change,
/// and only those of `x`, of the child, of the root of the subtree that
/// moves, and of the parent of `x`.
pub open spec fn turned<K, V>(
    nodes: Seq<Node<K, V>>,
    x: NodeLink,
    down_left: bool,
    i: int,
) -> Node<K, V> {
    let xn = nodes[x.at()];
    let y = xn.child(!down_left);
    let yn = nodes[y.at()];
    let b = yn.child(down_left);
    let p = xn.parent;
    if i == x.at() {
        with_child(Node { parent: y, ..xn }, !down_left, b)
    } else if i == y.at() {
        with_child(Node { parent: p, ..yn }, down_left, x)
    } else if b.inner is Some && i == b.at() {
        Node { parent: x, ..nodes[i] }
    } else if p.inner is Some && i == p.at() {
        if nodes[i].left == x {
            Node { left: y, ..nodes[i] }
        } else {
            Node { right: y, ..nodes[i] }
        }
    } else {
        nodes[i]
    }
}

/// The model of a subtree after the rotation at its root.
pub open spec fn turned_tree<K, V>(t: Tree<K, V>, down_left: bool) -> Tree<K, V> {
    if down_left {
        t.rotate_left()
    } else {
        t.rotate_right()
    }
}

/// The models of the subtrees after the rotation at `x`.
pub open spec fn turned_shape<K, V>(
    nodes: Seq<Node<K, V>>,
    shape: Seq<Tree<K, V>>,
    x: NodeLink,
    down_left: bool,
) -> Seq<Tree<K, V>> {
    let y = nodes[x.at()].child(!down_left);
    let top = turned_tree(shape[x.at()], down_left);
    let low = if down_left {
        *top->left
    } else {
        *top->right
    };
    shape.update(x.at(), low).update(y.at(), top)
}

/// The nodes that take part in a rotation at the hole are different nodes,
/// and none of them is on the way but the parent of the hole.
pub(crate) proof fn lemma_turn_apart<K, V>(
    nodes: Seq<Node<K, V>>,
    shape: Seq<Tree<K, V>>,
    root: NodeLink,
    path: Seq<usize>,
    ctx: Seq<Frame<K, V>>,
    x: NodeLink,
    down_left: bool,
)
    requires
        inv(nodes, shape, root, path, ctx, x),
        x.inner is Some,
        nodes[x.at()].child(!down_left).inner is Some,
    ensures
        ({
            let xn = nodes[x.at()];
            let y = xn.child(!down_left);
            let yn = nodes[y.at()];
            let b = yn.child(down_left);
            let p = xn.parent;
            &&& y.at() < nodes.len()
            &&& y.at() != x.at()
            &&& !on_path(path, x.at())
            &&& !on_path(path, y.at())
            &&& yn.parent == x
            &&& shape_ok(nodes, shape, x.at())
            &&& shape_ok(nodes, shape, y.at())
            &&& p == link_up(path, path.len() as int)
            &&& p.inner is Some ==> {
                &&& on_path(path, p.at())
                &&& p.at() < nodes.len()
                &&& p.at() != x.at()
                &&& p.at() != y.at()
                &&& nodes[p.at()].child(ctx.last().go_left) == x
                &&& (nodes[p.at()].left == x) == ctx.last().go_left
                &&& (nodes[p.at()].right == x) == !ctx.last().go_left
            }
            &&& b.inner is Some ==> {
                &&& b.at() < nodes.len()
                &&& b.at() != x.at()
                &&& b.at() != y.at()
                &&& !on_path(path, b.at())
                &&& nodes[b.at()].parent == y
            }
        }),
{
    let xi = x.at();
    let xn = nodes[xi];
    let y = xn.child(!down_left);
    let yn = nodes[y.at()];
    let b = yn.child(down_left);
    let p = xn.parent;
    lemma_child_off_path(nodes, shape, root, path, ctx, x, xi, !down_left);
    assert(links_ok(nodes, xi));
    assert(links_ok(nodes, y.at()));
    if p.inner is Some {
        let n = path.len() as int;
        assert(on_route(nodes, shape, path, ctx, x, n - 1));
        assert(path[n - 1] as int == p.at());
        assert(links_ok(nodes, p.at()));
    }
    if b.inner is Some {
        lemma_child_off_path(nodes, shape, root, path, ctx, x, y.at(), down_left);
    }
}

/// A rotation at the hole keeps the state of the arena in order. The node
/// that came up is the new hole, and the model of its subtree is the model
/// of the subtree that stood at the hole, rotated.
pub(crate) proof fn lemma_rotate<K, V>(
    nodes: Seq<Node<K, V>>,
    nodes2: Seq<Node<K, V>>,
    shape: Seq<Tree<K, V>>,
    root: NodeLink,
    path: Seq<usize>,
    ctx: Seq<Frame<K, V>>,
    x: NodeLink,
    down_left: bool,
)
    requires
        inv(nodes, shape, root, path, ctx, x),
        x.inner is Some,
        nodes[x.at()].child(!down_left).inner is Some,
        nodes2.len() == nodes.len(),
        forall|i: int| 0 <= i < nodes.len() ==> #[trigger] nodes2[i] == turned(nodes, x, down_left, i),
    ensures
        ({
            let y = nodes[x.at()].child(!down_left);
            let root2 = if nodes[x.at()].parent.inner is None {
                y
            } else {
                root
            };
            let shape2 = turned_shape(nodes, shape, x, down_left);
            &&& inv(nodes2, shape2, root2, path, ctx, y)
            &&& tree_at(shape2, y) == turned_tree(shape[x.at()], down_left)
        }),
{
    let xi = x.at();
    let xn = nodes[xi];
    let y = xn.child(!down_left);
    let yi = y.at();
    let yn = nodes[yi];
    let b = yn.child(down_left);
    let p = xn.parent;
    let root2 = if p.inner is None {
        y
    } else {
        root
    };
    let shape2 = turned_shape(nodes, shape, x, down_left);
    let n = path.len() as int;
    lemma_turn_apart(nodes, shape, root, path, ctx, x, down_left);
    assert(links_ok(nodes, xi));
    assert(links_ok(nodes, yi));
    assert(nodes2[xi] == turned(nodes, x, down_left, xi));
    assert(nodes2[yi] == turned(nodes, x, down_left, yi));
    // The children of the two nodes that turn, left where they were.
    let a = xn.child(down_left);
    let c = yn.child(!down_left);
    if a.inner is Some {
        lemma_child_off_path(nodes, shape, root, path, ctx, x, xi, down_left);
    }
    if c.inner is Some {
        lemma_child_off_path(nodes, shape, root, path, ctx, x, yi, !down_left);
    }
    assert forall|i: int| 0 <= i < nodes2.len() implies #[trigger] links_ok(nodes2, i) by {
        assert(links_ok(nodes, i));
        assert(nodes2[i] == turned(nodes, x, down_left, i));
        let l = nodes2[i].left;
        let r = nodes2[i].right;
        let u = nodes2[i].parent;
        if l.inner is Some {
            assert(nodes2[l.at()] == turned(nodes, x, down_left, l.at()));
            if nodes[i].left.inner is Some {
                assert(links_ok(nodes, nodes[i].left.at()));
            }
        }
        if r.inner is Some {
            assert(nodes2[r.at()] == turned(nodes, x, down_left, r.at()));
            if nodes[i].right.inner is Some {
                assert(links_ok(nodes, nodes[i].right.at()));
            }
        }
    }
    assert forall|j: int| 0 <= j < path.len() implies #[trigger] on_route(
        nodes2,
        shape2,
        path,
        ctx,
        y,
        j,
    ) by {
        assert(on_route(nodes, shape, path, ctx, x, j));
        lemma_sibling(nodes, shape, root, path, ctx, x, j);
        assert(nodes2[path[j] as int] == turned(nodes, x, down_left, path[j] as int));
        assert(links_ok(nodes, path[j] as int));
        if j < n - 1 {
            assert(path[j] != path[n - 1]);
        }
    }
    assert forall|i: int| 0 <= i < nodes2.len() && !on_path(path, i) implies #[trigger] shape_ok(
        nodes2,
        shape2,
        i,
    ) by {
        assert(shape_ok(nodes, shape, i));
        assert(links_ok(nodes, i));
        assert(nodes2[i] == turned(nodes, x, down_left, i));
        if i != xi && i != yi {
            if nodes[i].left.inner is Some {
                lemma_child_off_path(nodes, shape, root, path, ctx, x, i, true);
            }
            if nodes[i].right.inner is Some {
                lemma_child_off_path(nodes, shape, root, path, ctx, x, i, false);
            }
        }
    }
    assert(nodes2[yi].parent == link_up(path, n));
}

/// Node `i` after the node `z` was hung below the last node of the way, on
/// the side that the last frame names, red and without children.
pub open spec fn hung<K, V>(
    nodes: Seq<Node<K, V>>,
    path: Seq<usize>,
    ctx: Seq<Frame<K, V>>,
    z: NodeLink,
    i: int,
) -> Node<K, V> {
    if i == z.at() {
        Node {
            color: Color::Red,
            parent: link_up(path, path.len() as int),
            left: NodeLink::nil(),
            right: NodeLink::nil(),
            ..nodes[i]
        }
    } else if path.len() > 0 && i == path.last() as int {
        with_child(nodes[i], ctx.last().go_left, z)
    } else {
        nodes[i]
    }
}

/// No node has `z` as a child, and `z` is not the root.
pub open spec fn loose<K, V>(nodes: Seq<Node<K, V>>, root: NodeLink, z: NodeLink) -> bool {
    &&& z.live(nodes)
    &&& root != z
    &&& forall|i: int|
        0 <= i < nodes.len() ==> (#[trigger] nodes[i]).left != z && nodes[i].right != z
}

/// A loose node may be hung at the end of a way that ends at the sentinel:
/// it is then the hole of that way.
pub(crate) proof fn lemma_hang<K, V>(
    nodes: Seq<Node<K, V>>,
    nodes2: Seq<Node<K, V>>,
    shape: Seq<Tree<K, V>>,
    root: NodeLink,
    path: Seq<usize>,
    ctx: Seq<Frame<K, V>>,
    z: NodeLink,
)
    requires
        inv(nodes, shape, root, path, ctx, NodeLink::nil()),
        loose(nodes, root, z),
        nodes2.len() == nodes.len(),
        forall|i: int| 0 <= i < nodes.len() ==> #[trigger] nodes2[i] == hung(nodes, path, ctx, z, i),
    ensures
        ({
            let root2 = if path.len() == 0 {
                z
            } else {
                root
            };
            let zn = nodes[z.at()];
            let shape2 = shape.update(
                z.at(),
                Tree::node(Color::Red, Tree::Leaf, zn.key, zn.value, Tree::Leaf),
            );
            inv(nodes2, shape2, root2, path, ctx, z)
        }),
{
    let nil = NodeLink::nil();
    let zi = z.at();
    let zn = nodes[zi];
    let root2 = if path.len() == 0 {
        z
    } else {
        root
    };
    let shape2 = shape.update(zi, Tree::node(Color::Red, Tree::Leaf, zn.key, zn.value, Tree::Leaf));
    let n = path.len() as int;
    assert(!on_path(path, zi)) by {
        if on_path(path, zi) {
            let m = choose|m: int| 0 <= m < path.len() && #[trigger] path[m] as int == zi;
            assert(on_route(nodes, shape, path, ctx, nil, m));
            if m > 0 {
                assert(on_route(nodes, shape, path, ctx, nil, m - 1));
                let u = nodes[path[m - 1] as int];
                assert(u.left != z && u.right != z);
            }
            assert(false);
        }
    }
    assert(nodes2[zi] == hung(nodes, path, ctx, z, zi));
    if n > 0 {
        assert(on_route(nodes, shape, path, ctx, nil, n - 1));
        assert(nodes2[path[n - 1] as int] == hung(nodes, path, ctx, z, path[n - 1] as int));
    }
    assert forall|i: int| 0 <= i < nodes2.len() implies #[trigger] links_ok(nodes2, i) by {
        assert(links_ok(nodes, i));
        assert(nodes2[i] == hung(nodes, path, ctx, z, i));
        let w = nodes[i];
        assert(w.left != z && w.right != z);
        if nodes2[i].left.inner is Some {
            assert(nodes2[nodes2[i].left.at()] == hung(nodes, path, ctx, z, nodes2[i].left.at()));
        }
        if nodes2[i].right.inner is Some {
            assert(nodes2[nodes2[i].right.at()] == hung(nodes, path, ctx, z, nodes2[i].right.at()));
        }
    }
    assert forall|j: int| 0 <= j < path.len() implies #[trigger] on_route(
        nodes2,
        shape2,
        path,
        ctx,
        z,
        j,
    ) by {
        assert(on_route(nodes, shape, path, ctx, nil, j));
        lemma_sibling(nodes, shape, root, path, ctx, nil, j);
        assert(nodes2[path[j] as int] == hung(nodes, path, ctx, z, path[j] as int));
        let w = nodes[path[j] as int];
        assert(w.left != z && w.right != z);
        if j < n - 1 {
            assert(path[j] != path[n - 1]);
        }
    }
    assert forall|i: int| 0 <= i < nodes2.len() && !on_path(path, i) implies #[trigger] shape_ok(
        nodes2,
        shape2,
        i,
    ) by {
        assert(shape_ok(nodes, shape, i));
        assert(nodes2[i] == hung(nodes, path, ctx, z, i));
        let w = nodes[i];
        assert(w.left != z && w.right != z);
        if n > 0 && i == path[n - 1] as int {
            assert(on_path(path, i));
        }
        if i != zi {
            assert(links_ok(nodes, i));
            assert(nodes2[i] == nodes[i]);
            assert(tree_at(shape2, w.left) == tree_at(shape, w.left));
            assert(tree_at(shape2, w.right) == tree_at(shape, w.right));
        }
    }
}

/// A new node without links, put at the end of an arena at rest, is loose
/// and leaves the arena at rest, with the same tree at the root.
pub(crate) proof fn lemma_push_loose<K, V>(
    nodes: Seq<Node<K, V>>,
    shape: Seq<Tree<K, V>>,
    root: NodeLink,
    n: Node<K, V>,
    z: NodeLink,
)
    requires
        settled(nodes, shape, root),
        n.parent == NodeLink::nil(),
        n.left == NodeLink::nil(),
        n.right == NodeLink::nil(),
        z.inner is Some,
        z.at() == nodes.len(),
    ensures
        ({
            let shape2 = shape.push(Tree::node(n.color, Tree::Leaf, n.key, n.value, Tree::Leaf));
            &&& settled(nodes.push(n), shape2, root)
            &&& loose(nodes.push(n), root, z)
            &&& tree_at(shape2, root) == tree_at(shape, root)
        }),
{
    let nodes2 = nodes.push(n);
    let shape2 = shape.push(Tree::node(n.color, Tree::Leaf, n.key, n.value, Tree::Leaf));
    let none = Seq::<usize>::empty();
    assert forall|i: int| 0 <= i < nodes2.len() implies #[trigger] links_ok(nodes2, i) by {
        if i < nodes.len() {
            assert(links_ok(nodes, i));
        }
    }
    assert forall|i: int| 0 <= i < nodes2.len() && !on_path(none, i) implies #[trigger] shape_ok(
        nodes2,
        shape2,
        i,
    ) by {
        if i < nodes.len() {
            assert(shape_ok(nodes, shape, i));
            assert(links_ok(nodes, i));
        }
    }
    assert forall|i: int| 0 <= i < nodes2.len() implies (#[trigger] nodes2[i]).left != z
        && nodes2[i].right != z by {
        if i < nodes.len() {
            assert(links_ok(nodes, i));
        }
    }
}

/// The nodes of the arena form the tree `t` below `link`: a leaf stands for
/// the sentinel, and a node of `t` for the node that `link` leads to, which
/// holds the same colour, key and value, has `parent` as its parent, and
/// below whose left and right links stand the left and right subtree.
pub open spec fn stands<K, V>(
    nodes: Seq<Node<K, V>>,
    link: NodeLink,
    parent: NodeLink,
    t: Tree<K, V>,
) -> bool
    decreases t,
{
    match t {
        Tree::Leaf => link.inner is None,
        Tree::Node { color, left, key, value, right } => {
            &&& link.live(nodes)
            &&& nodes[link.at()].color == color
            &&& nodes[link.at()].key == key
            &&& nodes[link.at()].value == value
            &&& nodes[link.at()].parent == parent
            &&& stands(nodes, nodes[link.at()].left, link, *left)
            &&& stands(nodes, nodes[link.at()].right, link, *right)
        },
    }
}

/// In an arena at rest the nodes below a link form the model of the subtree
/// below it.
pub(crate) proof fn lemma_stands<K, V>(
    nodes: Seq<Node<K, V>>,
    shape: Seq<Tree<K, V>>,
    root: NodeLink,
    link: NodeLink,
    parent: NodeLink,
)
    requires
        settled(nodes, shape, root),
        link.valid(nodes),
        link.inner is Some ==> nodes[link.at()].parent == parent,
    ensures
        stands(nodes, link, parent, tree_at(shape, link)),
    decreases tree_at(shape, link).height(),
{
    if link.inner is Some {
        let i = link.at();
        assert(!on_path(Seq::<usize>::empty(), i));
        assert(shape_ok(nodes, shape, i));
        assert(links_ok(nodes, i));
        lemma_stands(nodes, shape, root, nodes[i].left, link);
        lemma_stands(nodes, shape, root, nodes[i].right, link);
    }
}

} // verus!
