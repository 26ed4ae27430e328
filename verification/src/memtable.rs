use crate::laws::{lemma_insert_keeps_red_black, lemma_insert_keeps_search_order};
use crate::layout::{
    hung, inv, last_link, lemma_descend, lemma_hang, lemma_paint_hole, lemma_paint_sibling,
    lemma_pop, lemma_push_loose, lemma_rotate, lemma_settle, lemma_sibling, lemma_stands,
    lemma_turn_apart, links_ok, loose, on_route, same_entries, settled, shape_ok, stands,
    tree_at, turned,
    turned_shape, with_child,
};
use crate::node::{Arena, Node, NodeLink};
use crate::order::{differs, lawful, less, lt};
use crate::route::{
    calm, calm_at, frame_of, lemma_rebuild_quiet, lemma_rebuild_step, lemma_way_down, quiet,
    rebuild, Frame,
};
use crate::tree::{Color, Tree};
use core::cmp::Ordering;
use vstd::prelude::*;

verus! {

/// Insertion cannot fail: this type has no value.
pub enum PutError {
    Never(core::convert::Infallible),
}

/// An ordered store of entries in memory: a red-black tree whose nodes live
/// in an arena. Entries with equal keys are kept side by side.
pub struct Memtable<K: Ord, V> {
    memtable_size: i32,
    root: NodeLink,
    arena: Arena<K, V>,
    shape: Ghost<Seq<Tree<K, V>>>,
}

impl<K: Ord, V> View for Memtable<K, V> {
    type V = Tree<K, V>;

    /// The tree that the store holds.
    closed spec fn view(&self) -> Tree<K, V> {
        tree_at(self.shape@, self.root)
    }
}

impl<K: Ord, V> Memtable<K, V> {
    /// The store is in order: the keys can be compared, the links of the
    /// arena form the tree that the view shows, and that tree is a search
    /// tree with the red-black properties.
    pub closed spec fn wf(&self) -> bool {
        &&& lawful::<K>()
        &&& settled(self.arena@, self.shape@, self.root)
        &&& self@.is_search_tree()
        &&& self@.is_red_black()
    }

    /// The size that the store was made with. Nothing depends on it.
    pub closed spec fn size(&self) -> i32 {
        self.memtable_size
    }

    /// The link to the root of the tree.
    pub closed spec fn root_link(&self) -> NodeLink {
        self.root
    }

    /// The nodes of the arena.
    pub closed spec fn nodes(&self) -> Seq<Node<K, V>> {
        self.arena@
    }

    /// The nodes of the arena form, below the link to the root, the tree
    /// that the view shows, and the root has no parent.
    pub proof fn lemma_nodes_form_view(&self)
        requires
            self.wf(),
        ensures
            stands(self.nodes(), self.root_link(), NodeLink::nil(), self@),
    {
        lemma_stands(self.arena@, self.shape@, self.root, self.root, NodeLink::nil());
    }

    /// What `wf` says of the view.
    pub proof fn lemma_wf_view(&self)
        requires
            self.wf(),
        ensures
            lawful::<K>(),
            self@.is_search_tree(),
            self@.is_red_black(),
    {
    }

    /// An empty store.
    pub fn new(memtable_size: i32) -> (r: Self)
        requires
            lawful::<K>(),
        ensures
            r.wf(),
            r@ == Tree::<K, V>::Leaf,
            r.size() == memtable_size,
    {
        Memtable {
            memtable_size,
            root: NodeLink::none(),
            arena: Arena::new(),
            shape: Ghost(Seq::empty()),
        }
    }

    /// The link to the root of the tree; the sentinel in an empty store.
    pub fn root(&self) -> (r: NodeLink)
        ensures
            r == self.root_link(),
    {
        self.root
    }

    /// The arena that holds the nodes, for reading.
    pub fn arena(&self) -> (r: &Arena<K, V>)
        ensures
            r@ == self.nodes(),
    {
        &self.arena
    }

    /// Goes down from the root to the place where the key of `node` belongs:
    /// to the left where that key is ordered before the key of a node, else
    /// to the right. Returns the link to the last node on the way, which is
    /// the sentinel in an empty tree, with the way itself.
    fn rb_insert_traverse(&self, node: NodeLink) -> (r: (
        NodeLink,
        Ghost<Seq<usize>>,
        Ghost<Seq<Frame<K, V>>>,
    ))
        requires
            self.wf(),
            node.live(self.arena@),
        ensures
            inv(self.arena@, self.shape@, self.root, r.1@, r.2@, NodeLink::nil()),
            r.0 == last_link(r.1@),
            calm(r.2@, self.arena@[node.at()].key),
            r.1@.len() > 0 ==> r.2@[0].color == Color::Black,
            rebuild(
                r.2@,
                Tree::node(
                    Color::Red,
                    Tree::Leaf,
                    self.arena@[node.at()].key,
                    self.arena@[node.at()].value,
                    Tree::Leaf,
                ),
                self.arena@[node.at()].key,
            ) == self@.ins(self.arena@[node.at()].key, self.arena@[node.at()].value),
    {
        let ghost k = self.arena@[node.at()].key;
        let ghost v = self.arena@[node.at()].value;
        let ghost mut path = Seq::<usize>::empty();
        let ghost mut ctx = Seq::<Frame<K, V>>::empty();
        let mut last_head = NodeLink::none();
        let mut traverse_head = self.root;
        while !traverse_head.is_none()
            invariant
                self.wf(),
                node.live(self.arena@),
                k == self.arena@[node.at()].key,
                v == self.arena@[node.at()].value,
                inv(self.arena@, self.shape@, self.root, path, ctx, traverse_head),
                last_head == last_link(path),
                calm(ctx, k),
                path.len() > 0 ==> ctx[0].color == Color::Black,
                path.len() > 0 && ctx.last().color == Color::Red ==> !tree_at(
                    self.shape@,
                    traverse_head,
                ).is_red(),
                tree_at(self.shape@, traverse_head).no_red_red(),
                rebuild(ctx, tree_at(self.shape@, traverse_head).ins(k, v), k) == self@.ins(k, v),
            decreases tree_at(self.shape@, traverse_head).height(),
        {
            last_head = traverse_head;
            let ghost cur = traverse_head;
            let ghost n = self.arena@[cur.at()];
            let ghost go_left = lt(k, n.key);
            proof {
                assert(shape_ok(self.arena@, self.shape@, cur.at()));
                assert(links_ok(self.arena@, cur.at()));
            }
            match node.cmp(&traverse_head, &self.arena) {
                Ordering::Less => traverse_head = traverse_head.get_left_child(&self.arena),
                _ => traverse_head = traverse_head.get_right_child(&self.arena),
            }
            proof {
                let t = tree_at(self.shape@, cur);
                lemma_way_down(ctx, t, k, v);
                lemma_descend(self.arena@, self.shape@, self.root, path, ctx, cur, go_left);
                assert(frame_of(t, k) == Frame {
                    go_left,
                    color: n.color,
                    key: n.key,
                    value: n.value,
                    sibling: tree_at(self.shape@, n.child(!go_left)),
                });
                assert(tree_at(self.shape@, traverse_head) == t.toward(k));
                path = path.push(cur.inner.unwrap());
                ctx = ctx.push(frame_of(t, k));
            }
        }
        (last_head, Ghost(path), Ghost(ctx))
    }

    /// Makes `child` the root where `parent` is the sentinel. Otherwise
    /// makes it the left child of `parent` where its key is ordered before
    /// the key of `parent`, and else the right child.
    fn rb_insert_place_child(&mut self, parent: NodeLink, child: NodeLink)
        requires
            lawful::<K>(),
            parent.valid(old(self).arena@),
            child.live(old(self).arena@),
        ensures
            final(self).shape@ == old(self).shape@,
            final(self).memtable_size == old(self).memtable_size,
            parent.inner is None ==> final(self).root == child && final(self).arena@ == old(
                self,
            ).arena@,
            parent.inner is Some ==> final(self).root == old(self).root && final(self).arena@
                == old(self).arena@.update(
                parent.at(),
                with_child(
                    old(self).arena@[parent.at()],
                    lt(old(self).arena@[child.at()].key, old(self).arena@[parent.at()].key),
                    child,
                ),
            ),
    {
        if parent.is_none() {
            self.root = child;
        } else {
            match child.cmp(&parent, &self.arena) {
                Ordering::Less => parent.set_left_child(child, &mut self.arena),
                _ => parent.set_right_child(child, &mut self.arena),
            }
        }
    }

    /// Rotates at `x`, the hole of the way `path`: the right child of `x`
    /// takes its place, and `x` becomes the left child of that node.
    fn left_rotate(
        &mut self,
        x: NodeLink,
        Ghost(path): Ghost<Seq<usize>>,
        Ghost(ctx): Ghost<Seq<Frame<K, V>>>,
    )
        requires
            inv(old(self).arena@, old(self).shape@, old(self).root, path, ctx, x),
            x.inner is Some,
            old(self).arena@[x.at()].right.inner is Some,
        ensures
            final(self).arena@.len() == old(self).arena@.len(),
            forall|i: int|
                0 <= i < old(self).arena@.len() ==> #[trigger] final(self).arena@[i] == turned(
                    old(self).arena@,
                    x,
                    true,
                    i,
                ),
            final(self).root == if old(self).arena@[x.at()].parent.inner is None {
                old(self).arena@[x.at()].right
            } else {
                old(self).root
            },
            final(self).shape@ == turned_shape(old(self).arena@, old(self).shape@, x, true),
            inv(
                final(self).arena@,
                final(self).shape@,
                final(self).root,
                path,
                ctx,
                old(self).arena@[x.at()].right,
            ),
            tree_at(final(self).shape@, old(self).arena@[x.at()].right) == tree_at(
                old(self).shape@,
                x,
            ).rotate_left(),
            final(self).memtable_size == old(self).memtable_size,
    {
        proof {
            lemma_turn_apart(self.arena@, self.shape@, self.root, path, ctx, x, true);
            assert(links_ok(self.arena@, x.at()));
            assert(links_ok(self.arena@, self.arena@[x.at()].right.at()));
        }
        let y = x.get_right_child(&self.arena);
        x.set_right_child(y.get_left_child(&self.arena), &mut self.arena);
        if y.get_left_child(&self.arena).is_some() {
            y.get_left_child(&self.arena).set_parent(x, &mut self.arena);
        }
        y.set_parent(x.get_parent(&self.arena), &mut self.arena);
        if x.get_parent(&self.arena).is_none() {
            self.root = y;
        } else if x == x.get_parent(&self.arena).get_left_child(&self.arena) {
            x.get_parent(&self.arena).set_left_child(y, &mut self.arena);
        } else {
            x.get_parent(&self.arena).set_right_child(y, &mut self.arena);
        }
        y.set_left_child(x, &mut self.arena);
        x.set_parent(y, &mut self.arena);
        proof {
            assert forall|i: int| 0 <= i < old(self).arena@.len() implies #[trigger] self.arena@[i]
                == turned(old(self).arena@, x, true, i) by {}
            lemma_rotate(
                old(self).arena@,
                self.arena@,
                old(self).shape@,
                old(self).root,
                path,
                ctx,
                x,
                true,
            );
            self.shape@ = turned_shape(old(self).arena@, old(self).shape@, x, true);
        }
    }

    /// Rotates at `x`, the hole of the way `path`: the left child of `x`
    /// takes its place, and `x` becomes the right child of that node.
    fn right_rotate(
        &mut self,
        x: NodeLink,
        Ghost(path): Ghost<Seq<usize>>,
        Ghost(ctx): Ghost<Seq<Frame<K, V>>>,
    )
        requires
            inv(old(self).arena@, old(self).shape@, old(self).root, path, ctx, x),
            x.inner is Some,
            old(self).arena@[x.at()].left.inner is Some,
        ensures
            final(self).arena@.len() == old(self).arena@.len(),
            forall|i: int|
                0 <= i < old(self).arena@.len() ==> #[trigger] final(self).arena@[i] == turned(
                    old(self).arena@,
                    x,
                    false,
                    i,
                ),
            final(self).root == if old(self).arena@[x.at()].parent.inner is None {
                old(self).arena@[x.at()].left
            } else {
                old(self).root
            },
            final(self).shape@ == turned_shape(old(self).arena@, old(self).shape@, x, false),
            inv(
                final(self).arena@,
                final(self).shape@,
                final(self).root,
                path,
                ctx,
                old(self).arena@[x.at()].left,
            ),
            tree_at(final(self).shape@, old(self).arena@[x.at()].left) == tree_at(
                old(self).shape@,
                x,
            ).rotate_right(),
            final(self).memtable_size == old(self).memtable_size,
    {
        proof {
            lemma_turn_apart(self.arena@, self.shape@, self.root, path, ctx, x, false);
            assert(links_ok(self.arena@, x.at()));
            assert(links_ok(self.arena@, self.arena@[x.at()].left.at()));
        }
        let y = x.get_left_child(&self.arena);
        x.set_left_child(y.get_right_child(&self.arena), &mut self.arena);
        if y.get_right_child(&self.arena).is_some() {
            y.get_right_child(&self.arena).set_parent(x, &mut self.arena);
        }
        y.set_parent(x.get_parent(&self.arena), &mut self.arena);
        if x.get_parent(&self.arena).is_none() {
            self.root = y;
        } else if x == x.get_parent(&self.arena).get_right_child(&self.arena) {
            x.get_parent(&self.arena).set_right_child(y, &mut self.arena);
        } else {
            x.get_parent(&self.arena).set_left_child(y, &mut self.arena);
        }
        y.set_right_child(x, &mut self.arena);
        x.set_parent(y, &mut self.arena);
        proof {
            assert forall|i: int| 0 <= i < old(self).arena@.len() implies #[trigger] self.arena@[i]
                == turned(old(self).arena@, x, false, i) by {}
            lemma_rotate(
                old(self).arena@,
                self.arena@,
                old(self).shape@,
                old(self).root,
                path,
                ctx,
                x,
                false,
            );
            self.shape@ = turned_shape(old(self).arena@, old(self).shape@, x, false);
        }
    }

    /// Restores the red-black properties after the red node `z` was hung at
    /// the end of the way `path`. While the parent of `z` is red: if the
    /// parent's sibling is red too, both become black and their parent red,
    /// and the same is done from that node on; otherwise `z` is brought to
    /// the outside by a rotation at its parent, if it is on the inside, and
    /// then the parent becomes black, its parent red, and a rotation at that
    /// node brings the black node to the top. At the end the root is made
    /// black.
    fn rb_fixup(
        &mut self,
        z: NodeLink,
        Ghost(path0): Ghost<Seq<usize>>,
        Ghost(ctx0): Ghost<Seq<Frame<K, V>>>,
        Ghost(k): Ghost<K>,
    )
        requires
            inv(old(self).arena@, old(self).shape@, old(self).root, path0, ctx0, z),
            z.inner is Some,
            calm(ctx0, k),
            path0.len() > 0 ==> ctx0[0].color == Color::Black,
            tree_at(old(self).shape@, z).is_red(),
            !tree_at(old(self).shape@, z).toward(k).is_red(),
        ensures
            settled(final(self).arena@, final(self).shape@, final(self).root),
            final(self)@ == rebuild(ctx0, tree_at(old(self).shape@, z), k).blacken(),
            same_entries(old(self).arena@, final(self).arena@),
            final(self).memtable_size == old(self).memtable_size,
    {
        let mut z = z;
        let ghost target = rebuild(ctx0, tree_at(self.shape@, z), k);
        let ghost mut path = path0;
        let ghost mut ctx = ctx0;
        let ghost mut hole = z;
        let ghost mut done = false;
        proof {
            assert(links_ok(self.arena@, z.at()));
        }
        while z.get_parent(&self.arena).is_red(&self.arena)
            invariant
                same_entries(old(self).arena@, self.arena@),
                self.memtable_size == old(self).memtable_size,
                z.live(self.arena@),
                self.arena@[z.at()].parent.valid(self.arena@),
                inv(self.arena@, self.shape@, self.root, path, ctx, hole),
                hole.inner is Some,
                calm(ctx, k),
                path.len() > 0 ==> ctx[0].color == Color::Black,
                rebuild(ctx, tree_at(self.shape@, hole), k) == target,
                !done ==> hole == z && tree_at(self.shape@, z).is_red() && !tree_at(
                    self.shape@,
                    z,
                ).toward(k).is_red(),
                done ==> !tree_at(self.shape@, hole).is_red() && self.arena@[z.at()].parent == hole,
            decreases
                    path.len() + if done {
                        0int
                    } else {
                        1int
                    },
        {
            let ghost n = path.len() as int;
            let ghost zt = tree_at(self.shape@, z);
            proof {
                assert(shape_ok(self.arena@, self.shape@, hole.at()));
                assert(!done);
                assert(n >= 1);
                assert(on_route(self.arena@, self.shape@, path, ctx, hole, n - 1));
                assert(calm_at(ctx, k, n - 1));
                assert(n >= 2);
                assert(on_route(self.arena@, self.shape@, path, ctx, hole, n - 2));
                assert(calm_at(ctx, k, n - 2));
                assert(links_ok(self.arena@, path[n - 1] as int));
                assert(links_ok(self.arena@, path[n - 2] as int));
                lemma_sibling(self.arena@, self.shape@, self.root, path, ctx, hole, n - 2);
                lemma_rebuild_step(ctx, zt, k);
            }
            let ghost fp = ctx[n - 1];
            let ghost fg = ctx[n - 2];
            let ghost pt = fp.fill(zt);
            let ghost goal = fg.fill(pt).mend(k);
            let ghost rest = ctx.subrange(0, n - 2);
            let ghost pl = NodeLink { inner: Some(path[n - 1]) };
            let ghost gl = NodeLink { inner: Some(path[n - 2]) };
            proof {
                assert(rebuild(rest, goal, k) == target);
                assert forall|j: int| 0 <= j < rest.len() implies #[trigger] calm_at(
                    rest,
                    k,
                    j,
                ) by {
                    assert(calm_at(ctx, k, j));
                }
                assert(ctx.drop_last().drop_last() =~= rest);
            }
            if z.get_parent(&self.arena) == z.get_parent(&self.arena).get_parent(
                &self.arena,
            ).get_left_child(&self.arena) {
                let y = z.get_parent(&self.arena).get_parent(&self.arena).get_right_child(
                    &self.arena,
                );
                proof {
                    assert(fg.go_left);
                    if y.inner is Some {
                        assert(shape_ok(self.arena@, self.shape@, y.at()));
                    }
                }
                if y.is_red(&self.arena) {
                    let ghost a0 = self.arena@;
                    proof {
                        lemma_pop(a0, self.shape@, self.root, path, ctx, hole);
                        self.shape@ = self.shape@.update(pl.at(), pt);
                        path = path.drop_last();
                        ctx = ctx.drop_last();
                        hole = pl;
                    }
                    z.get_parent(&self.arena).set_color(Color::Black, &mut self.arena);
                    let ghost a1 = self.arena@;
                    proof {
                        lemma_paint_hole(a0, self.shape@, self.root, path, ctx, hole, Color::Black);
                        self.shape@ = self.shape@.update(pl.at(), pt.paint(Color::Black));
                        lemma_sibling(a1, self.shape@, self.root, path, ctx, hole, n - 2);
                    }
                    y.set_color(Color::Black, &mut self.arena);
                    let ghost a2 = self.arena@;
                    proof {
                        lemma_paint_sibling(
                            a1,
                            self.shape@,
                            self.root,
                            path,
                            ctx,
                            hole,
                            n - 2,
                            Color::Black,
                        );
                        self.shape@ = self.shape@.update(
                            y.at(),
                            self.shape@[y.at()].paint(Color::Black),
                        );
                        ctx = ctx.update(
                            n - 2,
                            Frame { sibling: fg.sibling.paint(Color::Black), ..fg },
                        );
                        lemma_pop(a2, self.shape@, self.root, path, ctx, hole);
                        self.shape@ = self.shape@.update(
                            gl.at(),
                            ctx.last().fill(tree_at(self.shape@, hole)),
                        );
                        path = path.drop_last();
                        ctx = ctx.drop_last();
                        hole = gl;
                        assert(ctx =~= rest);
                    }
                    z.get_parent(&self.arena).get_parent(&self.arena).set_color(
                        Color::Red,
                        &mut self.arena,
                    );
                    proof {
                        lemma_paint_hole(a2, self.shape@, self.root, path, ctx, hole, Color::Red);
                        self.shape@ = self.shape@.update(
                            gl.at(),
                            self.shape@[gl.at()].paint(Color::Red),
                        );
                    }
                    z = z.get_parent(&self.arena).get_parent(&self.arena);
                    proof {
                        assert(z == gl);
                        assert(tree_at(self.shape@, z) == goal);
                        assert(links_ok(self.arena@, z.at()));
                    }
                } else {
                    let ghost a0 = self.arena@;
                    proof {
                        lemma_pop(a0, self.shape@, self.root, path, ctx, hole);
                        self.shape@ = self.shape@.update(pl.at(), pt);
                        path = path.drop_last();
                        ctx = ctx.drop_last();
                        hole = pl;
                    }
                    if z == z.get_parent(&self.arena).get_right_child(&self.arena) {
                        z = z.get_parent(&self.arena);
                        self.left_rotate(z, Ghost(path), Ghost(ctx));
                        proof {
                            hole = a0[pl.at()].right;
                            assert(self.arena@[z.at()] == turned(a0, pl, true, z.at()));
                        }
                    }
                    let ghost top = hole;
                    let ghost qt = tree_at(self.shape@, hole);
                    let ghost a1 = self.arena@;
                    proof {
                        assert(qt == if fp.go_left {
                            pt
                        } else {
                            pt.rotate_left()
                        });
                        assert(a1[z.at()].parent == top);
                        assert(links_ok(a1, top.at()));
                        assert(on_route(a1, self.shape@, path, ctx, hole, n - 2));
                    }
                    z.get_parent(&self.arena).set_color(Color::Black, &mut self.arena);
                    let ghost a2 = self.arena@;
                    proof {
                        lemma_paint_hole(a1, self.shape@, self.root, path, ctx, hole, Color::Black);
                        self.shape@ = self.shape@.update(top.at(), qt.paint(Color::Black));
                        lemma_pop(a2, self.shape@, self.root, path, ctx, hole);
                        self.shape@ = self.shape@.update(
                            gl.at(),
                            ctx.last().fill(tree_at(self.shape@, hole)),
                        );
                        path = path.drop_last();
                        ctx = ctx.drop_last();
                        hole = gl;
                        assert(ctx =~= rest);
                    }
                    z.get_parent(&self.arena).get_parent(&self.arena).set_color(
                        Color::Red,
                        &mut self.arena,
                    );
                    let ghost a3 = self.arena@;
                    proof {
                        lemma_paint_hole(a2, self.shape@, self.root, path, ctx, hole, Color::Red);
                        self.shape@ = self.shape@.update(
                            gl.at(),
                            self.shape@[gl.at()].paint(Color::Red),
                        );
                        assert(a3[gl.at()].left == top);
                        lemma_turn_apart(a3, self.shape@, self.root, path, ctx, gl, false);
                        assert(links_ok(a3, top.at()));
                    }
                    self.right_rotate(
                        z.get_parent(&self.arena).get_parent(&self.arena),
                        Ghost(path),
                        Ghost(ctx),
                    );
                    proof {
                        hole = top;
                        done = true;
                        assert(self.arena@[z.at()] == turned(a3, gl, false, z.at()));
                        assert(tree_at(self.shape@, hole) == goal);
                        assert(links_ok(self.arena@, z.at()));
                    }
                }
            } else {
                let y = z.get_parent(&self.arena).get_parent(&self.arena).get_left_child(
                    &self.arena,
                );
                proof {
                    assert(!fg.go_left);
                    if y.inner is Some {
                        assert(shape_ok(self.arena@, self.shape@, y.at()));
                    }
                }
                if y.is_red(&self.arena) {
                    let ghost a0 = self.arena@;
                    proof {
                        lemma_pop(a0, self.shape@, self.root, path, ctx, hole);
                        self.shape@ = self.shape@.update(pl.at(), pt);
                        path = path.drop_last();
                        ctx = ctx.drop_last();
                        hole = pl;
                    }
                    z.get_parent(&self.arena).set_color(Color::Black, &mut self.arena);
                    let ghost a1 = self.arena@;
                    proof {
                        lemma_paint_hole(a0, self.shape@, self.root, path, ctx, hole, Color::Black);
                        self.shape@ = self.shape@.update(pl.at(), pt.paint(Color::Black));
                        lemma_sibling(a1, self.shape@, self.root, path, ctx, hole, n - 2);
                    }
                    y.set_color(Color::Black, &mut self.arena);
                    let ghost a2 = self.arena@;
                    proof {
                        lemma_paint_sibling(
                            a1,
                            self.shape@,
                            self.root,
                            path,
                            ctx,
                            hole,
                            n - 2,
                            Color::Black,
                        );
                        self.shape@ = self.shape@.update(
                            y.at(),
                            self.shape@[y.at()].paint(Color::Black),
                        );
                        ctx = ctx.update(
                            n - 2,
                            Frame { sibling: fg.sibling.paint(Color::Black), ..fg },
                        );
                        lemma_pop(a2, self.shape@, self.root, path, ctx, hole);
                        self.shape@ = self.shape@.update(
                            gl.at(),
                            ctx.last().fill(tree_at(self.shape@, hole)),
                        );
                        path = path.drop_last();
                        ctx = ctx.drop_last();
                        hole = gl;
                        assert(ctx =~= rest);
                    }
                    z.get_parent(&self.arena).get_parent(&self.arena).set_color(
                        Color::Red,
                        &mut self.arena,
                    );
                    proof {
                        lemma_paint_hole(a2, self.shape@, self.root, path, ctx, hole, Color::Red);
                        self.shape@ = self.shape@.update(
                            gl.at(),
                            self.shape@[gl.at()].paint(Color::Red),
                        );
                    }
                    z = z.get_parent(&self.arena).get_parent(&self.arena);
                    proof {
                        assert(z == gl);
                        assert(tree_at(self.shape@, z) == goal);
                        assert(links_ok(self.arena@, z.at()));
                    }
                } else {
                    let ghost a0 = self.arena@;
                    proof {
                        lemma_pop(a0, self.shape@, self.root, path, ctx, hole);
                        self.shape@ = self.shape@.update(pl.at(), pt);
                        path = path.drop_last();
                        ctx = ctx.drop_last();
                        hole = pl;
                    }
                    if z == z.get_parent(&self.arena).get_left_child(&self.arena) {
                        z = z.get_parent(&self.arena);
                        self.right_rotate(z, Ghost(path), Ghost(ctx));
                        proof {
                            hole = a0[pl.at()].left;
                            assert(self.arena@[z.at()] == turned(a0, pl, false, z.at()));
                        }
                    }
                    let ghost top = hole;
                    let ghost qt = tree_at(self.shape@, hole);
                    let ghost a1 = self.arena@;
                    proof {
                        assert(qt == if fp.go_left {
                            pt.rotate_right()
                        } else {
                            pt
                        });
                        assert(a1[z.at()].parent == top);
                        assert(links_ok(a1, top.at()));
                        assert(on_route(a1, self.shape@, path, ctx, hole, n - 2));
                    }
                    z.get_parent(&self.arena).set_color(Color::Black, &mut self.arena);
                    let ghost a2 = self.arena@;
                    proof {
                        lemma_paint_hole(a1, self.shape@, self.root, path, ctx, hole, Color::Black);
                        self.shape@ = self.shape@.update(top.at(), qt.paint(Color::Black));
                        lemma_pop(a2, self.shape@, self.root, path, ctx, hole);
                        self.shape@ = self.shape@.update(
                            gl.at(),
                            ctx.last().fill(tree_at(self.shape@, hole)),
                        );
                        path = path.drop_last();
                        ctx = ctx.drop_last();
                        hole = gl;
                        assert(ctx =~= rest);
                    }
                    z.get_parent(&self.arena).get_parent(&self.arena).set_color(
                        Color::Red,
                        &mut self.arena,
                    );
                    let ghost a3 = self.arena@;
                    proof {
                        lemma_paint_hole(a2, self.shape@, self.root, path, ctx, hole, Color::Red);
                        self.shape@ = self.shape@.update(
                            gl.at(),
                            self.shape@[gl.at()].paint(Color::Red),
                        );
                        assert(a3[gl.at()].right == top);
                        lemma_turn_apart(a3, self.shape@, self.root, path, ctx, gl, true);
                        assert(links_ok(a3, top.at()));
                    }
                    self.left_rotate(
                        z.get_parent(&self.arena).get_parent(&self.arena),
                        Ghost(path),
                        Ghost(ctx),
                    );
                    proof {
                        hole = top;
                        done = true;
                        assert(self.arena@[z.at()] == turned(a3, gl, true, z.at()));
                        assert(tree_at(self.shape@, hole) == goal);
                        assert(links_ok(self.arena@, z.at()));
                    }
                }
            }
        }
        proof {
            let n = path.len() as int;
            assert(shape_ok(self.arena@, self.shape@, hole.at()));
            if !done && n > 0 {
                assert(on_route(self.arena@, self.shape@, path, ctx, hole, n - 1));
            }
            assert(quiet(ctx, tree_at(self.shape@, hole), k));
            lemma_rebuild_quiet(ctx, tree_at(self.shape@, hole), k);
            assert(self.root.inner is Some);
            let s = lemma_settle(self.arena@, self.shape@, self.root, path, ctx, hole);
            self.shape@ = s;
        }
        let ghost a = self.arena@;
        self.root.set_color(Color::Black, &mut self.arena);
        proof {
            lemma_paint_hole(
                a,
                self.shape@,
                self.root,
                Seq::<usize>::empty(),
                Seq::<Frame<K, V>>::empty(),
                self.root,
                Color::Black,
            );
            self.shape@ = self.shape@.update(
                self.root.at(),
                self.shape@[self.root.at()].paint(Color::Black),
            );
        }
    }

    /// Hangs the loose node `z` into the tree where its key belongs, as a
    /// red node without children, and restores the red-black properties.
    fn rb_insert(&mut self, z: NodeLink)
        requires
            old(self).wf(),
            loose(old(self).arena@, old(self).root, z),
        ensures
            final(self).wf(),
            final(self)@ == old(self)@.insert(
                old(self).arena@[z.at()].key,
                old(self).arena@[z.at()].value,
            ),
            same_entries(old(self).arena@, final(self).arena@),
            final(self).memtable_size == old(self).memtable_size,
    {
        let ghost a0 = self.arena@;
        let ghost k = a0[z.at()].key;
        let ghost v = a0[z.at()].value;
        let found = self.rb_insert_traverse(z);
        let insert_parent = found.0;
        let ghost path = found.1@;
        let ghost ctx = found.2@;
        let ghost n = path.len() as int;
        proof {
            if n > 0 {
                assert(on_route(a0, self.shape@, path, ctx, NodeLink::nil(), n - 1));
                assert(calm_at(ctx, k, n - 1));
                if n > 1 {
                    assert(on_route(a0, self.shape@, path, ctx, NodeLink::nil(), n - 2));
                    let u = a0[path[n - 2] as int];
                    assert(u.left != z && u.right != z);
                }
                assert(insert_parent != z);
            }
        }
        z.set_parent(insert_parent, &mut self.arena);
        self.rb_insert_place_child(insert_parent, z);
        z.set_left_child(NodeLink::none(), &mut self.arena);
        z.set_right_child(NodeLink::none(), &mut self.arena);
        z.set_color(Color::Red, &mut self.arena);
        proof {
            assert forall|i: int| 0 <= i < a0.len() implies #[trigger] self.arena@[i] == hung(
                a0,
                path,
                ctx,
                z,
                i,
            ) by {}
            lemma_hang(a0, self.arena@, self.shape@, old(self).root, path, ctx, z);
            self.shape@ = self.shape@.update(
                z.at(),
                Tree::node(Color::Red, Tree::Leaf, k, v, Tree::Leaf),
            );
        }
        self.rb_fixup(z, Ghost(path), Ghost(ctx), Ghost(k));
        proof {
            lemma_insert_keeps_search_order(old(self)@, k, v);
            lemma_insert_keeps_red_black(old(self)@, k, v);
        }
    }

    /// Searches for `key` from the root: to the left where `key` is ordered
    /// before the key of a node, else to the right, until a node's key
    /// compares equal or the sentinel is reached.
    fn rb_search(&self, key: &K) -> (x: NodeLink)
        requires
            self.wf(),
        ensures
            x.valid(self.arena@),
            tree_at(self.shape@, x) == self@.search(*key),
            x.inner is Some ==> shape_ok(self.arena@, self.shape@, x.at()),
    {
        let mut x = self.root;
        while x.is_some() && differs(x.get_key(&self.arena).unwrap(), key)
            invariant
                self.wf(),
                x.valid(self.arena@),
                tree_at(self.shape@, x).search(*key) == self@.search(*key),
            decreases tree_at(self.shape@, x).height(),
        {
            proof {
                assert(shape_ok(self.arena@, self.shape@, x.at()));
                assert(links_ok(self.arena@, x.at()));
            }
            if less(key, x.get_key(&self.arena).unwrap()) {
                x = x.get_left_child(&self.arena);
            } else {
                x = x.get_right_child(&self.arena);
            }
        }
        proof {
            if x.inner is Some {
                assert(shape_ok(self.arena@, self.shape@, x.at()));
            }
        }
        x
    }

    /// The key at the root of the tree: not the least or the first key, but
    /// the one that insertions and rotations have left at the top.
    pub fn peek(&self) -> (r: Option<&K>)
        requires
            self.wf(),
        ensures
            match r {
                Some(k) => self@.root_key() == Some(*k),
                None => self@ is Leaf,
            },
            self@ is Leaf ==> r is None,
    {
        if self.root.is_none() {
            return None;
        }
        proof {
            assert(shape_ok(self.arena@, self.shape@, self.root.at()));
        }
        self.root.get_key(&self.arena)
    }

    /// The value that a search for `key` finds, if it finds one.
    pub fn get(&self, key: &K) -> (r: Option<&V>)
        requires
            self.wf(),
        ensures
            match r {
                Some(v) => self@.lookup(*key) == Some(*v),
                None => self@.lookup(*key) is None,
            },
            self@ is Leaf ==> r is None,
    {
        let node = self.rb_search(key);
        if node.is_none() {
            return None;
        }
        node.get_value(&self.arena)
    }

    /// Inserts `value` under `key`. This cannot fail. An entry whose key
    /// compares equal to one in the store is put beside it, and replaces
    /// nothing.
    pub fn put(&mut self, key: K, value: V)
        requires
            old(self).wf(),
        ensures
            final(self).wf(),
            final(self)@ == old(self)@.insert(key, value),
            final(self)@.is_search_tree(),
            final(self)@.is_red_black(),
            final(self).size() == old(self).size(),
            final(self).nodes().len() == old(self).nodes().len() + 1,
            final(self).nodes().last().key == key,
            final(self).nodes().last().value == value,
            forall|i: int|
                0 <= i < old(self).nodes().len() ==> (#[trigger] final(self).nodes()[i]).key
                    == old(self).nodes()[i].key && final(self).nodes()[i].value == old(
                    self,
                ).nodes()[i].value,
    {
        let ghost a0 = self.arena@;
        let ghost k = key;
        let ghost v = value;
        let z = NodeLink::new(key, value, &mut self.arena);
        proof {
            lemma_push_loose(a0, self.shape@, self.root, self.arena@[z.at()], z);
            self.shape@ = self.shape@.push(
                Tree::node(Color::Black, Tree::Leaf, k, v, Tree::Leaf),
            );
        }
        self.rb_insert(z)
    }
}

} // verus!
