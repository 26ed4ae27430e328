use crate::order::{compare, lawful, lt, same};
use crate::tree::Color;
use core::cmp::Ordering;
use vstd::prelude::*;
use vstd::std_specs::cmp::{PartialEqSpec, PartialEqSpecImpl};

verus! {

/// A link to a node of an arena, or the sentinel ("no node"). The sentinel
/// is black and has no key, parent or children; writing to it does nothing.
#[derive(Clone, Copy, Debug)]
pub struct NodeLink {
    pub inner: Option<usize>,
}

impl PartialEq for NodeLink {
    /// Two links are equal when they lead to the same node, or are both the
    /// sentinel.
    fn eq(&self, other: &Self) -> (r: bool) {
        match (self.inner, other.inner) {
            (Some(a), Some(b)) => a == b,
            (None, None) => true,
            _ => false,
        }
    }
}

impl PartialEqSpecImpl for NodeLink {
    open spec fn obeys_eq_spec() -> bool {
        true
    }

    open spec fn eq_spec(&self, other: &Self) -> bool {
        self.inner == other.inner
    }
}

impl Eq for NodeLink {

}

/// A node: what it holds, its colour, and its links to the nodes around it.
#[derive(Debug)]
pub struct Node<K, V> {
    pub key: K,
    pub value: V,
    pub color: Color,
    pub parent: NodeLink,
    pub left: NodeLink,
    pub right: NodeLink,
}

impl<K: PartialEq, V> PartialEq for Node<K, V> {
    /// Two nodes are equal when their keys are.
    fn eq(&self, other: &Self) -> (r: bool) {
        self.key == other.key
    }
}

impl<K: PartialEq, V> PartialEqSpecImpl for Node<K, V> {
    open spec fn obeys_eq_spec() -> bool {
        K::obeys_eq_spec()
    }

    open spec fn eq_spec(&self, other: &Self) -> bool {
        self.key.eq_spec(&other.key)
    }
}

impl<K, V> Node<K, V> {
    /// The link to the left child if `go_left`, else to the right child.
    pub open spec fn child(self, go_left: bool) -> NodeLink {
        if go_left {
            self.left
        } else {
            self.right
        }
    }
}

/// The store that owns the nodes. A link is the position of its node here.
pub struct Arena<K, V> {
    pub nodes: Vec<Node<K, V>>,
}

impl<K, V> View for Arena<K, V> {
    type V = Seq<Node<K, V>>;

    open spec fn view(&self) -> Seq<Node<K, V>> {
        self.nodes@
    }
}

impl<K, V> Arena<K, V> {
    /// An arena without nodes.
    pub fn new() -> (r: Self)
        ensures
            r@.len() == 0,
    {
        Arena { nodes: Vec::new() }
    }
}

impl NodeLink {
    /// The sentinel.
    pub open spec fn nil() -> NodeLink {
        NodeLink { inner: None }
    }

    /// The position of the node that the link leads to.
    pub open spec fn at(self) -> int {
        self.inner.unwrap() as int
    }

    /// The link is the sentinel or leads to a node of `nodes`.
    pub open spec fn valid<K, V>(self, nodes: Seq<Node<K, V>>) -> bool {
        self.inner is Some ==> self.at() < nodes.len()
    }

    /// The link leads to a node of `nodes`.
    pub open spec fn live<K, V>(self, nodes: Seq<Node<K, V>>) -> bool {
        self.inner is Some && self.at() < nodes.len()
    }

    /// Puts a new node into the arena, black and without parent or children,
    /// and returns the link to it.
    pub fn new<K, V>(key: K, value: V, arena: &mut Arena<K, V>) -> (r: NodeLink)
        ensures
            r.inner is Some,
            r.at() == old(arena)@.len(),
            r.live(final(arena)@),
            final(arena)@ == old(arena)@.push(
                Node {
                    key,
                    value,
                    color: Color::Black,
                    parent: NodeLink::nil(),
                    left: NodeLink::nil(),
                    right: NodeLink::nil(),
                },
            ),
    {
        let i = arena.nodes.len();
        arena.nodes.push(
            Node {
                key,
                value,
                color: Color::Black,
                parent: NodeLink::none(),
                left: NodeLink::none(),
                right: NodeLink::none(),
            },
        );
        NodeLink { inner: Some(i) }
    }

    /// The sentinel.
    pub fn none() -> (r: NodeLink)
        ensures
            r == NodeLink::nil(),
    {
        NodeLink { inner: None }
    }

    pub fn is_none(&self) -> (r: bool)
        ensures
            r == (self.inner is None),
    {
        self.inner.is_none()
    }

    pub fn is_some(&self) -> (r: bool)
        ensures
            r == (self.inner is Some),
    {
        self.inner.is_some()
    }

    /// The key of the node; the sentinel has none.
    pub fn get_key<'a, K, V>(&self, arena: &'a Arena<K, V>) -> (r: Option<&'a K>)
        requires
            self.valid(arena@),
        ensures
            r == (match self.inner {
                None => None::<&K>,
                Some(i) => Some(&arena@[i as int].key),
            }),
    {
        match self.inner {
            None => None,
            Some(i) => Some(&arena.nodes[i].key),
        }
    }

    /// The value of the node. The link must not be the sentinel.
    pub fn get_value<'a, K, V>(&self, arena: &'a Arena<K, V>) -> (r: Option<&'a V>)
        requires
            self.live(arena@),
        ensures
            r == Some(&arena@[self.at()].value),
    {
        Some(&arena.nodes[self.inner.unwrap()].value)
    }

    /// The colour of the node; the sentinel is black.
    pub fn get_color<K, V>(&self, arena: &Arena<K, V>) -> (r: Color)
        requires
            self.valid(arena@),
        ensures
            r == (match self.inner {
                None => Color::Black,
                Some(i) => arena@[i as int].color,
            }),
    {
        match self.inner {
            None => Color::Black,
            Some(i) => arena.nodes[i].color,
        }
    }

    pub fn is_red<K, V>(&self, arena: &Arena<K, V>) -> (r: bool)
        requires
            self.valid(arena@),
        ensures
            r == (self.inner is Some && arena@[self.at()].color == Color::Red),
    {
        match self.get_color(arena) {
            Color::Red => true,
            Color::Black => false,
        }
    }

    /// Sets the colour of the node; on the sentinel this does nothing.
    pub fn set_color<K, V>(&self, color: Color, arena: &mut Arena<K, V>)
        requires
            self.valid(old(arena)@),
        ensures
            final(arena)@ == (match self.inner {
                None => old(arena)@,
                Some(i) => old(arena)@.update(i as int, Node { color, ..old(arena)@[i as int] }),
            }),
    {
        match self.inner {
            None => {},
            Some(i) => {
                arena.nodes[i].color = color;
            },
        }
    }

    /// The link to the left child; the sentinel for the sentinel.
    pub fn get_left_child<K, V>(&self, arena: &Arena<K, V>) -> (r: NodeLink)
        requires
            self.valid(arena@),
        ensures
            r == (match self.inner {
                None => NodeLink::nil(),
                Some(i) => arena@[i as int].left,
            }),
    {
        match self.inner {
            None => NodeLink::none(),
            Some(i) => arena.nodes[i].left,
        }
    }

    /// Sets the link to the left child; on the sentinel this does nothing.
    pub fn set_left_child<K, V>(&self, child: NodeLink, arena: &mut Arena<K, V>)
        requires
            self.valid(old(arena)@),
        ensures
            final(arena)@ == (match self.inner {
                None => old(arena)@,
                Some(i) => old(arena)@.update(
                    i as int,
                    Node { left: child, ..old(arena)@[i as int] },
                ),
            }),
    {
        match self.inner {
            None => {},
            Some(i) => {
                arena.nodes[i].left = child;
            },
        }
    }

    /// The link to the right child; the sentinel for the sentinel.
    pub fn get_right_child<K, V>(&self, arena: &Arena<K, V>) -> (r: NodeLink)
        requires
            self.valid(arena@),
        ensures
            r == (match self.inner {
                None => NodeLink::nil(),
                Some(i) => arena@[i as int].right,
            }),
    {
        match self.inner {
            None => NodeLink::none(),
            Some(i) => arena.nodes[i].right,
        }
    }

    /// Sets the link to the right child; on the sentinel this does nothing.
    pub fn set_right_child<K, V>(&self, child: NodeLink, arena: &mut Arena<K, V>)
        requires
            self.valid(old(arena)@),
        ensures
            final(arena)@ == (match self.inner {
                None => old(arena)@,
                Some(i) => old(arena)@.update(
                    i as int,
                    Node { right: child, ..old(arena)@[i as int] },
                ),
            }),
    {
        match self.inner {
            None => {},
            Some(i) => {
                arena.nodes[i].right = child;
            },
        }
    }

    /// The link to the parent; the sentinel for the sentinel.
    pub fn get_parent<K, V>(&self, arena: &Arena<K, V>) -> (r: NodeLink)
        requires
            self.valid(arena@),
        ensures
            r == (match self.inner {
                None => NodeLink::nil(),
                Some(i) => arena@[i as int].parent,
            }),
    {
        match self.inner {
            None => NodeLink::none(),
            Some(i) => arena.nodes[i].parent,
        }
    }

    /// Sets the link to the parent; on the sentinel this does nothing.
    pub fn set_parent<K, V>(&self, parent: NodeLink, arena: &mut Arena<K, V>)
        requires
            self.valid(old(arena)@),
        ensures
            final(arena)@ == (match self.inner {
                None => old(arena)@,
                Some(i) => old(arena)@.update(
                    i as int,
                    Node { parent, ..old(arena)@[i as int] },
                ),
            }),
    {
        match self.inner {
            None => {},
            Some(i) => {
                arena.nodes[i].parent = parent;
            },
        }
    }

    /// How the keys of two nodes compare. With the sentinel on either side
    /// there is no answer.
    pub fn partial_cmp<K: Ord, V>(&self, other: &NodeLink, arena: &Arena<K, V>) -> (r: Option<
        Ordering,
    >)
        requires
            lawful::<K>(),
            self.valid(arena@),
            other.valid(arena@),
        ensures
            r is Some <==> self.inner is Some && other.inner is Some,
            r is Some ==> {
                let a = arena@[self.at()].key;
                let b = arena@[other.at()].key;
                &&& (r == Some(Ordering::Less)) == lt(a, b)
                &&& (r == Some(Ordering::Greater)) == lt(b, a)
                &&& (r == Some(Ordering::Equal)) == same(a, b)
            },
    {
        match self.inner {
            None => None,
            Some(i) => match other.inner {
                None => None,
                Some(j) => Some(compare(&arena.nodes[i].key, &arena.nodes[j].key)),
            },
        }
    }

    /// How the keys of two nodes compare. Neither link may be the sentinel.
    pub fn cmp<K: Ord, V>(&self, other: &NodeLink, arena: &Arena<K, V>) -> (r: Ordering)
        requires
            lawful::<K>(),
            self.live(arena@),
            other.live(arena@),
        ensures
            (r == Ordering::Less) == lt(arena@[self.at()].key, arena@[other.at()].key),
            (r == Ordering::Greater) == lt(arena@[other.at()].key, arena@[self.at()].key),
            (r == Ordering::Equal) == same(arena@[self.at()].key, arena@[other.at()].key),
    {
        compare(&arena.nodes[self.inner.unwrap()].key, &arena.nodes[other.inner.unwrap()].key)
    }
}

} // verus!
