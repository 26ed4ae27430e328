use crate::order::{above, below, lt, same};
use vstd::multiset::Multiset;
use vstd::prelude::*;

verus! {

/// The colour of a node. The sentinel counts as black.
#[derive(Clone, Copy, PartialEq, Eq, Debug, Structural)]
pub enum Color {
    Red,
    Black,
}

impl Color {
    /// The colour's name.
    pub fn name(&self) -> (r: &'static str)
        ensures
            r@ == (match *self {
                Color::Red => "Red"@,
                Color::Black => "Black"@,
            }),
    {
        match self {
            Color::Black => "Black",
            Color::Red => "Red",
        }
    }
}

/// The mathematical model of a tree: its shape, and what each node holds.
/// `Leaf` stands for the sentinel.
pub enum Tree<K, V> {
    Leaf,
    Node { color: Color, left: Box<Tree<K, V>>, key: K, value: V, right: Box<Tree<K, V>> },
}

impl<K, V> Tree<K, V> {
    /// The tree with the given root and subtrees.
    pub open spec fn node(color: Color, left: Self, key: K, value: V, right: Self) -> Self {
        Tree::Node { color, left: Box::new(left), key, value, right: Box::new(right) }
    }

    /// The root is a red node. A leaf is black.
    pub open spec fn is_red(self) -> bool {
        self matches Tree::Node { color: Color::Red, .. }
    }

    /// The key at the root, if there is a root.
    pub open spec fn root_key(self) -> Option<K> {
        match self {
            Tree::Leaf => None,
            Tree::Node { key, .. } => Some(key),
        }
    }

    /// The value at the root, if there is a root.
    pub open spec fn root_value(self) -> Option<V> {
        match self {
            Tree::Leaf => None,
            Tree::Node { value, .. } => Some(value),
        }
    }

    /// The number of nodes on the longest path from the root to a leaf.
    pub open spec fn height(self) -> nat
        decreases self,
    {
        match self {
            Tree::Leaf => 0,
            Tree::Node { left, right, .. } => 1 + if left.height() >= right.height() {
                left.height()
            } else {
                right.height()
            },
        }
    }

    /// The number of nodes.
    pub open spec fn size(self) -> nat
        decreases self,
    {
        match self {
            Tree::Leaf => 0,
            Tree::Node { left, right, .. } => 1 + left.size() + right.size(),
        }
    }

    /// The entries that the nodes hold, each as often as a node holds it.
    pub open spec fn entries(self) -> Multiset<(K, V)>
        decreases self,
    {
        match self {
            Tree::Leaf => Multiset::empty(),
            Tree::Node { left, key, value, right, .. } => left.entries().add(
                right.entries(),
            ).insert((key, value)),
        }
    }

    /// The same tree with a black root.
    pub open spec fn blacken(self) -> Self {
        match self {
            Tree::Leaf => self,
            Tree::Node { color, left, key, value, right } => Tree::Node {
                color: Color::Black,
                left,
                key,
                value,
                right,
            },
        }
    }

    /// The same tree with a root of the given colour.
    pub open spec fn paint(self, c: Color) -> Self {
        match self {
            Tree::Leaf => self,
            Tree::Node { color, left, key, value, right } => Tree::Node {
                color: c,
                left,
                key,
                value,
                right,
            },
        }
    }

    /// The root's right child takes the root's place, and the root becomes
    /// its left child. A tree whose root has no right child stays as it is.
    pub open spec fn rotate_left(self) -> Self {
        match self {
            Tree::Node { color, left, key, value, right } => match *right {
                Tree::Node { color: c2, left: l2, key: k2, value: v2, right: r2 } => Tree::Node {
                    color: c2,
                    left: Box::new(Tree::Node { color, left, key, value, right: l2 }),
                    key: k2,
                    value: v2,
                    right: r2,
                },
                Tree::Leaf => self,
            },
            Tree::Leaf => self,
        }
    }

    /// The mirror image of `rotate_left`.
    pub open spec fn rotate_right(self) -> Self {
        match self {
            Tree::Node { color, left, key, value, right } => match *left {
                Tree::Node { color: c2, left: l2, key: k2, value: v2, right: r2 } => Tree::Node {
                    color: c2,
                    left: l2,
                    key: k2,
                    value: v2,
                    right: Box::new(Tree::Node { color, left: r2, key, value, right }),
                },
                Tree::Leaf => self,
            },
            Tree::Leaf => self,
        }
    }

    /// The number of black nodes on the leftmost path from the root to a
    /// leaf.
    pub open spec fn black_height(self) -> nat
        decreases self,
    {
        match self {
            Tree::Leaf => 0,
            Tree::Node { color, left, .. } => left.black_height() + if color == Color::Black {
                1nat
            } else {
                0nat
            },
        }
    }

    /// Every path from a node down to a leaf passes the same number of black
    /// nodes.
    pub open spec fn is_balanced(self) -> bool
        decreases self,
    {
        match self {
            Tree::Leaf => true,
            Tree::Node { left, right, .. } => {
                &&& left.black_height() == right.black_height()
                &&& left.is_balanced()
                &&& right.is_balanced()
            },
        }
    }

    /// No red node has a red child.
    pub open spec fn no_red_red(self) -> bool
        decreases self,
    {
        match self {
            Tree::Leaf => true,
            Tree::Node { color, left, right, .. } => {
                &&& color == Color::Red ==> !left.is_red() && !right.is_red()
                &&& left.no_red_red()
                &&& right.no_red_red()
            },
        }
    }

    /// Below the root no red node has a red child.
    pub open spec fn no_red_red_below(self) -> bool {
        match self {
            Tree::Leaf => true,
            Tree::Node { left, right, .. } => left.no_red_red() && right.no_red_red(),
        }
    }

    /// The number of black nodes on the path that starts at the root and
    /// goes left where `turns` says `true`, else right, if that path ends at
    /// a leaf with its last turn.
    pub open spec fn blacks_along(self, turns: Seq<bool>) -> Option<nat>
        decreases turns.len(),
    {
        match self {
            Tree::Leaf => if turns.len() == 0 {
                Some(0nat)
            } else {
                None
            },
            Tree::Node { color, left, right, .. } => if turns.len() == 0 {
                None
            } else {
                let rest = if turns[0] {
                    left.blacks_along(turns.drop_first())
                } else {
                    right.blacks_along(turns.drop_first())
                };
                match rest {
                    None => None,
                    Some(n) => Some(
                        n + if color == Color::Black {
                            1nat
                        } else {
                            0nat
                        },
                    ),
                }
            },
        }
    }

    /// `n` is this tree or the subtree below one of its nodes.
    pub open spec fn has_subtree(self, n: Self) -> bool
        decreases self,
    {
        self == n || match self {
            Tree::Leaf => false,
            Tree::Node { left, right, .. } => left.has_subtree(n) || right.has_subtree(n),
        }
    }

    /// The red-black properties: the root is black, no red node has a red
    /// child, and all paths from a node down to a leaf pass the same number
    /// of black nodes.
    pub open spec fn is_red_black(self) -> bool {
        &&& !self.is_red()
        &&& self.no_red_red()
        &&& self.is_balanced()
    }
}

impl<K: Ord, V> Tree<K, V> {
    /// The child of the root on the side where `k` belongs: left if `k` is
    /// ordered before the root's key, else right.
    pub open spec fn toward(self, k: K) -> Self {
        match self {
            Tree::Leaf => self,
            Tree::Node { left, key, right, .. } => if lt(k, key) {
                *left
            } else {
                *right
            },
        }
    }

    /// The child of the root on the side where `k` does not belong.
    pub open spec fn away(self, k: K) -> Self {
        match self {
            Tree::Leaf => self,
            Tree::Node { left, key, right, .. } => if lt(k, key) {
                *right
            } else {
                *left
            },
        }
    }

    /// Repairs a red node with a red child, one level below the root, on the
    /// path where `k` belongs. Where the root's other child is red, the two
    /// children become black and the root red. Otherwise the red grandchild
    /// is first brought to the outside by a rotation at its parent, if it is
    /// on the inside, and then the parent becomes black, the root red, and
    /// the tree is rotated at the root, away from that parent. A tree
    /// without such a pair stays as it is.
    pub open spec fn mend(self, k: K) -> Self {
        match self {
            Tree::Leaf => self,
            Tree::Node { color, left, key, value, right } => {
                let p = self.toward(k);
                let u = self.away(k);
                if p.is_red() && p.toward(k).is_red() {
                    if u.is_red() {
                        if lt(k, key) {
                            Self::node(Color::Red, p.blacken(), key, value, u.blacken())
                        } else {
                            Self::node(Color::Red, u.blacken(), key, value, p.blacken())
                        }
                    } else if lt(k, key) {
                        let q = if lt(k, p->key) {
                            p
                        } else {
                            p.rotate_left()
                        };
                        Self::node(Color::Red, q.blacken(), key, value, u).rotate_right()
                    } else {
                        let q = if lt(k, p->key) {
                            p.rotate_right()
                        } else {
                            p
                        };
                        Self::node(Color::Red, u, key, value, q.blacken()).rotate_left()
                    }
                } else {
                    self
                }
            },
        }
    }

    /// The tree after a red node with `k` and `v` took the place of the leaf
    /// where `k` belongs (an equal key belongs to the right), and every node
    /// on the way back up to the root was mended. The root may be red.
    pub open spec fn ins(self, k: K, v: V) -> Self
        decreases self,
    {
        match self {
            Tree::Leaf => Self::node(Color::Red, Tree::Leaf, k, v, Tree::Leaf),
            Tree::Node { color, left, key, value, right } => if lt(k, key) {
                Self::node(color, left.ins(k, v), key, value, *right).mend(k)
            } else {
                Self::node(color, *left, key, value, right.ins(k, v)).mend(k)
            },
        }
    }

    /// The tree after the insertion of `k` with `v`.
    pub open spec fn insert(self, k: K, v: V) -> Self {
        self.ins(k, v).blacken()
    }

    /// The subtree at the first node, going down from the root on `k`'s
    /// side, whose key compares equal to `k`; a leaf if there is none.
    pub open spec fn search(self, k: K) -> Self
        decreases self,
    {
        match self {
            Tree::Leaf => self,
            Tree::Node { left, key, right, .. } => if same(k, key) {
                self
            } else if lt(k, key) {
                left.search(k)
            } else {
                right.search(k)
            },
        }
    }

    /// The value that a search for `k` finds.
    pub open spec fn lookup(self, k: K) -> Option<V> {
        self.search(k).root_value()
    }

    /// Some node's key compares equal to `k`.
    pub open spec fn has_key(self, k: K) -> bool
        decreases self,
    {
        match self {
            Tree::Leaf => false,
            Tree::Node { left, key, right, .. } => same(k, key) || left.has_key(k)
                || right.has_key(k),
        }
    }

    /// The keys are in search order between the bounds: at every node the
    /// keys of the left subtree come before the node's key, and this before
    /// the keys of the right subtree. With `strict` they are strictly
    /// before; without, equal keys may follow each other.
    pub open spec fn ordered(self, lo: Option<K>, hi: Option<K>, strict: bool) -> bool
        decreases self,
    {
        match self {
            Tree::Leaf => true,
            Tree::Node { left, key, right, .. } => {
                &&& above(lo, key, strict)
                &&& below(key, hi, strict)
                &&& left.ordered(lo, Some(key), strict)
                &&& right.ordered(Some(key), hi, strict)
            },
        }
    }

    /// The tree after the insertion of the first `n` of `entries`, one after
    /// the other, into an empty tree.
    pub open spec fn from_entries(entries: Seq<(K, V)>, n: nat) -> Self
        decreases n,
    {
        if n == 0 || n > entries.len() {
            Tree::Leaf
        } else {
            Self::from_entries(entries, (n - 1) as nat).insert(
                entries[n - 1].0,
                entries[n - 1].1,
            )
        }
    }

    /// At every node, no key of the left subtree is after the node's key, and
    /// no key of the right subtree before it.
    pub open spec fn is_search_tree(self) -> bool {
        self.ordered(None, None, false)
    }

    /// A search tree in which no two keys compare equal: at every node the
    /// keys of the left subtree are strictly before the node's key, and
    /// those of the right subtree strictly after.
    pub open spec fn is_strict_search_tree(self) -> bool {
        self.ordered(None, None, true)
    }
}

} // verus!
