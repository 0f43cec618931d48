//! A B+ tree from `u64` keys to values: the records stand in the leaves, the inner nodes hold
//! separator keys only.
use vstd::prelude::*;

mod lemmas;

use crate::entries::{
    has_key, inserted, lemma_no_key_outside, lemma_removed_frame, lemma_to_map_at,
    lemma_to_map_insert, lemma_to_map_remove, lemma_to_map_update, lemma_updated_frame, removed,
    sorted_by_key, to_map, updated,
};
use lemmas::lemma_route;

verus! {

/// The order of a leaf: it is full at `2 * 3 - 1` keys and holds at least `3 - 1` when it is
/// not the root.
pub const LEAF_T: u8 = 3;

/// The order of an inner node: it is full at `2 * 4 - 1` keys and holds at least `4 - 1`
/// when it is not the root.
pub const INTERNAL_T: u8 = 4;

/// A node of the tree: its keys, its order `t`, and what hangs below the keys.
pub struct Node<T> {
    keys: Vec<u64>,
    t: u8,
    pub node_type: NodeType<T>,
}

/// An inner node holds one child more than it has keys; a leaf holds one record per key.
pub enum NodeType<T> {
    Internal { children: Vec<Node<T>> },
    Leaf { data: Vec<T> },
}

/// A B+ tree; it is empty while it has no root.
pub struct BPlusTree<T> {
    root: Option<Node<T>>,
}

/// The keys strictly increase.
pub open spec fn keys_sorted(keys: Seq<u64>) -> bool {
    forall|i: int, j: int| 0 <= i < j < keys.len() ==> #[trigger] keys[i] < #[trigger] keys[j]
}

/// The least key that child `j` of a node with these keys and lower bound `lo` may hold.
pub open spec fn lo_of(keys: Seq<u64>, lo: int, j: int) -> int {
    if j == 0 {
        lo
    } else {
        keys[j - 1] as int
    }
}

/// The bound that every key of child `j` of a node with these keys and upper bound `hi` lies
/// below.
pub open spec fn hi_of(keys: Seq<u64>, hi: int, j: int) -> int {
    if j == keys.len() {
        hi
    } else {
        keys[j] as int
    }
}

/// The child that a search for `key` enters: the number of keys at most `key`.
pub open spec fn route(keys: Seq<u64>, key: u64) -> int
    decreases keys.len(),
{
    if keys.len() == 0 {
        0
    } else if keys.last() <= key {
        keys.len() as int
    } else {
        route(keys.drop_last(), key)
    }
}

/// One more than the largest key that a tree can hold.
pub open spec fn key_limit() -> int {
    u64::MAX as int + 1
}

impl<T> Node<T> {
    /// The keys of the node.
    pub closed spec fn key_seq(self) -> Seq<u64> {
        self.keys@
    }

    /// The order the node was made with.
    pub closed spec fn order(self) -> u8 {
        self.t
    }

    /// How many levels of inner nodes lie between this node and its leaves.
    pub closed spec fn depth(self) -> nat
        decreases self,
    {
        match self.node_type {
            NodeType::Leaf { .. } => 0,
            NodeType::Internal { children } => if children@.len() > 0 {
                1 + children@[0].depth()
            } else {
                1
            },
        }
    }

    /// The records below the node, leaf by leaf from the left.
    pub closed spec fn entries(self) -> Seq<(u64, T)>
        decreases self,
    {
        match self.node_type {
            NodeType::Leaf { data } => Seq::new(
                self.keys@.len(),
                |i: int| (self.keys@[i], data@[i]),
            ),
            NodeType::Internal { children } => Self::entries_of(children@),
        }
    }

    /// The records below a run of sibling nodes, from the left.
    pub closed spec fn entries_of(nodes: Seq<Node<T>>) -> Seq<(u64, T)>
        decreases nodes,
    {
        if nodes.len() == 0 {
            Seq::empty()
        } else {
            Self::entries_of(nodes.drop_last()) + nodes.last().entries()
        }
    }

    /// A sound node whose keys all lie in `[lo, hi)`: keys ordered, at most `2 * t - 1` keys,
    /// one record per key in a leaf and one child more than keys in an inner node, every child sound within the bounds
    /// its neighbouring keys give, every leaf below at the same depth, and every child holding
    /// at least `t - 1` keys. Leaves have order `LEAF_T`, inner nodes `INTERNAL_T`.
    pub closed spec fn wf(self, lo: int, hi: int) -> bool
        decreases self,
    {
        &&& keys_sorted(self.keys@)
        &&& self.keys@.len() + 1 <= 2 * self.t
        &&& match self.node_type {
            NodeType::Leaf { data } => {
                &&& self.t == LEAF_T
                &&& data@.len() == self.keys@.len()
                &&& forall|i: int| 0 <= i < self.keys@.len() ==> lo <= #[trigger] self.keys@[i] < hi
            },
            NodeType::Internal { children } => {
                &&& self.t == INTERNAL_T
                &&& children@.len() == self.keys@.len() + 1
                &&& forall|i: int| 0 <= i < self.keys@.len() ==> lo < #[trigger] self.keys@[i] < hi
                &&& forall|j: int|
                    0 <= j < children@.len() ==> {
                        &&& (#[trigger] children@[j]).wf(
                            lo_of(self.keys@, lo, j),
                            hi_of(self.keys@, hi, j),
                        )
                        &&& children@[j].depth() + 1 == self.depth()
                        &&& children@[j].keys@.len() + 1 >= children@[j].t
                    }
            },
        }
    }

    /// The node is a leaf.
    pub closed spec fn is_leaf(self) -> bool {
        self.node_type is Leaf
    }

    /// The records of a leaf.
    pub closed spec fn data_seq(self) -> Seq<T> {
        match self.node_type {
            NodeType::Leaf { data } => data@,
            NodeType::Internal { .. } => Seq::empty(),
        }
    }

    /// The children of an inner node.
    pub closed spec fn child_seq(self) -> Seq<Node<T>> {
        match self.node_type {
            NodeType::Internal { children } => children@,
            NodeType::Leaf { .. } => Seq::empty(),
        }
    }

    /// The two nodes have the same keys in every node, the same orders, and the same number of
    /// records in every leaf: they differ at most in the records.
    pub closed spec fn same_shape(self, other: Node<T>) -> bool
        decreases self,
    {
        &&& self.keys@ == other.keys@
        &&& self.t == other.t
        &&& match self.node_type {
            NodeType::Leaf { data } => match other.node_type {
                NodeType::Leaf { data: data2 } => data@.len() == data2@.len(),
                NodeType::Internal { .. } => false,
            },
            NodeType::Internal { children } => match other.node_type {
                NodeType::Internal { children: children2 } => {
                    &&& children@.len() == children2@.len()
                    &&& forall|j: int|
                        0 <= j < children@.len() ==> (#[trigger] children@[j]).same_shape(
                            children2@[j],
                        )
                },
                NodeType::Leaf { .. } => false,
            },
        }
    }

    /// `self` is the inner node `n1` made ready for a deletion of `key` to pass down: where the
    /// child that a search for `key` enters holds the fewest keys it may, that child was given
    /// a key more (`rebalanced`); otherwise nothing changed.
    pub open spec fn readied_for(self, n1: Node<T>, key: u64) -> bool {
        let i = route(n1.key_seq(), key);
        let c = n1.child_seq()[i];
        if c.key_seq().len() + 1 == c.order() {
            rebalanced(n1, self, i)
        } else {
            self == n1
        }
    }

    /// `self` is `n1` after the record of `key` was taken out below it: a leaf loses `key` and
    /// its record where it has them and is otherwise unchanged; an inner node is first made
    /// ready (`readied_for`), then the child that a search for `key` enters has the record
    /// taken out below it, while the keys and the other children stay as they are.
    pub closed spec fn deleted_below(self, n1: Node<T>, key: u64) -> bool
        decreases self,
    {
        match self.node_type {
            NodeType::Leaf { data } => {
                &&& n1.is_leaf()
                &&& self.t == n1.t
                &&& if n1.keys@.contains(key) {
                    exists|p: int|
                        0 <= p < n1.keys@.len() && #[trigger] n1.keys@[p] == key && self.keys@
                            == n1.keys@.remove(p) && data@ == n1.data_seq().remove(p)
                } else {
                    self.keys@ == n1.keys@ && data@ == n1.data_seq()
                }
            },
            NodeType::Internal { children } => {
                &&& !n1.is_leaf()
                &&& exists|m: Node<T>|
                    #[trigger] m.readied_for(n1, key) && {
                        let j = route(m.keys@, key);
                        &&& self.t == m.t
                        &&& self.keys@ == m.keys@
                        &&& children@.len() == m.child_seq().len()
                        &&& 0 <= j < children@.len()
                        &&& forall|i: int|
                            0 <= i < children@.len() && i != j ==> #[trigger] children@[i]
                                == m.child_seq()[i]
                        &&& children@[j].deleted_below(m.child_seq()[j], key)
                    }
            },
        }
    }

    /// `self` is the inner node `n1` made ready for an insertion of `key` to pass down: where
    /// the child that a search for `key` enters is full, it was split (`split_at`); otherwise
    /// nothing changed.
    pub open spec fn readied_for_insert(self, n1: Node<T>, key: u64) -> bool {
        let i = route(n1.key_seq(), key);
        let c = n1.child_seq()[i];
        if c.key_seq().len() + 1 == 2 * c.order() {
            split_at(n1, self, i)
        } else {
            self == n1
        }
    }

    /// `self` is `n1` after `key` with `value` was put in below it: a leaf that has `key`
    /// stays as it is, and one that lacks it takes `key` and `value` in key order; an inner
    /// node is first made ready (`readied_for_insert`), then the child that a search for `key`
    /// enters takes them in below it, while the keys and the other children stay as they are.
    pub closed spec fn inserted_below(self, n1: Node<T>, key: u64, value: T) -> bool
        decreases self,
    {
        match self.node_type {
            NodeType::Leaf { data } => {
                &&& n1.is_leaf()
                &&& self.t == n1.t
                &&& if n1.keys@.contains(key) {
                    self.keys@ == n1.keys@ && data@ == n1.data_seq()
                } else {
                    &&& self.keys@ == n1.keys@.insert(route(n1.keys@, key), key)
                    &&& data@ == n1.data_seq().insert(route(n1.keys@, key), value)
                }
            },
            NodeType::Internal { children } => {
                &&& !n1.is_leaf()
                &&& exists|m: Node<T>|
                    #[trigger] m.readied_for_insert(n1, key) && {
                        let j = route(m.keys@, key);
                        &&& self.t == m.t
                        &&& self.keys@ == m.keys@
                        &&& children@.len() == m.child_seq().len()
                        &&& 0 <= j < children@.len()
                        &&& forall|i: int|
                            0 <= i < children@.len() && i != j ==> #[trigger] children@[i]
                                == m.child_seq()[i]
                        &&& children@[j].inserted_below(m.child_seq()[j], key, value)
                    }
            },
        }
    }

    /// The leaf that a search for `key` ends in: a leaf itself, and below an inner node the
    /// leaf that the search reaches from the child it enters.
    pub closed spec fn leaf_for(self, key: u64) -> Node<T>
        decreases self,
    {
        match self.node_type {
            NodeType::Leaf { .. } => self,
            NodeType::Internal { children } => if 0 <= route(self.keys@, key) < children@.len() {
                children@[route(self.keys@, key)].leaf_for(key)
            } else {
                self
            },
        }
    }

    /// A node of order `t` with no keys: a leaf with no records, or an inner node with no
    /// children.
    pub fn new_node(t: u8, is_leaf: bool) -> (n: Node<T>)
        ensures
            n.key_seq() == Seq::<u64>::empty(),
            n.order() == t,
            n.is_leaf() == is_leaf,
            n.data_seq() == Seq::<T>::empty(),
            n.child_seq() == Seq::<Node<T>>::empty(),
    {
        let node_type = if is_leaf {
            NodeType::Leaf { data: Vec::new() }
        } else {
            NodeType::Internal { children: Vec::new() }
        };
        Node { keys: Vec::new(), t, node_type }
    }

    /// The node holds `2 * t - 1` keys or more.
    fn is_full(&self) -> (r: bool)
        requires
            1 <= self.t <= 127,
        ensures
            r == (self.keys@.len() >= 2 * self.t - 1),
    {
        self.keys.len() >= (self.t * 2 - 1) as usize
    }

    /// Splits the full child `children_index` of this inner node in two. A leaf keeps its
    /// first `t - 1` keys and records and the new leaf after it takes the rest, whose first
    /// key this node gains as a copy; an inner child keeps its first `t - 1` keys and `t`
    /// children, its key at `t - 1` moves up into this node, and the new node takes the keys
    /// after it and the remaining children. `t` is the child's order.
    #[verifier::rlimit(60)]
    fn split_child(&mut self, children_index: usize, Ghost(lo): Ghost<int>, Ghost(hi): Ghost<int>)
        requires
            !old(self).is_leaf(),
            children_index < old(self).child_seq().len(),
            old(self).child_seq().len() == old(self).keys@.len() + 1,
            1 <= old(self).child_seq()[children_index as int].t,
            old(self).child_seq()[children_index as int].keys@.len() + 1 >= 2
                * old(self).child_seq()[children_index as int].t,
            old(self).child_seq()[children_index as int].is_leaf() ==> old(self).child_seq()[children_index as int].data_seq().len()
                == old(self).child_seq()[children_index as int].keys@.len(),
            !old(self).child_seq()[children_index as int].is_leaf() ==> old(self).child_seq()[children_index as int].child_seq().len()
                == old(self).child_seq()[children_index as int].keys@.len() + 1,
        ensures
            split_at(*old(self), *final(self), children_index as int),
            old(self).wf(lo, hi) && old(self).keys@.len() + 2 <= 2 * old(self).t ==> {
                &&& final(self).wf(lo, hi)
                &&& final(self).depth() == old(self).depth()
                &&& final(self).entries() == old(self).entries()
            },
    {
        let ghost n1 = *self;
        let ghost ci = children_index as int;
        let ghost clo = lo_of(n1.keys@, lo, ci);
        let ghost chi = hi_of(n1.keys@, hi, ci);
        let ghost sound = n1.wf(lo, hi) && n1.keys@.len() + 2 <= 2 * n1.t;
        proof {
            if sound {
                n1.child_seq()[ci].lemma_wf_order(clo, chi);
                n1.lemma_locate(lo, hi, ci);
            }
        }
        if let NodeType::Internal { children } = &mut self.node_type {
            let second_node;
            let ghost left;
            let ghost sep: u64;
            {
                let full_node = &mut children[children_index];
                let ghost f1 = *full_node;
                proof {
                    assert(f1 == n1.child_seq()[ci]);
                }
                let t = full_node.t;
                match &mut full_node.node_type {
                    NodeType::Leaf { data } => {
                        let mut second_mut = Self::new_node(t, true);
                        let split_index = t - 1;
                        second_mut.keys = full_node.keys.split_off(split_index as usize);
                        if let NodeType::Leaf { data: data2 } = &mut second_mut.node_type {
                            *data2 = data.split_off((t - 1) as usize);
                            self.keys.insert(children_index, second_mut.keys[0]);
                        }
                        second_node = second_mut;
                        proof {
                            left = *full_node;
                            sep = second_node.keys@[0];
                            if sound {
                                Self::lemma_split_leaf(f1, left, second_node, clo, chi);
                                let fe = f1.entries();
                                let q = choose|q: int| 0 <= q < fe.len() && #[trigger] fe[q].0 == sep;
                                let a = Node::<T>::entries_of(n1.child_seq().subrange(0, ci));
                                assert(n1.entries()[a.len() + q] == fe[q]);
                            }
                        }
                    },
                    NodeType::Internal { children: children_full } => {
                        let mut second_mut = Self::new_node(t, false);
                        second_mut.keys = full_node.keys.split_off((t - 1) as usize);
                        if let NodeType::Internal { children: children2 } = &mut second_mut.node_type {
                            *children2 = children_full.split_off(t as usize);
                            self.keys.insert(children_index, second_mut.keys.remove(0));
                        }
                        second_node = second_mut;
                        proof {
                            assert(second_node.keys@ =~= f1.keys@.subrange(t as int, f1.keys@.len() as int));
                            left = *full_node;
                            sep = f1.keys@[t - 1];
                            if sound {
                                Self::lemma_split_internal(f1, left, second_node, clo, chi);
                                assert forall|j: int| 0 <= j < ci implies n1.keys@[j] <= sep by {
                                    assert(n1.keys@[j] <= n1.keys@[ci - 1]);
                                }
                                lemma_route(n1.keys@, sep, ci);
                            }
                        }
                    },
                }
            }
            assert(children_index < children.len());
            children.insert(children_index + 1, second_node);
            proof {
                assert(children@ =~= n1.child_seq().update(ci, left).insert(ci + 1, second_node));
                if sound {
                    Self::lemma_split_parent(n1, *self, lo, hi, ci, left, second_node, sep);
                }
            }
        }
    }
    /// The keys of the node.
    pub fn keys(&self) -> (k: &Vec<u64>)
        ensures
            k@ == self.key_seq(),
    {
        &self.keys
    }
}

/// `n2` is the inner node `n1` after its full child `ci` of order `t` was split in two: the
/// left half keeps the first `t - 1` keys (with their records, or the first `t` children);
/// a leaf's right half takes the other keys and records and the parent gains a copy of its
/// first key, while an inner node's key `t - 1` moves up into the parent and its right half
/// takes the keys and children after it.
pub open spec fn split_at<T>(n1: Node<T>, n2: Node<T>, ci: int) -> bool {
    let f = n1.child_seq()[ci];
    let t = f.order() as int;
    let left = n2.child_seq()[ci];
    let right = n2.child_seq()[ci + 1];
    &&& !n2.is_leaf()
    &&& n2.order() == n1.order()
    &&& n2.key_seq() == n1.key_seq().insert(ci, f.key_seq()[t - 1])
    &&& n2.child_seq().len() == n1.child_seq().len() + 1
    &&& n2.child_seq() == n1.child_seq().update(ci, left).insert(ci + 1, right)
    &&& left.order() == f.order() && right.order() == f.order()
    &&& left.is_leaf() == f.is_leaf() && right.is_leaf() == f.is_leaf()
    &&& left.key_seq() == f.key_seq().subrange(0, t - 1)
    &&& if f.is_leaf() {
        &&& left.data_seq() == f.data_seq().subrange(0, t - 1)
        &&& right.key_seq() == f.key_seq().subrange(t - 1, f.key_seq().len() as int)
        &&& right.data_seq() == f.data_seq().subrange(t - 1, f.key_seq().len() as int)
    } else {
        &&& left.child_seq() == f.child_seq().subrange(0, t)
        &&& right.key_seq() == f.key_seq().subrange(t, f.key_seq().len() as int)
        &&& right.child_seq() == f.child_seq().subrange(t, f.child_seq().len() as int)
    }
}

/// `l2` and `c2` are the neighbours `l` and `c` after the last key of `l` moved over into
/// `c`: a leaf `c` takes the last key and record of `l` in front; an inner `c` takes the key
/// `sep` between them in front of its keys and the last child of `l` in front of its children.
pub open spec fn moved_right<T>(l: Node<T>, c: Node<T>, sep: u64, l2: Node<T>, c2: Node<T>) -> bool {
    &&& l2.order() == l.order()
    &&& c2.order() == c.order()
    &&& l2.is_leaf() == l.is_leaf()
    &&& c2.is_leaf() == c.is_leaf()
    &&& l2.key_seq() == l.key_seq().drop_last()
    &&& if c.is_leaf() {
        &&& c2.key_seq() == seq![l.key_seq().last()] + c.key_seq()
        &&& l2.data_seq() == l.data_seq().drop_last()
        &&& c2.data_seq() == seq![l.data_seq().last()] + c.data_seq()
    } else {
        &&& c2.key_seq() == seq![sep] + c.key_seq()
        &&& l2.child_seq() == l.child_seq().drop_last()
        &&& c2.child_seq() == seq![l.child_seq().last()] + c.child_seq()
    }
}

/// `c2` and `r2` are the neighbours `c` and `r` after the first key of `r` moved over into
/// `c`: a leaf `c` takes the first key and record of `r` behind; an inner `c` takes the key
/// `sep` between them behind its keys and the first child of `r` behind its children.
pub open spec fn moved_left<T>(c: Node<T>, r: Node<T>, sep: u64, c2: Node<T>, r2: Node<T>) -> bool {
    &&& c2.order() == c.order()
    &&& r2.order() == r.order()
    &&& c2.is_leaf() == c.is_leaf()
    &&& r2.is_leaf() == r.is_leaf()
    &&& r2.key_seq() == r.key_seq().drop_first()
    &&& if c.is_leaf() {
        &&& c2.key_seq() == c.key_seq().push(r.key_seq()[0])
        &&& c2.data_seq() == c.data_seq().push(r.data_seq()[0])
        &&& r2.data_seq() == r.data_seq().drop_first()
    } else {
        &&& c2.key_seq() == c.key_seq().push(sep)
        &&& c2.child_seq() == c.child_seq().push(r.child_seq()[0])
        &&& r2.child_seq() == r.child_seq().drop_first()
    }
}

/// `m` is the neighbours `h` and `d` joined: the keys and records of two leaves one after the
/// other, or the keys of two inner nodes with `sep` between them and their children one after
/// the other.
pub open spec fn merged<T>(h: Node<T>, d: Node<T>, sep: u64, m: Node<T>) -> bool {
    &&& m.order() == h.order()
    &&& m.is_leaf() == h.is_leaf()
    &&& if h.is_leaf() {
        &&& m.key_seq() == h.key_seq() + d.key_seq()
        &&& m.data_seq() == h.data_seq() + d.data_seq()
    } else {
        &&& m.key_seq() == h.key_seq() + seq![sep] + d.key_seq()
        &&& m.child_seq() == h.child_seq() + d.child_seq()
    }
}

/// `n2` is the inner node `n1` after its child `index` borrowed the last key of child
/// `index - 1`, whose last key takes the place of the key between them.
pub open spec fn borrowed_from_left<T>(n1: Node<T>, n2: Node<T>, index: int) -> bool {
    let l = n1.child_seq()[index - 1];
    let c = n1.child_seq()[index];
    &&& n2.order() == n1.order()
    &&& !n2.is_leaf()
    &&& n2.child_seq().len() == n1.child_seq().len()
    &&& n2.child_seq() == n1.child_seq().update(index - 1, n2.child_seq()[index - 1]).update(
        index,
        n2.child_seq()[index],
    )
    &&& moved_right(l, c, n1.key_seq()[index - 1], n2.child_seq()[index - 1], n2.child_seq()[index])
    &&& n2.key_seq() == n1.key_seq().update(index - 1, l.key_seq().last())
}

/// `n2` is the inner node `n1` after its child `index` borrowed the first key of child
/// `index + 1`; the key between them becomes the first key the right child is left with (a
/// leaf) or the key the right child gave up (an inner node).
pub open spec fn borrowed_from_right<T>(n1: Node<T>, n2: Node<T>, index: int) -> bool {
    let c = n1.child_seq()[index];
    let r = n1.child_seq()[index + 1];
    &&& n2.order() == n1.order()
    &&& !n2.is_leaf()
    &&& n2.child_seq().len() == n1.child_seq().len()
    &&& n2.child_seq() == n1.child_seq().update(index, n2.child_seq()[index]).update(
        index + 1,
        n2.child_seq()[index + 1],
    )
    &&& moved_left(c, r, n1.key_seq()[index], n2.child_seq()[index], n2.child_seq()[index + 1])
    &&& n2.key_seq() == n1.key_seq().update(
        index,
        if c.is_leaf() {
            r.key_seq()[1]
        } else {
            r.key_seq()[0]
        },
    )
}

/// `n2` is the inner node `n1` after its children `j` and `j + 1` were joined into one and the
/// key between them dropped.
pub open spec fn merged_at<T>(n1: Node<T>, n2: Node<T>, j: int) -> bool {
    &&& n2.order() == n1.order()
    &&& !n2.is_leaf()
    &&& n2.key_seq() == n1.key_seq().remove(j)
    &&& n2.child_seq() == n1.child_seq().update(j, n2.child_seq()[j]).remove(j + 1)
    &&& merged(n1.child_seq()[j], n1.child_seq()[j + 1], n1.key_seq()[j], n2.child_seq()[j])
}

/// `n2` is the inner node `n1` after its child `index` was given one key more: borrowed from
/// the left neighbour if that holds more than `t - 1` keys (`t` the order of `n1`), else from
/// the right neighbour if that does, else by joining the child into its left neighbour, or
/// failing that joining its right neighbour into it.
pub open spec fn rebalanced<T>(n1: Node<T>, n2: Node<T>, index: int) -> bool {
    let c = n1.child_seq();
    if index > 0 && c[index - 1].key_seq().len() > n1.order() - 1 {
        borrowed_from_left(n1, n2, index)
    } else if index + 1 < c.len() && c[index + 1].key_seq().len() > n1.order() - 1 {
        borrowed_from_right(n1, n2, index)
    } else if index > 0 {
        merged_at(n1, n2, index - 1)
    } else {
        merged_at(n1, n2, index)
    }
}

/// Where a full child `ci` of order `t` is split (`split_at`), told by the keys before and
/// after: the node gains exactly one key, at `ci`, which is the child's key at `t - 1`; the left
/// half keeps the child's first `t - 1` keys, all below that key; a leaf's right half starts
/// with that key and keeps the rest, while an inner node's right half keeps only the keys after
/// it; every other child stays as it was.
pub proof fn law_split_point<T>(n1: Node<T>, n2: Node<T>, lo: int, hi: int, ci: int)
    requires
        n1.wf(lo, hi),
        !n1.is_leaf(),
        0 <= ci < n1.child_seq().len(),
        n1.child_seq()[ci].key_seq().len() + 1 == 2 * n1.child_seq()[ci].order(),
        split_at(n1, n2, ci),
    ensures
        ({
            let f = n1.child_seq()[ci];
            let t = f.order() as int;
            let m = f.key_seq()[t - 1];
            let left = n2.child_seq()[ci];
            let right = n2.child_seq()[ci + 1];
            &&& n2.key_seq().len() == n1.key_seq().len() + 1
            &&& n2.key_seq()[ci] == m
            &&& forall|j: int| 0 <= j < ci ==> #[trigger] n2.key_seq()[j] == n1.key_seq()[j]
            &&& forall|j: int|
                ci < j < n2.key_seq().len() ==> #[trigger] n2.key_seq()[j] == n1.key_seq()[j - 1]
            &&& left.key_seq().len() == t - 1
            &&& forall|j: int| 0 <= j < t - 1 ==> #[trigger] left.key_seq()[j] == f.key_seq()[j]
            &&& forall|j: int| 0 <= j < t - 1 ==> #[trigger] left.key_seq()[j] < m
            &&& f.is_leaf() ==> {
                &&& right.key_seq().len() == f.key_seq().len() - (t - 1)
                &&& right.key_seq()[0] == m
                &&& forall|j: int|
                    0 <= j < right.key_seq().len() ==> #[trigger] right.key_seq()[j] == f.key_seq()[j
                        + t - 1]
            }
            &&& !f.is_leaf() ==> {
                &&& right.key_seq().len() == f.key_seq().len() - t
                &&& forall|j: int|
                    0 <= j < right.key_seq().len() ==> #[trigger] right.key_seq()[j] == f.key_seq()[j
                        + t]
            }
            &&& forall|j: int|
                0 <= j < n2.child_seq().len() && j != ci && j != ci + 1 ==> #[trigger] n2.child_seq()[j]
                    == (if j < ci {
                    n1.child_seq()[j]
                } else {
                    n1.child_seq()[j - 1]
                })
        }),
{
    let ks = n1.keys@;
    let f = n1.child_seq()[ci];
    let flo = lo_of(ks, lo, ci);
    let fhi = hi_of(ks, hi, ci);
    n1.lemma_wf_order(lo, hi);
    assert(f.wf(flo, fhi));
    f.lemma_wf_order(flo, fhi);
    let t = f.order() as int;
    assert forall|j: int| 0 <= j < t - 1 implies #[trigger] n2.child_seq()[ci].key_seq()[j]
        < f.key_seq()[t - 1] by {
        assert(f.keys@[j] < f.keys@[t - 1]);
    }
}

/// Splitting the full child `ci` of a sound inner node that has room for one more key
/// (`split_at`) keeps the node sound at its depth with the same records, and each half holds
/// at least `t - 1` keys.
pub proof fn law_split_keeps_records<T>(n1: Node<T>, n2: Node<T>, lo: int, hi: int, ci: int)
    requires
        n1.wf(lo, hi),
        !n1.is_leaf(),
        n1.key_seq().len() + 2 <= 2 * n1.order(),
        0 <= ci < n1.child_seq().len(),
        n1.child_seq()[ci].key_seq().len() + 1 == 2 * n1.child_seq()[ci].order(),
        split_at(n1, n2, ci),
    ensures
        n2.wf(lo, hi),
        n2.depth() == n1.depth(),
        n2.entries() == n1.entries(),
        n2.child_seq()[ci].key_seq().len() + 1 >= n2.child_seq()[ci].order(),
        n2.child_seq()[ci + 1].key_seq().len() + 1 >= n2.child_seq()[ci + 1].order(),
{
    let ks = n1.keys@;
    let f = n1.child_seq()[ci];
    let left = n2.child_seq()[ci];
    let right = n2.child_seq()[ci + 1];
    let flo = lo_of(ks, lo, ci);
    let fhi = hi_of(ks, hi, ci);
    n1.lemma_wf_order(lo, hi);
    assert(f.wf(flo, fhi));
    f.lemma_wf_order(flo, fhi);
    f.lemma_depth_leaf(flo, fhi);
    if f.is_leaf() {
        Node::lemma_split_leaf(f, left, right, flo, fhi);
        Node::lemma_split_parent(n1, n2, lo, hi, ci, left, right, right.keys@[0]);
    } else {
        Node::lemma_split_internal(f, left, right, flo, fhi);
        Node::lemma_split_parent(n1, n2, lo, hi, ci, left, right, f.keys@[3]);
    }
}

/// Which neighbour gives child `index` (at the fewest keys it may, `t` the order of the inner
/// node) its key more, told by the keys before and after:
/// - a left neighbour with more than `t - 1` keys lends, whatever the right one holds: it loses
///   exactly its last key, which becomes the key between the two, smaller than before; the
///   child gains one key and the right neighbour stays as it was;
/// - otherwise a right neighbour with more than `t - 1` keys lends: it loses exactly its first
///   key, the key between the two grows, the child gains one key and the left neighbour stays;
/// - otherwise the child is joined into its left neighbour, and the key between them goes;
/// - and without a left neighbour, its right neighbour is joined into it.
pub proof fn law_rebalance_side<T>(n1: Node<T>, n2: Node<T>, lo: int, hi: int, index: int)
    requires
        n1.wf(lo, hi),
        !n1.is_leaf(),
        n1.key_seq().len() >= 1,
        0 <= index < n1.child_seq().len(),
        n1.child_seq()[index].key_seq().len() + 1 == n1.child_seq()[index].order(),
        rebalanced(n1, n2, index),
    ensures
        ({
            let c = n1.child_seq();
            let f = n2.child_seq();
            let k1 = n1.key_seq();
            let k2 = n2.key_seq();
            let t = n1.order();
            let i = index;
            let left_lends = i > 0 && c[i - 1].key_seq().len() > t - 1;
            let right_lends = i + 1 < c.len() && c[i + 1].key_seq().len() > t - 1;
            &&& left_lends ==> {
                &&& f.len() == c.len()
                &&& f[i - 1].key_seq() == c[i - 1].key_seq().drop_last()
                &&& f[i].key_seq().len() == c[i].key_seq().len() + 1
                &&& (i + 1 < c.len() ==> f[i + 1] == c[i + 1])
                &&& k2 == k1.update(i - 1, c[i - 1].key_seq().last())
                &&& k2[i - 1] < k1[i - 1]
            }
            &&& (!left_lends && right_lends) ==> {
                &&& f.len() == c.len()
                &&& f[i + 1].key_seq() == c[i + 1].key_seq().drop_first()
                &&& f[i].key_seq().len() == c[i].key_seq().len() + 1
                &&& (i > 0 ==> f[i - 1] == c[i - 1])
                &&& k2 == k1.update(i, k2[i])
                &&& k2[i] > k1[i]
            }
            &&& (!left_lends && !right_lends && i > 0) ==> {
                &&& k2 == k1.remove(i - 1)
                &&& f.len() + 1 == c.len()
                &&& f[i - 1].key_seq().len() >= c[i - 1].key_seq().len() + c[i].key_seq().len()
                &&& forall|j: int| 0 <= j < i - 1 ==> #[trigger] f[j] == c[j]
                &&& forall|j: int| i <= j < f.len() ==> #[trigger] f[j] == c[j + 1]
            }
            &&& (!left_lends && !right_lends && i == 0) ==> {
                &&& k2 == k1.remove(0)
                &&& f.len() + 1 == c.len()
                &&& f[0].key_seq().len() >= c[0].key_seq().len() + c[1].key_seq().len()
                &&& forall|j: int| 1 <= j < f.len() ==> #[trigger] f[j] == c[j + 1]
            }
        }),
{
    let ks = n1.keys@;
    let c1 = n1.child_seq();
    let c2s = n2.child_seq();
    n1.lemma_wf_order(lo, hi);
    if index > 0 && c1[index - 1].key_seq().len() > n1.order() - 1 {
        let j = index - 1;
        let l = c1[j];
        let llo = lo_of(ks, lo, j);
        assert(l.wf(llo, ks[j] as int));
        l.lemma_wf_order(llo, ks[j] as int);
        assert(l.keys@.last() == l.keys@[l.keys@.len() - 1]);
        assert(l.keys@[l.keys@.len() - 1] < ks[j]);
        assert(c2s[index + 1] == c1[index + 1] || index + 1 >= c1.len());
    } else if index + 1 < c1.len() && c1[index + 1].key_seq().len() > n1.order() - 1 {
        let r = c1[index + 1];
        let rhi = hi_of(ks, hi, index + 1);
        assert(r.wf(ks[index] as int, rhi));
        r.lemma_wf_order(ks[index] as int, rhi);
        assert(ks[index] <= r.keys@[0]);
        if r.is_leaf() {
            assert(r.keys@[0] < r.keys@[1]);
        }
        let c = c1[index];
        c.lemma_wf_order(lo_of(ks, lo, index), hi_of(ks, hi, index));
        c.lemma_depth_leaf(lo_of(ks, lo, index), hi_of(ks, hi, index));
        r.lemma_depth_leaf(ks[index] as int, rhi);
    } else {
        let j = if index > 0 {
            index - 1
        } else {
            index
        };
        assert forall|x: int| 0 <= x < j implies #[trigger] c2s[x] == c1[x] by {}
        assert forall|x: int| j + 1 <= x < c2s.len() implies #[trigger] c2s[x] == c1[x + 1] by {}
    }
}

/// Giving child `index` of a sound inner node, where that child holds the fewest keys it may,
/// one key more (`rebalanced`) keeps the node sound at its depth with the same records; the
/// child that now holds those records, at `index - 1` where it was joined into its left
/// neighbour and at `index` otherwise, holds at least `t` keys.
pub proof fn law_rebalance_keeps_records<T>(n1: Node<T>, n2: Node<T>, lo: int, hi: int, index: int)
    requires
        n1.wf(lo, hi),
        !n1.is_leaf(),
        n1.key_seq().len() >= 1,
        0 <= index < n1.child_seq().len(),
        n1.child_seq()[index].key_seq().len() + 1 == n1.child_seq()[index].order(),
        rebalanced(n1, n2, index),
    ensures
        n2.wf(lo, hi),
        n2.depth() == n1.depth(),
        n2.entries() == n1.entries(),
        ({
            let c = n1.child_seq();
            let j = if index > 0 && c[index - 1].key_seq().len() <= n1.order() - 1 && (index + 1
                == c.len() || c[index + 1].key_seq().len() <= n1.order() - 1) {
                index - 1
            } else {
                index
            };
            n2.child_seq()[j].key_seq().len() >= n2.child_seq()[j].order()
        }),
{
    let ks = n1.keys@;
    let c1 = n1.child_seq();
    let c2s = n2.child_seq();
    let c = c1[index];
    n1.lemma_wf_order(lo, hi);
    let clo = lo_of(ks, lo, index);
    let chi = hi_of(ks, hi, index);
    assert(c.wf(clo, chi));
    c.lemma_wf_order(clo, chi);
    c.lemma_depth_leaf(clo, chi);
    if index > 0 {
        let l = c1[index - 1];
        l.lemma_wf_order(lo_of(ks, lo, index - 1), hi_of(ks, hi, index - 1));
        l.lemma_depth_leaf(lo_of(ks, lo, index - 1), hi_of(ks, hi, index - 1));
        if index < ks.len() {
            assert(ks[index - 1] < ks[index]);
        }
        if index >= 2 {
            assert(ks[index - 2] < ks[index - 1]);
        }
    }
    if index + 1 < c1.len() {
        let r = c1[index + 1];
        r.lemma_wf_order(lo_of(ks, lo, index + 1), hi_of(ks, hi, index + 1));
        r.lemma_depth_leaf(lo_of(ks, lo, index + 1), hi_of(ks, hi, index + 1));
        if index > 0 {
            assert(ks[index - 1] < ks[index]);
        }
        if index + 1 < ks.len() {
            assert(ks[index] < ks[index + 1]);
        }
    }
    if index > 0 && c1[index - 1].key_seq().len() > n1.order() - 1 {
        let j = index - 1;
        let l = c1[j];
        let llo = lo_of(ks, lo, j);
        let sep = ks[j];
        assert(l.wf(llo, sep as int));
        if c.is_leaf() {
            Node::lemma_rotate_right_leaf(l, c, c2s[j], c2s[index], llo, sep as int, chi);
        } else {
            Node::lemma_rotate_right_internal(l, c, c2s[j], c2s[index], llo, sep, chi);
        }
        Node::lemma_replace_two(n1, n2, lo, hi, j, c2s[j], c2s[index], l.keys@.last());
    } else if index + 1 < c1.len() && c1[index + 1].key_seq().len() > n1.order() - 1 {
        let r = c1[index + 1];
        let sep = ks[index];
        let rhi = hi_of(ks, hi, index + 1);
        assert(r.wf(sep as int, rhi));
        if c.is_leaf() {
            Node::lemma_rotate_left_leaf(c, r, c2s[index], c2s[index + 1], clo, sep as int, rhi);
            Node::lemma_replace_two(n1, n2, lo, hi, index, c2s[index], c2s[index + 1], r.keys@[1]);
        } else {
            Node::lemma_rotate_left_internal(c, r, c2s[index], c2s[index + 1], clo, sep, rhi);
            Node::lemma_replace_two(n1, n2, lo, hi, index, c2s[index], c2s[index + 1], r.keys@[0]);
        }
    } else {
        let j = if index > 0 {
            index - 1
        } else {
            index
        };
        let h = c1[j];
        let d = c1[j + 1];
        let hlo = lo_of(ks, lo, j);
        let dhi = hi_of(ks, hi, j + 1);
        let sep = ks[j];
        assert(h.wf(hlo, sep as int));
        assert(d.wf(sep as int, dhi));
        if c.is_leaf() {
            Node::lemma_merge_leaf(h, d, c2s[j], hlo, sep as int, dhi);
        } else {
            Node::lemma_merge_internal(h, d, c2s[j], hlo, sep, dhi);
        }
        Node::lemma_merge_parent(n1, n2, lo, hi, j, c2s[j]);
    }
}

impl<T> BPlusTree<T> {
    #[verifier::type_invariant]
    spec fn inv(self) -> bool {
        match self.root {
            None => true,
            Some(r) => r.wf(0, key_limit()) && r.keys@.len() >= 1,
        }
    }

    /// The leaf that a search for `key` ends in, where the tree has a root.
    pub closed spec fn leaf_for(self, key: u64) -> Option<Node<T>> {
        match self.root {
            None => None,
            Some(r) => Some(r.leaf_for(key)),
        }
    }

    /// The records of the tree in key order.
    pub closed spec fn entries(self) -> Seq<(u64, T)> {
        match self.root {
            None => Seq::empty(),
            Some(r) => r.entries(),
        }
    }

    /// The tree is a sound B+ tree: the root is a sound node over the whole key range, with at
    /// least one key, so that its keys are ordered, every inner node holds one child more than
    /// keys, every leaf lies at the same depth, every node holds at most `2 * t - 1` keys, and
    /// every node below the root holds at least `t - 1` keys.
    pub closed spec fn well_formed(self) -> bool {
        self.inv()
    }

    /// `self` is `t1` after `key` with `value` was put in: a tree without a root gets a leaf
    /// holding just them; a full root is first put under a new inner root and split there
    /// (`split_at`), and the root then takes them in below it (`inserted_below`).
    pub closed spec fn inserted_into(self, t1: BPlusTree<T>, key: u64, value: T) -> bool {
        match t1.root {
            None => match self.root {
                Some(r) => r.is_leaf() && r.t == LEAF_T && r.keys@ == seq![key] && r.data_seq()
                    == seq![value],
                None => false,
            },
            Some(r0) => match self.root {
                None => false,
                Some(r) => if r0.keys@.len() + 1 == 2 * r0.t {
                    exists|n1: Node<T>, s: Node<T>|
                        n1.keys@.len() == 0 && n1.t == INTERNAL_T && !n1.is_leaf() && n1.child_seq()
                            == seq![r0] && #[trigger] split_at(n1, s, 0) && r.inserted_below(
                            s,
                            key,
                            value,
                        )
                } else {
                    r.inserted_below(r0, key, value)
                },
            },
        }
    }

    /// `self` is `t1` after a deletion of `key`: a tree without a root stays so; otherwise the
    /// record of `key` is taken out below the root (`deleted_below`), and a root left without
    /// keys gives way to its only child, or to no root at all where it is a leaf.
    pub closed spec fn deleted_from(self, t1: BPlusTree<T>, key: u64) -> bool {
        match t1.root {
            None => self.root is None,
            Some(r0) => exists|r1: Node<T>|
                #[trigger] r1.deleted_below(r0, key) && if r1.keys@.len() == 0 {
                    if r1.is_leaf() {
                        self.root is None
                    } else {
                        self.root == Some(r1.child_seq()[0])
                    }
                } else {
                    self.root == Some(r1)
                },
        }
    }

    /// The two trees have the same nodes with the same keys and orders and the same number
    /// of records in each leaf: they differ at most in the records.
    pub closed spec fn same_shape(self, other: BPlusTree<T>) -> bool {
        match self.root {
            None => other.root is None,
            Some(a) => match other.root {
                Some(b) => a.same_shape(b),
                None => false,
            },
        }
    }

    /// An empty tree.
    pub fn new() -> (tree: Self)
        ensures
            tree@ == Map::<u64, T>::empty(),
            tree.entries() == Seq::<(u64, T)>::empty(),
            tree.well_formed(),
    {
        let tree = BPlusTree { root: None };
        assert(tree@ =~= Map::<u64, T>::empty());
        tree
    }

    /// The root node, which holds all the records; `None` for an empty tree.
    pub fn root(&self) -> (r: Option<&Node<T>>)
        ensures
            r is None <==> self.entries().len() == 0,
            match r {
                None => self@ == Map::<u64, T>::empty(),
                Some(n) => n.entries() == self.entries() && n.key_seq().len() >= 1,
            },
    {
        proof {
            use_type_invariant(self);
            let root_now = self.root;
            match root_now {
                Some(n) => n.lemma_wf_nonempty(0, key_limit()),
                None => {
                    assert(self@ =~= Map::<u64, T>::empty());
                },
            }
        }
        match &self.root {
            None => None,
            Some(n) => Some(n),
        }
    }

    /// Looks `key` up: the leaf of this tree that a search for it ends in and the key's
    /// position there, or `None` where the tree has no record for it.
    pub fn search(&self, key: u64) -> (r: Option<(&Node<T>, usize)>)
        ensures
            match r {
                None => {
                    &&& !self@.contains_key(key)
                    &&& self.leaf_for(key) matches Some(l) ==> !l.key_seq().contains(key)
                },
                Some((n, i)) => {
                    &&& self@.contains_key(key)
                    &&& self.leaf_for(key) == Some(*n)
                    &&& n.is_leaf()
                    &&& i < n.key_seq().len()
                    &&& n.key_seq()[i as int] == key
                    &&& n.data_seq()[i as int] == self@[key]
                    &&& self.entries().contains((key, n.data_seq()[i as int]))
                },
            },
    {
        proof {
            use_type_invariant(self);
        }
        match &self.root {
            None => None,
            Some(node) => {
                proof {
                    node.lemma_wf_entries(0, key_limit());
                }
                let r = Self::search_in(node, key, Ghost(0), Ghost(key_limit()));
                proof {
                    match r {
                        None => {},
                        Some((n, i)) => {
                            let p = choose|p: int|
                                0 <= p < node.entries().len() && node.entries()[p] == (
                                    key,
                                    n.data_seq()[i as int],
                                );
                            lemma_to_map_at(node.entries(), p);
                        },
                    }
                }
                r
            },
        }
    }

    /// Replaces the record of `key` by `record`; a tree without `key` stays as it is. Every node
    /// keeps its keys and children: only the one record changes.
    pub fn update(&mut self, key: u64, record: T)
        ensures
            final(self)@ == (if old(self)@.contains_key(key) {
                old(self)@.insert(key, record)
            } else {
                old(self)@
            }),
            updated(old(self).entries(), final(self).entries(), key, record),
            final(self)@.dom() == old(self)@.dom(),
            old(self).same_shape(*final(self)),
            sorted_by_key(final(self).entries()),
            final(self).well_formed(),
    {
        proof {
            use_type_invariant(&*self);
        }
        let mut root = None;
        std::mem::swap(&mut root, &mut self.root);
        match root {
            None => {
                assert(!old(self)@.contains_key(key));
            },
            Some(mut node) => {
                let ghost old_node = node;
                Self::update_in(&mut node, key, record, Ghost(0), Ghost(key_limit()));
                proof {
                    old_node.lemma_wf_entries(0, key_limit());
                    let e = old_node.entries();
                    if has_key(e, key) {
                        let p = choose|p: int|
                            0 <= p < e.len() && e[p].0 == key && node.entries() == e.update(
                                p,
                                (key, record),
                            );
                        lemma_to_map_at(e, p);
                        lemma_to_map_update(e, p, record);
                    } else {
                        assert(!to_map(e).contains_key(key));
                    }
                    node.lemma_wf_entries(0, key_limit());
                }
                self.root = Some(node);
            },
        }
        proof {
            assert(self@.dom() =~= old(self)@.dom());
            use_type_invariant(&*self);
        }
    }

    fn update_in(
        node: &mut Node<T>,
        key: u64,
        record: T,
        Ghost(lo): Ghost<int>,
        Ghost(hi): Ghost<int>,
    )
        requires
            old(node).wf(lo, hi),
            old(node).keys@.len() >= 1,
            lo <= key < hi,
        ensures
            final(node).wf(lo, hi),
            final(node).keys@ == old(node).keys@,
            final(node).t == old(node).t,
            final(node).depth() == old(node).depth(),
            final(node).is_leaf() == old(node).is_leaf(),
            updated(old(node).entries(), final(node).entries(), key, record),
            old(node).same_shape(*final(node)),
        decreases *old(node),
    {
        let ghost n1 = *node;
        proof {
            n1.lemma_same_shape_refl();
        }
        let mut i: usize = 0;
        if let NodeType::Internal { children } = &mut node.node_type {
            while i < node.keys.len() && key >= node.keys[i]
                invariant
                    i <= node.keys@.len(),
                    forall|j: int| 0 <= j < i ==> node.keys@[j] <= key,
                decreases node.keys@.len() - i,
            {
                i += 1;
            }
            proof {
                n1.lemma_locate(lo, hi, i as int);
            }
            let ghost clo = lo_of(node.keys@, lo, i as int);
            let ghost chi = hi_of(node.keys@, hi, i as int);
            let ghost c1 = children@[i as int];
            proof {
                c1.lemma_wf_order(clo, chi);
            }
            Self::update_in(&mut children[i], key, record, Ghost(clo), Ghost(chi));
            proof {
                let c2 = children@[i as int];
                Node::lemma_replace_child(n1, *node, lo, hi, i as int, c2);
                let a = Node::<T>::entries_of(n1.child_seq().subrange(0, i as int));
                let cc = Node::<T>::entries_of(
                    n1.child_seq().subrange(i as int + 1, n1.child_seq().len() as int),
                );
                lemma_no_key_outside(a, lo, clo, key);
                lemma_no_key_outside(cc, chi, hi, key);
                lemma_updated_frame(a, c1.entries(), c2.entries(), cc, key, record);
                assert forall|j: int| 0 <= j < n1.child_seq().len() implies (#[trigger] n1.child_seq()[j]).same_shape(
                    node.child_seq()[j],
                ) by {
                    if j != i {
                        n1.child_seq()[j].lemma_same_shape_refl();
                    }
                }
            }
        } else if let NodeType::Leaf { data } = &mut node.node_type {
            while i < node.keys.len() && key > node.keys[i]
                invariant
                    i <= node.keys@.len(),
                    forall|j: int| 0 <= j < i ==> node.keys@[j] < key,
                decreases node.keys@.len() - i,
            {
                i += 1;
            }
            if i > node.keys.len() - 1 {
                proof {
                    assert(!has_key(n1.entries(), key)) by {
                        lemma_no_key_outside(n1.entries(), lo, key as int, key);
                    }
                }
                return;
            }
            if node.keys[i] == key {
                data[i] = record;
                proof {
                    assert(node.entries() =~= n1.entries().update(i as int, (key, record)));
                    assert(n1.entries()[i as int].0 == key);
                }
            } else {
                proof {
                    assert forall|j: int| 0 <= j < n1.entries().len() implies #[trigger] n1.entries()[j].0
                        != key by {
                        if j >= i {
                            assert(node.keys@[j] >= node.keys@[i as int]);
                        }
                    }
                }
            }
        }
    }

    /// Puts `value` under `key` and returns `true`, unless the tree already has a record for
    /// `key`: then it returns `false` and the records stay as they are. On the way down a key of
    /// an inner node equal to `key` sends it to the right, as a search does, and every full
    /// node entered is split first, the root included, whatever the outcome.
    #[verifier::rlimit(60)]
    pub fn insert(&mut self, key: u64, value: T) -> (r: bool)
        ensures
            r == !old(self)@.contains_key(key),
            final(self)@ == (if r {
                old(self)@.insert(key, value)
            } else {
                old(self)@
            }),
            r ==> inserted(old(self).entries(), final(self).entries(), key, value),
            !r ==> final(self).entries() == old(self).entries(),
            sorted_by_key(final(self).entries()),
            final(self).well_formed(),
            final(self).inserted_into(*old(self), key, value),
    {
        proof {
            use_type_invariant(&*self);
        }
        let ghost e0 = old(self).entries();
        let mut root_slot = None;
        std::mem::swap(&mut root_slot, &mut self.root);
        let r;
        match root_slot {
            None => {
                let mut new_root = Node::new_node(LEAF_T, true);
                new_root.keys.push(key);
                if let NodeType::Leaf { data } = &mut new_root.node_type {
                    data.push(value);
                }
                proof {
                    assert(new_root.entries() =~= e0.insert(0, (key, value)));
                    assert(new_root.keys@ =~= seq![key]);
                    assert(new_root.data_seq() =~= seq![value]);
                }
                self.root = Some(new_root);
                r = true;
            },
            Some(mut root) => {
                proof {
                    root.lemma_wf_order(0, key_limit());
                }
                if root.is_full() {
                    let ghost old_root = root;
                    let mut new_root = Node::new_node(INTERNAL_T, false);
                    if let NodeType::Internal { children } = &mut new_root.node_type {
                        children.insert(0, root);
                    }
                    proof {
                        assert(new_root.child_seq() =~= seq![old_root]);
                        Node::lemma_entries_of_single(old_root);
                        assert(new_root.wf(0, key_limit())) by {
                            assert(new_root.child_seq()[0] == old_root);
                            assert(lo_of(new_root.keys@, 0, 0) == 0);
                            assert(hi_of(new_root.keys@, key_limit(), 0) == key_limit());
                        }
                    }
                    let ghost pre_split = new_root;
                    new_root.split_child(0, Ghost(0), Ghost(key_limit()));
                    let ghost split_root = new_root;
                    r = Self::insert_non_full(&mut new_root, key, value, Ghost(0), Ghost(key_limit()));
                    proof {
                        assert(split_at(pre_split, split_root, 0));
                        assert(new_root.inserted_below(split_root, key, value));
                    }
                    self.root = Some(new_root);
                } else {
                    r = Self::insert_non_full(&mut root, key, value, Ghost(0), Ghost(key_limit()));
                    self.root = Some(root);
                }
            },
        }
        proof {
            let root_now = self.root;
            match root_now {
                Some(n) => n.lemma_wf_entries(0, key_limit()),
                None => {},
            }
            if r {
                let e1 = self.entries();
                let p = choose|p: int| 0 <= p <= e0.len() && e1 == e0.insert(p, (key, value));
                lemma_to_map_insert(e0, p, key, value);
            }
            use_type_invariant(&*self);
        }
        r
    }

    #[verifier::rlimit(80)]
    fn insert_non_full(
        node: &mut Node<T>,
        key: u64,
        value: T,
        Ghost(lo): Ghost<int>,
        Ghost(hi): Ghost<int>,
    ) -> (r: bool)
        requires
            old(node).wf(lo, hi),
            old(node).keys@.len() + 2 <= 2 * old(node).t,
            lo <= key < hi,
        ensures
            final(node).wf(lo, hi),
            final(node).t == old(node).t,
            final(node).depth() == old(node).depth(),
            final(node).is_leaf() == old(node).is_leaf(),
            final(node).keys@.len() >= old(node).keys@.len(),
            r == !has_key(old(node).entries(), key),
            r ==> inserted(old(node).entries(), final(node).entries(), key, value),
            !r ==> final(node).entries() == old(node).entries(),
            final(node).inserted_below(*old(node), key, value),
        decreases old(node).depth(),
    {
        let ghost n0 = *node;
        proof {
            n0.lemma_wf_order(lo, hi);
        }
        let is_leaf = match &node.node_type {
            NodeType::Leaf { .. } => true,
            NodeType::Internal { .. } => false,
        };
        let mut i: usize = 0;
        if is_leaf {
            while i < node.keys.len() && key > node.keys[i]
                invariant
                    i <= node.keys@.len(),
                    forall|j: int| 0 <= j < i ==> node.keys@[j] < key,
                decreases node.keys@.len() - i,
            {
                i += 1;
            }
            if i < node.keys.len() && key == node.keys[i] {
                proof {
                    assert(n0.keys@.contains(key));
                    assert(n0.entries()[i as int].0 == key);
                }
                return false;
            }
            proof {
                assert forall|j: int| i <= j < n0.keys@.len() implies key < #[trigger] n0.keys@[j] by {
                    assert(n0.keys@[i as int] <= n0.keys@[j]);
                }
                lemma_route(n0.keys@, key, i as int);
                assert(!n0.keys@.contains(key));
            }
            node.keys.insert(i, key);
            if let NodeType::Leaf { data } = &mut node.node_type {
                data.insert(i, value);
            }
            proof {
                Node::lemma_leaf_insert(n0, *node, lo, hi, i as int, key, value);
            }
            true
        } else {
            while i < node.keys.len() && key >= node.keys[i]
                invariant
                    i <= node.keys@.len(),
                    forall|j: int| 0 <= j < i ==> node.keys@[j] <= key,
                decreases node.keys@.len() - i,
            {
                i += 1;
            }
            proof {
                lemma_route(n0.keys@, key, i as int);
            }
            let mut is_children_full = false;
            if let NodeType::Internal { children } = &node.node_type {
                proof {
                    children@[i as int].lemma_wf_order(
                        lo_of(n0.keys@, lo, i as int),
                        hi_of(n0.keys@, hi, i as int),
                    );
                }
                is_children_full = children[i].is_full();
            }
            let ghost i0 = i as int;
            if is_children_full {
                node.split_child(i, Ghost(lo), Ghost(hi));
                if key >= node.keys[i] {
                    i += 1;
                }
            }
            let ghost n1 = *node;
            proof {
                let k1 = n1.keys@;
                assert(n1.readied_for_insert(n0, key));
                assert(n1.entries() == n0.entries());
                assert forall|j: int| 0 <= j < i implies k1[j] <= key by {
                    if is_children_full && j < i0 {
                        assert(k1[j] == n0.keys@[j]);
                    }
                }
                if i < k1.len() {
                    if is_children_full && i > i0 {
                        assert(k1[i as int] == n0.keys@[i - 1]);
                    }
                }
                lemma_route(k1, key, i as int);
            }
            let ghost clo = lo_of(n1.keys@, lo, i as int);
            let ghost chi = hi_of(n1.keys@, hi, i as int);
            proof {
                n1.lemma_wf_order(lo, hi);
                n1.lemma_locate(lo, hi, i as int);
                let c1 = n1.child_seq()[i as int];
                c1.lemma_wf_order(clo, chi);
                if is_children_full {
                    assert(c1.keys@.len() + 2 <= 2 * c1.t);
                } else {
                    assert(c1 == n0.child_seq()[i0]);
                }
            }
            if let NodeType::Internal { children } = &mut node.node_type {
                let r = Self::insert_non_full(&mut children[i], key, value, Ghost(clo), Ghost(chi));
                proof {
                    Node::lemma_insert_child(
                        n1,
                        *node,
                        lo,
                        hi,
                        i as int,
                        children@[i as int],
                        key,
                        value,
                        r,
                    );
                    assert(children@ == n1.child_seq().update(i as int, children@[i as int]));
                }
                r
            } else {
                false
            }
        }
    }

    /// Moves the last key of child `index - 1` over to child `index`. An inner child gets the
    /// key between the two in front of its keys and the left child's last child in front of its
    /// children, and the left child's last key takes the place of that key here. A leaf gets the
    /// left leaf's last key and record in front, and its new first key becomes the key here.
    #[verifier::rlimit(80)]
    fn borrow_from_left(padre: &mut Node<T>, index: usize, Ghost(lo): Ghost<int>, Ghost(hi): Ghost<int>)
        requires
            !old(padre).is_leaf(),
            1 <= index < old(padre).child_seq().len(),
            old(padre).child_seq().len() == old(padre).keys@.len() + 1,
            old(padre).child_seq()[index - 1].is_leaf() == old(padre).child_seq()[index as int].is_leaf(),
            old(padre).child_seq()[index - 1].keys@.len() >= 1,
            old(padre).child_seq()[index - 1].is_leaf() ==> old(padre).child_seq()[index
                - 1].data_seq().len() >= 1,
            !old(padre).child_seq()[index - 1].is_leaf() ==> old(padre).child_seq()[index
                - 1].child_seq().len() >= 1,
        ensures
            borrowed_from_left(*old(padre), *final(padre), index as int),
            final(padre).t == old(padre).t,
            final(padre).keys@ == old(padre).keys@.update(
                index - 1,
                final(padre).keys@[index - 1],
            ),
            final(padre).child_seq().len() == old(padre).child_seq().len(),
            final(padre).child_seq()[index as int].keys@.len() == old(padre).child_seq()[index as int].keys@.len() + 1,
            old(padre).wf(lo, hi) && old(padre).child_seq()[index - 1].keys@.len() > INTERNAL_T - 1
                && old(padre).child_seq()[index as int].keys@.len() + 2 <= 2 * old(
                padre,
            ).child_seq()[index as int].t ==> {
                &&& final(padre).wf(lo, hi)
                &&& final(padre).depth() == old(padre).depth()
                &&& final(padre).entries() == old(padre).entries()
                &&& final(padre).keys@[index - 1] < old(padre).keys@[index - 1]
            },
    {
        let ghost n1 = *padre;
        let ghost j = index - 1;
        let ghost l = n1.child_seq()[j];
        let ghost c = n1.child_seq()[index as int];
        let ghost llo = lo_of(n1.keys@, lo, j);
        let ghost chi = hi_of(n1.keys@, hi, index as int);
        let ghost sound = n1.wf(lo, hi) && l.keys@.len() > INTERNAL_T - 1 && c.keys@.len() + 2 <= 2
            * c.t;
        proof {
            if sound {
                assert(l.wf(llo, n1.keys@[j] as int));
                assert(c.wf(n1.keys@[j] as int, chi));
                l.lemma_depth_leaf(llo, n1.keys@[j] as int);
                c.lemma_depth_leaf(n1.keys@[j] as int, chi);
                if index < n1.keys@.len() {
                    assert(n1.keys@[j] < n1.keys@[index as int]);
                }
            }
        }
        if let NodeType::Internal { children } = &mut padre.node_type {
            let child_is_leaf = match &children[index].node_type {
                NodeType::Leaf { .. } => true,
                NodeType::Internal { .. } => false,
            };
            if !child_is_leaf {
                let sep = padre.keys[index - 1];
                let moved_key;
                let moved_child;
                {
                    let izq = &mut children[index - 1];
                    moved_key = izq.keys.pop().expect("unreachable");
                    moved_child = match &mut izq.node_type {
                        NodeType::Internal { children: children_izq } => children_izq.pop(),
                        NodeType::Leaf { .. } => None,
                    };
                }
                padre.keys[index - 1] = moved_key;
                let hijo = &mut children[index];
                hijo.keys.insert(0, sep);
                if let NodeType::Internal { children: children_hijo } = &mut hijo.node_type {
                    children_hijo.insert(0, moved_child.expect("unreachable"));
                }
                proof {
                    let l2 = children@[j];
                    let c2 = children@[index as int];
                    assert(c2.child_seq() =~= seq![l.child_seq().last()] + c.child_seq());
                    assert(c2.keys@ =~= seq![sep] + c.keys@);
                    assert(children@ =~= n1.child_seq().update(j, l2).update(index as int, c2));
                    if sound {
                        Node::lemma_rotate_right_internal(l, c, l2, c2, llo, sep, chi);
                        Node::lemma_replace_two(n1, *padre, lo, hi, j, l2, c2, moved_key);
                    }
                }
            } else {
                let moved_key;
                let moved_record;
                {
                    let izq = &mut children[index - 1];
                    moved_key = izq.keys.pop().expect("unreachable");
                    moved_record = match &mut izq.node_type {
                        NodeType::Leaf { data: data_izq } => data_izq.pop(),
                        NodeType::Internal { .. } => None,
                    };
                }
                let hijo = &mut children[index];
                hijo.keys.insert(0, moved_key);
                if let NodeType::Leaf { data } = &mut hijo.node_type {
                    data.insert(0, moved_record.expect("unreachable"));
                }
                padre.keys[index - 1] = hijo.keys[0];
                proof {
                    let l2 = children@[j];
                    let c2 = children@[index as int];
                    assert(c2.data_seq() =~= seq![l.data_seq().last()] + c.data_seq());
                    assert(c2.keys@ =~= seq![l.keys@.last()] + c.keys@);
                    assert(children@ =~= n1.child_seq().update(j, l2).update(index as int, c2));
                    if sound {
                        Node::lemma_rotate_right_leaf(l, c, l2, c2, llo, n1.keys@[j] as int, chi);
                        Node::lemma_replace_two(n1, *padre, lo, hi, j, l2, c2, moved_key);
                    }
                }
            }
        }
    }

    /// Moves the first key of child `index + 1` over to child `index`. An inner child gets the
    /// key between the two behind its keys and the right child's first child behind its
    /// children, and the right child's first key takes the place of that key here. A leaf gets
    /// the right leaf's first key and record behind, and the right leaf's new first key becomes
    /// the key here.
    #[verifier::rlimit(80)]
    fn borrow_from_right(padre: &mut Node<T>, index: usize, Ghost(lo): Ghost<int>, Ghost(hi): Ghost<int>)
        requires
            !old(padre).is_leaf(),
            index + 1 < old(padre).child_seq().len(),
            old(padre).child_seq().len() == old(padre).keys@.len() + 1,
            old(padre).child_seq()[index + 1].is_leaf() == old(padre).child_seq()[index as int].is_leaf(),
            old(padre).child_seq()[index + 1].is_leaf() ==> {
                &&& old(padre).child_seq()[index + 1].keys@.len() >= 2
                &&& old(padre).child_seq()[index + 1].data_seq().len() >= 1
            },
            !old(padre).child_seq()[index + 1].is_leaf() ==> {
                &&& old(padre).child_seq()[index + 1].keys@.len() >= 1
                &&& old(padre).child_seq()[index + 1].child_seq().len() >= 1
            },
        ensures
            borrowed_from_right(*old(padre), *final(padre), index as int),
            final(padre).t == old(padre).t,
            final(padre).keys@ == old(padre).keys@.update(
                index as int,
                final(padre).keys@[index as int],
            ),
            final(padre).child_seq().len() == old(padre).child_seq().len(),
            final(padre).child_seq()[index as int].keys@.len() == old(padre).child_seq()[index as int].keys@.len() + 1,
            old(padre).wf(lo, hi) && old(padre).child_seq()[index + 1].keys@.len() > INTERNAL_T - 1
                && old(padre).child_seq()[index as int].keys@.len() + 2 <= 2 * old(
                padre,
            ).child_seq()[index as int].t ==> {
                &&& final(padre).wf(lo, hi)
                &&& final(padre).depth() == old(padre).depth()
                &&& final(padre).entries() == old(padre).entries()
                &&& final(padre).keys@[index as int] > old(padre).keys@[index as int]
            },
    {
        let ghost n1 = *padre;
        let ghost j = index as int;
        let ghost c = n1.child_seq()[j];
        let ghost r = n1.child_seq()[j + 1];
        let ghost clo = lo_of(n1.keys@, lo, j);
        let ghost rhi = hi_of(n1.keys@, hi, j + 1);
        let ghost sound = n1.wf(lo, hi) && r.keys@.len() > INTERNAL_T - 1 && c.keys@.len() + 2 <= 2
            * c.t;
        proof {
            if sound {
                assert(c.wf(clo, n1.keys@[j] as int));
                assert(r.wf(n1.keys@[j] as int, rhi));
                c.lemma_depth_leaf(clo, n1.keys@[j] as int);
                r.lemma_depth_leaf(n1.keys@[j] as int, rhi);
                if j > 0 {
                    assert(n1.keys@[j - 1] < n1.keys@[j]);
                }
            }
        }
        if let NodeType::Internal { children } = &mut padre.node_type {
            assert(index + 1 < children.len());
            let child_is_leaf = match &children[index].node_type {
                NodeType::Leaf { .. } => true,
                NodeType::Internal { .. } => false,
            };
            if !child_is_leaf {
                let sep = padre.keys[index];
                let moved_key;
                let moved_child;
                {
                    let der = &mut children[index + 1];
                    moved_child = match &mut der.node_type {
                        NodeType::Internal { children: children_der } => Some(children_der.remove(0)),
                        NodeType::Leaf { .. } => None,
                    };
                    moved_key = der.keys.remove(0);
                }
                let hijo = &mut children[index];
                hijo.keys.push(sep);
                if let NodeType::Internal { children: children_hijo } = &mut hijo.node_type {
                    children_hijo.push(moved_child.expect("unreachable"));
                }
                padre.keys[index] = moved_key;
                proof {
                    let c2 = children@[j];
                    let r2 = children@[j + 1];
                    assert(children@ =~= n1.child_seq().update(j, c2).update(j + 1, r2));
                    if sound {
                        Node::lemma_rotate_left_internal(c, r, c2, r2, clo, sep, rhi);
                        Node::lemma_replace_two(n1, *padre, lo, hi, j, c2, r2, moved_key);
                    }
                }
            } else {
                let moved_key;
                let moved_record;
                let next_key;
                {
                    let der = &mut children[index + 1];
                    moved_key = der.keys.remove(0);
                    moved_record = match &mut der.node_type {
                        NodeType::Leaf { data: data_der } => Some(data_der.remove(0)),
                        NodeType::Internal { .. } => None,
                    };
                    next_key = der.keys[0];
                }
                let hijo = &mut children[index];
                hijo.keys.push(moved_key);
                if let NodeType::Leaf { data } = &mut hijo.node_type {
                    data.push(moved_record.expect("unreachable"));
                }
                padre.keys[index] = next_key;
                proof {
                    let c2 = children@[j];
                    let r2 = children@[j + 1];
                    assert(children@ =~= n1.child_seq().update(j, c2).update(j + 1, r2));
                    if sound {
                        Node::lemma_rotate_left_leaf(c, r, c2, r2, clo, n1.keys@[j] as int, rhi);
                        Node::lemma_replace_two(n1, *padre, lo, hi, j, c2, r2, next_key);
                    }
                }
            }
        }
    }

    /// Joins child `index + 1` into child `index` and drops the key between them; an inner
    /// child takes that key between its keys and those of its right neighbour.
    #[verifier::rlimit(60)]
    fn merge_from_right(padre: &mut Node<T>, index: usize, Ghost(lo): Ghost<int>, Ghost(hi): Ghost<int>)
        requires
            !old(padre).is_leaf(),
            index + 1 < old(padre).child_seq().len(),
            old(padre).child_seq().len() == old(padre).keys@.len() + 1,
            old(padre).child_seq()[index + 1].is_leaf() == old(padre).child_seq()[index as int].is_leaf(),
        ensures
            merged_at(*old(padre), *final(padre), index as int),
            final(padre).t == old(padre).t,
            final(padre).keys@ == old(padre).keys@.remove(index as int),
            final(padre).child_seq().len() + 1 == old(padre).child_seq().len(),
            final(padre).child_seq()[index as int].keys@.len() >= old(padre).child_seq()[index as int].keys@.len()
                + old(padre).child_seq()[index + 1].keys@.len(),
            old(padre).wf(lo, hi) && old(padre).child_seq()[index as int].keys@.len() + old(
                padre,
            ).child_seq()[index + 1].keys@.len() + (if old(padre).child_seq()[index as int].is_leaf() {
                1int
            } else {
                2int
            }) <= 2 * old(padre).child_seq()[index as int].t ==> {
                &&& final(padre).wf(lo, hi)
                &&& final(padre).depth() == old(padre).depth()
                &&& final(padre).entries() == old(padre).entries()
            },
    {
        let ghost n1 = *padre;
        let ghost j = index as int;
        let ghost h = n1.child_seq()[j];
        let ghost d = n1.child_seq()[j + 1];
        let ghost hlo = lo_of(n1.keys@, lo, j);
        let ghost dhi = hi_of(n1.keys@, hi, j + 1);
        let ghost sound = n1.wf(lo, hi) && h.keys@.len() + d.keys@.len() + (if h.is_leaf() {
            1int
        } else {
            2int
        }) <= 2 * h.t;
        proof {
            if sound {
                assert(h.wf(hlo, n1.keys@[j] as int));
                assert(d.wf(n1.keys@[j] as int, dhi));
                h.lemma_depth_leaf(hlo, n1.keys@[j] as int);
                d.lemma_depth_leaf(n1.keys@[j] as int, dhi);
                if j > 0 {
                    assert(n1.keys@[j - 1] < n1.keys@[j]);
                }
                if j + 1 < n1.keys@.len() {
                    assert(n1.keys@[j] < n1.keys@[j + 1]);
                }
            }
        }
        if let NodeType::Internal { children } = &mut padre.node_type {
            assert(index + 1 < children.len());
            let mut der = children.remove(index + 1);
            let hijo = &mut children[index];
            match &mut hijo.node_type {
                NodeType::Internal { children: children_hijo } => {
                    hijo.keys.push(padre.keys.remove(index));
                    hijo.keys.append(&mut der.keys);
                    if let NodeType::Internal { children: children_der } = &mut der.node_type {
                        children_hijo.append(children_der);
                    }
                    proof {
                        let m = children@[j];
                        assert(m.keys@ =~= h.keys@ + seq![n1.keys@[j]] + d.keys@);
                        if sound {
                            Node::lemma_merge_internal(h, d, m, hlo, n1.keys@[j], dhi);
                        }
                    }
                },
                NodeType::Leaf { data } => {
                    hijo.keys.append(&mut der.keys);
                    if let NodeType::Leaf { data: data_der } = &mut der.node_type {
                        data.append(data_der);
                    }
                    padre.keys.remove(index);
                    proof {
                        let m = children@[j];
                        if sound {
                            Node::lemma_merge_leaf(h, d, m, hlo, n1.keys@[j] as int, dhi);
                        }
                    }
                },
            }
            proof {
                let m = children@[j];
                assert(children@ =~= n1.child_seq().update(j, m).remove(j + 1));
                if sound {
                    Node::lemma_merge_parent(n1, *padre, lo, hi, j, m);
                }
            }
        }
    }

    /// Gives child `index`, which holds the fewest keys it may, one key more: borrowed from the
    /// left neighbour if that holds more than `t - 1` keys (`t` the order of this node), else
    /// from the right neighbour if that does, else by joining it into its left neighbour, or
    /// failing that joining its right neighbour into it. Neither neighbour then holds more
    /// than `t - 1` keys, so the joined node holds no more than its order allows. Returns `true` where it was joined into
    /// its left neighbour, which then stands at `index - 1`.
    #[verifier::rlimit(60)]
    fn borrow_or_merge(node: &mut Node<T>, index: usize, Ghost(lo): Ghost<int>, Ghost(hi): Ghost<int>) -> (consumed: bool)
        requires
            old(node).wf(lo, hi),
            !old(node).is_leaf(),
            old(node).keys@.len() >= 1,
            index < old(node).child_seq().len(),
            old(node).child_seq()[index as int].keys@.len() + 1 == old(node).child_seq()[index as int].t,
        ensures
            rebalanced(*old(node), *final(node), index as int),
            ({
                let c = old(node).child_seq();
                let f = final(node).child_seq();
                let k1 = old(node).key_seq();
                let k2 = final(node).key_seq();
                let t = old(node).order();
                let i = index as int;
                let left_lends = i > 0 && c[i - 1].key_seq().len() > t - 1;
                let right_lends = i + 1 < c.len() && c[i + 1].key_seq().len() > t - 1;
                &&& left_lends ==> {
                    &&& f.len() == c.len()
                    &&& f[i - 1].key_seq() == c[i - 1].key_seq().drop_last()
                    &&& f[i].key_seq().len() == c[i].key_seq().len() + 1
                    &&& (i + 1 < c.len() ==> f[i + 1] == c[i + 1])
                    &&& k2 == k1.update(i - 1, c[i - 1].key_seq().last())
                    &&& k2[i - 1] < k1[i - 1]
                }
                &&& (!left_lends && right_lends) ==> {
                    &&& f.len() == c.len()
                    &&& f[i + 1].key_seq() == c[i + 1].key_seq().drop_first()
                    &&& f[i].key_seq().len() == c[i].key_seq().len() + 1
                    &&& (i > 0 ==> f[i - 1] == c[i - 1])
                    &&& k2 == k1.update(i, k2[i])
                    &&& k2[i] > k1[i]
                }
                &&& (!left_lends && !right_lends && i > 0) ==> {
                    &&& k2 == k1.remove(i - 1)
                    &&& f.len() + 1 == c.len()
                    &&& f[i - 1].key_seq().len() >= c[i - 1].key_seq().len() + c[i].key_seq().len()
                }
                &&& (!left_lends && !right_lends && i == 0) ==> {
                    &&& k2 == k1.remove(0)
                    &&& f.len() + 1 == c.len()
                    &&& f[0].key_seq().len() >= c[0].key_seq().len() + c[1].key_seq().len()
                }
            }),
            consumed == (index > 0 && old(node).child_seq()[index - 1].keys@.len() <= old(node).t
                - 1 && (index + 1 == old(node).child_seq().len() || old(node).child_seq()[index
                + 1].keys@.len() <= old(node).t - 1)),
            final(node).wf(lo, hi),
            !final(node).is_leaf(),
            final(node).t == old(node).t,
            final(node).depth() == old(node).depth(),
            final(node).entries() == old(node).entries(),
            final(node).keys@.len() + 1 >= old(node).keys@.len(),
            consumed ==> {
                &&& index >= 1
                &&& final(node).keys@ == old(node).keys@.remove(index - 1)
                &&& final(node).child_seq()[index - 1].keys@.len() >= final(node).child_seq()[index
                    - 1].t
            },
            !consumed ==> {
                &&& index < final(node).child_seq().len()
                &&& lo_of(final(node).keys@, lo, index as int) <= lo_of(old(node).keys@, lo, index as int)
                &&& hi_of(final(node).keys@, hi, index as int) >= hi_of(old(node).keys@, hi, index as int)
                &&& final(node).child_seq()[index as int].keys@.len() >= final(node).child_seq()[index as int].t
            },
    {
        let ghost n0 = *node;
        let ghost ks = n0.keys@;
        proof {
            n0.lemma_wf_order(lo, hi);
            let c = n0.child_seq()[index as int];
            c.lemma_wf_order(lo_of(ks, lo, index as int), hi_of(ks, hi, index as int));
            c.lemma_depth_leaf(lo_of(ks, lo, index as int), hi_of(ks, hi, index as int));
            if index > 0 {
                let l = n0.child_seq()[index - 1];
                l.lemma_wf_order(lo_of(ks, lo, index - 1), hi_of(ks, hi, index - 1));
                l.lemma_depth_leaf(lo_of(ks, lo, index - 1), hi_of(ks, hi, index - 1));
            }
            if index + 1 < n0.child_seq().len() {
                let r = n0.child_seq()[index + 1];
                r.lemma_wf_order(lo_of(ks, lo, index + 1), hi_of(ks, hi, index + 1));
                r.lemma_depth_leaf(lo_of(ks, lo, index + 1), hi_of(ks, hi, index + 1));
            }
        }
        let t = node.t;
        let mut has_right = false;
        let mut has_left = false;
        let mut is_left_empty = false;
        let mut is_right_empty = false;
        if let NodeType::Internal { children } = &node.node_type {
            if index > 0 {
                if children[index - 1].keys.len() > (t - 1) as usize {
                    is_left_empty = true;
                }
                has_left = true;
            }
            if index < children.len() - 1 {
                if children[index + 1].keys.len() > (t - 1) as usize {
                    is_right_empty = true;
                }
                has_right = true;
            }
        }
        if has_left && is_left_empty {
            Self::borrow_from_left(node, index, Ghost(lo), Ghost(hi));
            proof {
                Self::lemma_child_order(n0, *node, lo, hi, index as int, index as int);
                law_rebalance_side(n0, *node, lo, hi, index as int);
            }
            return false;
        } else if has_right && is_right_empty {
            Self::borrow_from_right(node, index, Ghost(lo), Ghost(hi));
            proof {
                Self::lemma_child_order(n0, *node, lo, hi, index as int, index as int);
                law_rebalance_side(n0, *node, lo, hi, index as int);
            }
            return false;
        } else if has_left {
            Self::merge_from_right(node, index - 1, Ghost(lo), Ghost(hi));
            proof {
                Self::lemma_child_order(n0, *node, lo, hi, index - 1, index - 1);
                law_rebalance_side(n0, *node, lo, hi, index as int);
            }
            return true;
        } else if has_right {
            Self::merge_from_right(node, index, Ghost(lo), Ghost(hi));
            proof {
                Self::lemma_child_order(n0, *node, lo, hi, index as int, index as int);
                law_rebalance_side(n0, *node, lo, hi, index as int);
                if index + 1 < ks.len() {
                    assert(ks[index as int] < ks[index + 1]);
                }
            }
            return false;
        }
        false
    }

    /// Child `j2` of a sound node after a change that kept its depth has the order of child
    /// `j1` before.
    proof fn lemma_child_order(n0: Node<T>, n1: Node<T>, lo: int, hi: int, j1: int, j2: int)
        requires
            n0.wf(lo, hi),
            n1.wf(lo, hi),
            !n0.is_leaf(),
            !n1.is_leaf(),
            n1.depth() == n0.depth(),
            0 <= j1 < n0.child_seq().len(),
            0 <= j2 < n1.child_seq().len(),
        ensures
            n1.child_seq()[j2].t == n0.child_seq()[j1].t,
            n1.child_seq()[j2].t >= 3,
    {
        let c0 = n0.child_seq()[j1];
        let c1 = n1.child_seq()[j2];
        c0.lemma_wf_order(lo_of(n0.keys@, lo, j1), hi_of(n0.keys@, hi, j1));
        c0.lemma_depth_leaf(lo_of(n0.keys@, lo, j1), hi_of(n0.keys@, hi, j1));
        c1.lemma_wf_order(lo_of(n1.keys@, lo, j2), hi_of(n1.keys@, hi, j2));
        c1.lemma_depth_leaf(lo_of(n1.keys@, lo, j2), hi_of(n1.keys@, hi, j2));
    }

    /// Removes the record of `key` from the tree; a tree without `key` stays as it is. On the
    /// way down every child entered is first given a key more where it holds the fewest it may,
    /// and a root left without keys gives way to its only child, or to no root at all.
    #[verifier::rlimit(60)]
    pub fn delete(&mut self, key: u64)
        ensures
            final(self)@ == old(self)@.remove(key),
            removed(old(self).entries(), final(self).entries(), key),
            sorted_by_key(final(self).entries()),
            final(self).well_formed(),
            final(self).deleted_from(*old(self), key),
    {
        proof {
            use_type_invariant(&*self);
        }
        let ghost e0 = old(self).entries();
        let mut root_slot = None;
        std::mem::swap(&mut root_slot, &mut self.root);
        match root_slot {
            None => {
                proof {
                    assert(!has_key(e0, key));
                    assert(old(self)@ =~= old(self)@.remove(key));
                }
            },
            Some(mut root) => {
                let ghost r0 = root;
                Self::delete_in(&mut root, key, Ghost(0), Ghost(key_limit()));
                let ghost r1 = root;
                if root.keys.is_empty() {
                    match root.node_type {
                        NodeType::Internal { mut children } => {
                            proof {
                                r1.lemma_wf_order(0, key_limit());
                                Node::lemma_entries_of_single(children@[0]);
                                assert(children@ =~= seq![children@[0]]);
                                let c = children@[0];
                                assert(c.wf(0, key_limit()));
                                c.lemma_wf_order(0, key_limit());
                                assert(c == r1.child_seq()[0]);
                            }
                            self.root = Some(children.remove(0));
                        },
                        NodeType::Leaf { .. } => {
                            proof {
                                assert(r1.entries() =~= Seq::<(u64, T)>::empty());
                            }
                        },
                    }
                } else {
                    self.root = Some(root);
                }
                proof {
                    assert(r1.deleted_below(r0, key));
                    assert(self.entries() == r1.entries());
                    r0.lemma_wf_entries(0, key_limit());
                    if has_key(e0, key) {
                        let p = choose|p: int|
                            0 <= p < e0.len() && e0[p].0 == key && r1.entries() == e0.remove(p);
                        lemma_to_map_remove(e0, p);
                    } else {
                        assert(old(self)@ =~= old(self)@.remove(key));
                    }
                    let root_now = self.root;
                    match root_now {
                        Some(n) => n.lemma_wf_entries(0, key_limit()),
                        None => {},
                    }
                }
            },
        }
        proof {
            use_type_invariant(&*self);
        }
    }

    #[verifier::rlimit(60)]
    fn delete_in(node: &mut Node<T>, key: u64, Ghost(lo): Ghost<int>, Ghost(hi): Ghost<int>)
        requires
            old(node).wf(lo, hi),
            lo <= key < hi,
            !old(node).is_leaf() ==> old(node).keys@.len() >= 1,
        ensures
            final(node).wf(lo, hi),
            final(node).t == old(node).t,
            final(node).depth() == old(node).depth(),
            final(node).is_leaf() == old(node).is_leaf(),
            final(node).keys@.len() + 1 >= old(node).keys@.len(),
            removed(old(node).entries(), final(node).entries(), key),
            final(node).deleted_below(*old(node), key),
        decreases old(node).depth(),
    {
        let ghost n0 = *node;
        let mut i: usize = 0;
        let is_leaf = match &node.node_type {
            NodeType::Leaf { .. } => true,
            NodeType::Internal { .. } => false,
        };
        if !is_leaf {
            while i < node.keys.len() && key >= node.keys[i]
                invariant
                    i <= node.keys@.len(),
                    forall|j: int| 0 <= j < i ==> node.keys@[j] <= key,
                decreases node.keys@.len() - i,
            {
                i += 1;
            }
            proof {
                n0.lemma_wf_order(lo, hi);
                let c = n0.child_seq()[i as int];
                c.lemma_wf_order(lo_of(n0.keys@, lo, i as int), hi_of(n0.keys@, hi, i as int));
                lemma_route(n0.keys@, key, i as int);
            }
            let is_child_empty = match &node.node_type {
                NodeType::Internal { children } => {
                    let t = children[i].t;
                    children[i].keys.len() == (t - 1) as usize
                },
                NodeType::Leaf { .. } => false,
            };
            if is_child_empty {
                let ghost i0 = i as int;
                let consumed = Self::borrow_or_merge(node, i, Ghost(lo), Ghost(hi));
                if consumed {
                    i -= 1;
                    proof {
                        let k0 = n0.keys@;
                        let k1 = node.keys@;
                        if i0 >= 2 {
                            assert(k0[i0 - 2] < k0[i0 - 1]);
                        }
                        assert(lo_of(node.keys@, lo, i as int) <= key);
                        assert(hi_of(node.keys@, hi, i as int) == hi_of(k0, hi, i0));
                        assert forall|j: int| 0 <= j < i implies k1[j] <= key by {
                            assert(k1[j] == k0[j]);
                        }
                        lemma_route(k1, key, i as int);
                    }
                } else {
                    i = 0;
                    while i < node.keys.len() && key >= node.keys[i]
                        invariant
                            i <= node.keys@.len(),
                            forall|j: int| 0 <= j < i ==> node.keys@[j] <= key,
                        decreases node.keys@.len() - i,
                    {
                        i += 1;
                    }
                    proof {
                        let k1 = node.keys@;
                        lemma_route(k1, key, i as int);
                        assert forall|j: int| 0 <= j < i0 implies k1[j] <= key by {
                            if j < i0 - 1 {
                                assert(k1[j] < k1[i0 - 1]);
                            }
                        }
                        lemma_route(k1, key, i0);
                    }
                }
            } else {
                proof {
                    Self::lemma_child_order(n0, n0, lo, hi, i as int, i as int);
                }
            }
            let ghost n1 = *node;
            assert(n1.readied_for(n0, key));
            assert(route(n1.keys@, key) == i);
            let ghost clo = lo_of(n1.keys@, lo, i as int);
            let ghost chi = hi_of(n1.keys@, hi, i as int);
            proof {
                n1.lemma_locate(lo, hi, i as int);
                n1.child_seq()[i as int].lemma_wf_order(clo, chi);
            }
            if let NodeType::Internal { children } = &mut node.node_type {
                let ghost c1 = children@[i as int];
                Self::delete_in(&mut children[i], key, Ghost(clo), Ghost(chi));
                proof {
                    let c2 = children@[i as int];
                    Node::lemma_replace_child(n1, *node, lo, hi, i as int, c2);
                    let a = Node::<T>::entries_of(n1.child_seq().subrange(0, i as int));
                    let cc = Node::<T>::entries_of(
                        n1.child_seq().subrange(i as int + 1, n1.child_seq().len() as int),
                    );
                    lemma_no_key_outside(a, lo, clo, key);
                    lemma_no_key_outside(cc, chi, hi, key);
                    lemma_removed_frame(a, c1.entries(), c2.entries(), cc, key);
                    assert(children@ == n1.child_seq().update(i as int, c2));
                }
            }
        } else {
            while i < node.keys.len() && key > node.keys[i]
                invariant
                    i <= node.keys@.len(),
                    forall|j: int| 0 <= j < i ==> node.keys@[j] < key,
                decreases node.keys@.len() - i,
            {
                i += 1;
            }
            if i < node.keys.len() && key == node.keys[i] {
                node.keys.remove(i);
                if let NodeType::Leaf { data } = &mut node.node_type {
                    data.remove(i);
                }
                proof {
                    assert(n0.keys@.contains(key));
                    assert(n0.entries()[i as int].0 == key);
                    assert(node.entries() =~= n0.entries().remove(i as int));
                    assert forall|x: int, y: int| 0 <= x < y < node.keys@.len() implies #[trigger] node.keys@[x]
                        < #[trigger] node.keys@[y] by {
                        let x1 = if x < i { x } else { x + 1 };
                        let y1 = if y < i { y } else { y + 1 };
                        assert(node.keys@[x] == n0.keys@[x1] && node.keys@[y] == n0.keys@[y1]);
                    }
                    assert forall|x: int| 0 <= x < node.keys@.len() implies lo <= #[trigger] node.keys@[x] < hi by {
                        let x1 = if x < i { x } else { x + 1 };
                        assert(node.keys@[x] == n0.keys@[x1]);
                    }
                }
            } else {
                proof {
                    assert forall|j: int| 0 <= j < n0.entries().len() implies #[trigger] n0.entries()[j].0
                        != key by {
                        if j >= i {
                            assert(n0.keys@[j] >= n0.keys@[i as int]);
                        }
                    }
                }
            }
        }
    }

    fn search_in<'a>(node: &'a Node<T>, key: u64, Ghost(lo): Ghost<int>, Ghost(hi): Ghost<int>) -> (r:
        Option<(&'a Node<T>, usize)>)
        requires
            node.wf(lo, hi),
            lo <= key < hi,
        ensures
            match r {
                None => {
                    &&& !has_key(node.entries(), key)
                    &&& !node.leaf_for(key).key_seq().contains(key)
                },
                Some((n, i)) => {
                    &&& *n == node.leaf_for(key)
                    &&& n.is_leaf()
                    &&& i < n.key_seq().len()
                    &&& n.key_seq()[i as int] == key
                    &&& node.entries().contains((key, n.data_seq()[i as int]))
                },
            },
        decreases node,
    {
        let mut i: usize = 0;
        match &node.node_type {
            NodeType::Leaf { data } => {
                while i < node.keys.len() && key > node.keys[i]
                    invariant
                        i <= node.keys@.len(),
                        forall|j: int| 0 <= j < i ==> node.keys@[j] < key,
                    decreases node.keys@.len() - i,
                {
                    i += 1;
                }
                if i < node.keys.len() && node.keys[i] == key {
                    proof {
                        assert(node.entries()[i as int] == (key, data@[i as int]));
                    }
                    return Some((node, i));
                }
                proof {
                    assert forall|j: int| 0 <= j < node.entries().len() implies #[trigger] node.entries()[j].0
                        != key by {
                        if j >= i {
                            assert(node.keys@[j] >= node.keys@[i as int]);
                        }
                    }
                }
                None
            },
            NodeType::Internal { children } => {
                while i < node.keys.len() && key >= node.keys[i]
                    invariant
                        i <= node.keys@.len(),
                        forall|j: int| 0 <= j < i ==> node.keys@[j] <= key,
                    decreases node.keys@.len() - i,
                {
                    i += 1;
                }
                proof {
                    node.lemma_locate(lo, hi, i as int);
                    lemma_route(node.keys@, key, i as int);
                }
                let ghost clo = lo_of(node.keys@, lo, i as int);
                let ghost chi = hi_of(node.keys@, hi, i as int);
                let r = Self::search_in(&children[i], key, Ghost(clo), Ghost(chi));
                proof {
                    let a = Node::<T>::entries_of(children@.subrange(0, i as int));
                    let b = children@[i as int].entries();
                    let c = Node::<T>::entries_of(
                        children@.subrange(i as int + 1, children@.len() as int),
                    );
                    let e = node.entries();
                    match r {
                        None => {
                            assert forall|j: int| 0 <= j < e.len() implies #[trigger] e[j].0 != key by {
                                if j < a.len() {
                                    assert(e[j] == a[j]);
                                } else if j < a.len() + b.len() {
                                    assert(e[j] == b[j - a.len()]);
                                } else {
                                    assert(e[j] == c[j - a.len() - b.len()]);
                                }
                            }
                        },
                        Some((n, k)) => {
                            let x = (key, n.data_seq()[k as int]);
                            let q = choose|q: int| 0 <= q < b.len() && b[q] == x;
                            assert(e[a.len() + q] == x);
                        },
                    }
                }
                r
            },
        }
    }
}

impl<T> View for BPlusTree<T> {
    type V = Map<u64, T>;

    /// The map from each key of the tree to its record.
    open spec fn view(&self) -> Map<u64, T> {
        to_map(self.entries())
    }
}

} // verus!
