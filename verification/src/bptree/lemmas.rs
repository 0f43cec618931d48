//! Lemmas on sound nodes: where their records lie, and how splitting, rotating, joining and
//! replacing children keeps them sound.
use vstd::prelude::*;

use super::{hi_of, keys_sorted, lo_of, route, Node, NodeType, INTERNAL_T, LEAF_T};
use crate::entries::{
    has_key, inserted, keys_within, lemma_concat_sorted, lemma_inserted_frame, lemma_no_key_outside,
    sorted_by_key,
};

verus! {

impl<T> Node<T> {
    /// The records below two runs of siblings, one after the other.
    pub(super) proof fn lemma_entries_of_concat(a: Seq<Node<T>>, b: Seq<Node<T>>)
        ensures
            Self::entries_of(a + b) == Self::entries_of(a) + Self::entries_of(b),
        decreases b.len(),
    {
        if b.len() == 0 {
            assert(a + b =~= a);
            assert(Self::entries_of(b) =~= Seq::empty());
            assert(Self::entries_of(a) + Self::entries_of(b) =~= Self::entries_of(a));
        } else {
            Self::lemma_entries_of_concat(a, b.drop_last());
            assert((a + b).drop_last() =~= a + b.drop_last());
            assert((a + b).last() == b.last());
            assert(Self::entries_of(a) + Self::entries_of(b) =~= Self::entries_of(a)
                + Self::entries_of(b.drop_last()) + b.last().entries());
        }
    }

    /// The records below a run of one node are that node's records.
    pub(super) proof fn lemma_entries_of_single(n: Node<T>)
        ensures
            Self::entries_of(seq![n]) == n.entries(),
    {
        assert(seq![n].drop_last() =~= Seq::<Node<T>>::empty());
        assert(seq![n].last() == n);
        assert(Self::entries_of(Seq::<Node<T>>::empty()) =~= Seq::<(u64, T)>::empty());
        assert(Self::entries_of(seq![n]) =~= n.entries());
    }

    /// The records below the children `a..b` of a sound inner node are ordered and lie
    /// between the bounds of child `a` and child `b - 1`.
    pub(super) proof fn lemma_entries_of_range(
        children: Seq<Node<T>>,
        keys: Seq<u64>,
        lo: int,
        hi: int,
        a: int,
        b: int,
    )
        requires
            children.len() == keys.len() + 1,
            keys_sorted(keys),
            forall|i: int| 0 <= i < keys.len() ==> lo < #[trigger] keys[i] < hi,
            forall|j: int|
                0 <= j < children.len() ==> sorted_by_key(#[trigger] children[j].entries())
                    && keys_within(children[j].entries(), lo_of(keys, lo, j), hi_of(keys, hi, j)),
            0 <= a <= b <= children.len(),
        ensures
            sorted_by_key(Self::entries_of(children.subrange(a, b))),
            a < b ==> keys_within(
                Self::entries_of(children.subrange(a, b)),
                lo_of(keys, lo, a),
                hi_of(keys, hi, b - 1),
            ),
            a == b ==> Self::entries_of(children.subrange(a, b)) == Seq::<(u64, T)>::empty(),
        decreases b - a,
    {
        let s = children.subrange(a, b);
        if a == b {
            assert(s.len() == 0);
        } else {
            Self::lemma_entries_of_range(children, keys, lo, hi, a, b - 1);
            assert(s.drop_last() =~= children.subrange(a, b - 1));
            assert(s.last() == children[b - 1]);
            let prev = Self::entries_of(children.subrange(a, b - 1));
            let last = children[b - 1].entries();
            assert(Self::entries_of(s) == prev + last);
            if a == b - 1 {
                assert(prev =~= Seq::<(u64, T)>::empty());
                assert(prev + last =~= last);
            } else {
                lemma_concat_sorted(
                    prev,
                    last,
                    lo_of(keys, lo, a),
                    hi_of(keys, hi, b - 2),
                    hi_of(keys, hi, b - 1),
                );
            }
        }
    }

    /// A sound leaf has order `LEAF_T`, a sound inner node `INTERNAL_T`.
    pub(super) proof fn lemma_wf_order(self, lo: int, hi: int)
        requires
            self.wf(lo, hi),
        ensures
            self.is_leaf() ==> self.t == LEAF_T,
            !self.is_leaf() ==> self.t == INTERNAL_T,
            !self.is_leaf() ==> self.child_seq().len() == self.keys@.len() + 1,
            self.is_leaf() ==> self.data_seq().len() == self.keys@.len(),
            self.keys@.len() + 1 <= 2 * self.t,
    {
    }

    /// A sound node holds ordered records whose keys lie within its bounds.
    pub(super) proof fn lemma_wf_entries(self, lo: int, hi: int)
        requires
            self.wf(lo, hi),
        ensures
            sorted_by_key(self.entries()),
            keys_within(self.entries(), lo, hi),
        decreases self,
    {
        match self.node_type {
            NodeType::Leaf { data } => {
                let e = self.entries();
                assert forall|i: int, j: int| 0 <= i < j < e.len() implies #[trigger] e[i].0
                    < #[trigger] e[j].0 by {
                    assert(self.keys@[i] < self.keys@[j]);
                }
            },
            NodeType::Internal { children } => {
                let keys = self.keys@;
                assert forall|j: int| 0 <= j < children@.len() implies sorted_by_key(
                    #[trigger] children@[j].entries(),
                ) && keys_within(children@[j].entries(), lo_of(keys, lo, j), hi_of(keys, hi, j))
                    by {
                    children@[j].lemma_wf_entries(lo_of(keys, lo, j), hi_of(keys, hi, j));
                }
                Self::lemma_entries_of_range(children@, keys, lo, hi, 0, children@.len() as int);
                assert(children@.subrange(0, children@.len() as int) =~= children@);
            },
        }
    }

    /// The records of a sound inner node are those below the children before `j`, then those
    /// below child `j`, then those below the children after it; the first lie below the bound
    /// of child `j`, the last at or above its upper bound.
    pub(super) proof fn lemma_locate(self, lo: int, hi: int, j: int)
        requires
            self.wf(lo, hi),
            !self.is_leaf(),
            0 <= j < self.child_seq().len(),
        ensures
            self.entries() == Self::entries_of(self.child_seq().subrange(0, j))
                + self.child_seq()[j].entries() + Self::entries_of(
                self.child_seq().subrange(j + 1, self.child_seq().len() as int),
            ),
            keys_within(
                Self::entries_of(self.child_seq().subrange(0, j)),
                lo,
                lo_of(self.key_seq(), lo, j),
            ),
            keys_within(
                Self::entries_of(self.child_seq().subrange(j + 1, self.child_seq().len() as int)),
                hi_of(self.key_seq(), hi, j),
                hi,
            ),
            sorted_by_key(self.child_seq()[j].entries()),
            keys_within(
                self.child_seq()[j].entries(),
                lo_of(self.key_seq(), lo, j),
                hi_of(self.key_seq(), hi, j),
            ),
    {
        let children = self.child_seq();
        let keys = self.keys@;
        let n = children.len() as int;
        assert forall|i: int| 0 <= i < n implies sorted_by_key(
            #[trigger] children[i].entries(),
        ) && keys_within(children[i].entries(), lo_of(keys, lo, i), hi_of(keys, hi, i)) by {
            children[i].lemma_wf_entries(lo_of(keys, lo, i), hi_of(keys, hi, i));
        }
        Self::lemma_entries_of_range(children, keys, lo, hi, 0, j);
        Self::lemma_entries_of_range(children, keys, lo, hi, j + 1, n);
        let a = children.subrange(0, j);
        let c = children.subrange(j + 1, n);
        assert(children =~= a + seq![children[j]] + c);
        Self::lemma_entries_of_concat(a + seq![children[j]], c);
        Self::lemma_entries_of_concat(a, seq![children[j]]);
        Self::lemma_entries_of_single(children[j]);
        if j == 0 {
            assert(Self::entries_of(a) =~= Seq::<(u64, T)>::empty());
        }
        if j + 1 == n {
            assert(Self::entries_of(c) =~= Seq::<(u64, T)>::empty());
        }
    }
}

impl<T> Node<T> {
    /// Replacing child `j` of a sound inner node by a sound node of the same depth, bounds and
    /// minimum size keeps the node sound, and puts the new child's records in place of the old.
    pub(super) proof fn lemma_replace_child(n1: Node<T>, n2: Node<T>, lo: int, hi: int, j: int, c: Node<T>)
        requires
            n1.wf(lo, hi),
            !n1.is_leaf(),
            !n2.is_leaf(),
            0 <= j < n1.child_seq().len(),
            n2.keys@ == n1.keys@,
            n2.t == n1.t,
            n2.child_seq() == n1.child_seq().update(j, c),
            c.wf(lo_of(n1.keys@, lo, j), hi_of(n1.keys@, hi, j)),
            c.depth() == n1.child_seq()[j].depth(),
            c.keys@.len() + 1 >= c.t,
        ensures
            n2.wf(lo, hi),
            n2.depth() == n1.depth(),
            n2.entries() == Self::entries_of(n1.child_seq().subrange(0, j)) + c.entries()
                + Self::entries_of(n1.child_seq().subrange(j + 1, n1.child_seq().len() as int)),
    {
        let ch = n1.child_seq();
        let ch2 = n2.child_seq();
        assert(n2.depth() == n1.depth()) by {
            if j != 0 {
                assert(ch2[0] == ch[0]);
            }
        }
        assert(n2.wf(lo, hi)) by {
            assert forall|i: int| 0 <= i < ch2.len() implies {
                &&& (#[trigger] ch2[i]).wf(lo_of(n2.keys@, lo, i), hi_of(n2.keys@, hi, i))
                &&& ch2[i].depth() + 1 == n2.depth()
                &&& ch2[i].keys@.len() + 1 >= ch2[i].t
            } by {
                if i != j {
                    assert(ch2[i] == ch[i]);
                }
            }
        }
        let a = ch.subrange(0, j);
        let cc = ch.subrange(j + 1, ch.len() as int);
        assert(ch2 =~= a + seq![c] + cc);
        Self::lemma_entries_of_concat(a + seq![c], cc);
        Self::lemma_entries_of_concat(a, seq![c]);
        Self::lemma_entries_of_single(c);
    }
}

impl<T> Node<T> {

    /// Splitting a full leaf of a sound node at `LEAF_T - 1` gives two sound leaves: the
    /// first below the first key of the second, the second from that key on.
    pub(super) proof fn lemma_split_leaf(f: Node<T>, left: Node<T>, right: Node<T>, lo: int, hi: int)
        requires
            f.wf(lo, hi),
            f.is_leaf(),
            f.keys@.len() >= 2 * LEAF_T - 1,
            left.is_leaf(),
            right.is_leaf(),
            left.t == LEAF_T,
            right.t == LEAF_T,
            left.keys@ == f.keys@.subrange(0, LEAF_T - 1),
            left.data_seq() == f.data_seq().subrange(0, LEAF_T - 1),
            right.keys@ == f.keys@.subrange(LEAF_T - 1, f.keys@.len() as int),
            right.data_seq() == f.data_seq().subrange(LEAF_T - 1, f.keys@.len() as int),
        ensures
            left.wf(lo, right.keys@[0] as int),
            right.wf(right.keys@[0] as int, hi),
            left.entries() + right.entries() == f.entries(),
            left.depth() == 0 && right.depth() == 0,
            left.keys@.len() + 1 >= left.t,
            right.keys@.len() + 1 >= right.t,
            lo < right.keys@[0] < hi,
            has_key(f.entries(), right.keys@[0]),
    {
        let s = right.keys@[0];
        assert(s == f.keys@[2]);
        assert(f.keys@[0] < f.keys@[2]);
        assert(left.entries() + right.entries() =~= f.entries());
        assert(f.entries()[2].0 == s);
    }
}

impl<T> Node<T> {
    /// Splitting a full inner node of a sound node around its key at `INTERNAL_T - 1` gives
    /// two sound inner nodes, below and above that key, that hold the records of the whole.
    pub(super) proof fn lemma_split_internal(f: Node<T>, left: Node<T>, right: Node<T>, lo: int, hi: int)
        requires
            f.wf(lo, hi),
            !f.is_leaf(),
            f.keys@.len() >= 2 * INTERNAL_T - 1,
            !left.is_leaf(),
            !right.is_leaf(),
            left.t == INTERNAL_T,
            right.t == INTERNAL_T,
            left.keys@ == f.keys@.subrange(0, INTERNAL_T - 1),
            left.child_seq() == f.child_seq().subrange(0, INTERNAL_T as int),
            right.keys@ == f.keys@.subrange(INTERNAL_T as int, f.keys@.len() as int),
            right.child_seq() == f.child_seq().subrange(
                INTERNAL_T as int,
                f.child_seq().len() as int,
            ),
        ensures
            left.wf(lo, f.keys@[INTERNAL_T - 1] as int),
            right.wf(f.keys@[INTERNAL_T - 1] as int, hi),
            left.entries() + right.entries() == f.entries(),
            left.depth() == f.depth() && right.depth() == f.depth(),
            left.keys@.len() + 1 >= left.t,
            right.keys@.len() + 1 >= right.t,
            lo < f.keys@[INTERNAL_T - 1] < hi,
    {
        let s = f.keys@[3];
        let fk = f.keys@;
        let fc = f.child_seq();
        let lk = left.keys@;
        let rk = right.keys@;
        let lc = left.child_seq();
        let rc = right.child_seq();
        assert(fk.contains(s)) by {
            assert(fk[3] == s);
        }
        assert(left.depth() == f.depth()) by {
            assert(lc[0] == fc[0]);
        }
        assert(right.depth() == f.depth()) by {
            assert(rc[0] == fc[4]);
        }
        assert(left.wf(lo, s as int)) by {
            assert forall|j: int| 0 <= j < lc.len() implies {
                &&& (#[trigger] lc[j]).wf(lo_of(lk, lo, j), hi_of(lk, s as int, j))
                &&& lc[j].depth() + 1 == left.depth()
                &&& lc[j].keys@.len() + 1 >= lc[j].t
            } by {
                assert(lc[j] == fc[j]);
                assert(lo_of(lk, lo, j) == lo_of(fk, lo, j));
                assert(hi_of(lk, s as int, j) == hi_of(fk, hi, j));
            }
            assert forall|i: int| 0 <= i < lk.len() implies lo < #[trigger] lk[i] < s by {
                assert(lk[i] == fk[i]);
                assert(fk[i] < fk[3]);
            }
        }
        assert(right.wf(s as int, hi)) by {
            assert forall|j: int| 0 <= j < rc.len() implies {
                &&& (#[trigger] rc[j]).wf(lo_of(rk, s as int, j), hi_of(rk, hi, j))
                &&& rc[j].depth() + 1 == right.depth()
                &&& rc[j].keys@.len() + 1 >= rc[j].t
            } by {
                assert(rc[j] == fc[j + 4]);
                assert(lo_of(rk, s as int, j) == lo_of(fk, lo, j + 4));
                assert(hi_of(rk, hi, j) == hi_of(fk, hi, j + 4));
            }
            assert forall|i: int| 0 <= i < rk.len() implies s < #[trigger] rk[i] < hi by {
                assert(rk[i] == fk[i + 4]);
                assert(fk[3] < fk[i + 4]);
            }
        }
        assert(fc =~= lc + rc);
        Self::lemma_entries_of_concat(lc, rc);
        assert(lo < s < hi) by {
            assert(fk[0] < fk[3]);
        }
    }
}

impl<T> Node<T> {
    /// Putting the two halves of child `ci` in its place, with key `s` between them, keeps a
    /// sound inner node sound with the same records, and `s` becomes a key of the node.
    #[verifier::rlimit(90)]
    pub(super) proof fn lemma_split_parent(
        n1: Node<T>,
        n2: Node<T>,
        lo: int,
        hi: int,
        ci: int,
        left: Node<T>,
        right: Node<T>,
        s: u64,
    )
        requires
            n1.keys@.len() + 2 <= 2 * n1.t,
            n1.wf(lo, hi),
            !n1.is_leaf(),
            !n2.is_leaf(),
            0 <= ci < n1.child_seq().len(),
            left.wf(lo_of(n1.keys@, lo, ci), s as int),
            right.wf(s as int, hi_of(n1.keys@, hi, ci)),
            lo_of(n1.keys@, lo, ci) < s < hi_of(n1.keys@, hi, ci),
            left.entries() + right.entries() == n1.child_seq()[ci].entries(),
            left.depth() == n1.child_seq()[ci].depth(),
            right.depth() == n1.child_seq()[ci].depth(),
            left.keys@.len() + 1 >= left.t,
            right.keys@.len() + 1 >= right.t,
            n2.keys@ == n1.keys@.insert(ci, s),
            n2.t == n1.t,
            n2.child_seq() == n1.child_seq().update(ci, left).insert(ci + 1, right),
        ensures
            n2.wf(lo, hi),
            n2.depth() == n1.depth(),
            n2.entries() == n1.entries(),
    {
        let k1 = n1.keys@;
        let k2 = n2.keys@;
        let c1 = n1.child_seq();
        let c2 = n2.child_seq();
        assert(n2.depth() == n1.depth()) by {
            if ci == 0 {
                assert(c2[0] == left);
            } else {
                assert(c2[0] == c1[0]);
            }
        }
        assert(keys_sorted(k2)) by {
            assert forall|i: int, j: int| 0 <= i < j < k2.len() implies #[trigger] k2[i]
                < #[trigger] k2[j] by {
                let i1 = if i < ci { i } else { i - 1 };
                let j1 = if j < ci { j } else { j - 1 };
                if i != ci && j != ci {
                    assert(k2[i] == k1[i1] && k2[j] == k1[j1]);
                    assert(k1[i1] < k1[j1]);
                } else if i == ci {
                    assert(k2[j] == k1[j1]);
                    assert(k1[ci] <= k1[j1]);
                } else {
                    assert(k2[i] == k1[i1]);
                    assert(k1[i1] <= k1[ci - 1]);
                }
            }
        }
        assert(n2.wf(lo, hi)) by {
            assert(k2.len() + 1 <= 2 * n2.t);
            assert forall|i: int| 0 <= i < k2.len() implies lo < #[trigger] k2[i] < hi by {
                if i < ci {
                    assert(k2[i] == k1[i]);
                } else if i > ci {
                    assert(k2[i] == k1[i - 1]);
                } else {
                    if ci > 0 {
                        assert(k1[ci - 1] > lo);
                    }
                    if ci < k1.len() {
                        assert(k1[ci] < hi);
                    }
                }
            }
            assert forall|j: int| 0 <= j < c2.len() implies {
                &&& (#[trigger] c2[j]).wf(lo_of(k2, lo, j), hi_of(k2, hi, j))
                &&& c2[j].depth() + 1 == n2.depth()
                &&& c2[j].keys@.len() + 1 >= c2[j].t
            } by {
                if j < ci {
                    assert(c2[j] == c1[j]);
                    assert(lo_of(k2, lo, j) == lo_of(k1, lo, j));
                    assert(hi_of(k2, hi, j) == hi_of(k1, hi, j));
                } else if j == ci {
                    assert(c2[j] == left);
                    assert(lo_of(k2, lo, j) == lo_of(k1, lo, j));
                } else if j == ci + 1 {
                    assert(c2[j] == right);
                    assert(hi_of(k2, hi, j) == hi_of(k1, hi, ci));
                } else {
                    assert(c2[j] == c1[j - 1]);
                    assert(lo_of(k2, lo, j) == lo_of(k1, lo, j - 1));
                    assert(hi_of(k2, hi, j) == hi_of(k1, hi, j - 1));
                }
            }
        }
        let a = c1.subrange(0, ci);
        let cc = c1.subrange(ci + 1, c1.len() as int);
        assert(c1 =~= a + seq![c1[ci]] + cc);
        assert(c2 =~= a + seq![left, right] + cc);
        Self::lemma_entries_of_concat(a + seq![c1[ci]], cc);
        Self::lemma_entries_of_concat(a, seq![c1[ci]]);
        Self::lemma_entries_of_single(c1[ci]);
        Self::lemma_entries_of_concat(a + seq![left, right], cc);
        Self::lemma_entries_of_concat(a, seq![left, right]);
        assert(seq![left, right] =~= seq![left] + seq![right]);
        Self::lemma_entries_of_concat(seq![left], seq![right]);
        Self::lemma_entries_of_single(left);
        Self::lemma_entries_of_single(right);
        assert(k2[ci] == s);
    }
}

impl<T> Node<T> {
    /// Putting `(key, value)` at position `i` of a sound leaf, where `i` is the number of
    /// keys below `key`, gives a sound leaf with that record put in.
    pub(super) proof fn lemma_leaf_insert(
        n0: Node<T>,
        n2: Node<T>,
        lo: int,
        hi: int,
        i: int,
        key: u64,
        value: T,
    )
        requires
            n0.keys@.len() + 2 <= 2 * n0.t,
            n0.wf(lo, hi),
            n0.is_leaf(),
            n2.is_leaf(),
            n2.t == n0.t,
            lo <= key < hi,
            0 <= i <= n0.keys@.len(),
            forall|j: int| 0 <= j < i ==> n0.keys@[j] < key,
            forall|j: int| i <= j < n0.keys@.len() ==> key < #[trigger] n0.keys@[j],
            n2.keys@ == n0.keys@.insert(i, key),
            n2.data_seq() == n0.data_seq().insert(i, value),
        ensures
            n2.wf(lo, hi),
            n2.depth() == n0.depth(),
            !has_key(n0.entries(), key),
            inserted(n0.entries(), n2.entries(), key, value),
    {
        assert(n2.entries() =~= n0.entries().insert(i, (key, value)));
        assert(!has_key(n0.entries(), key)) by {
            if has_key(n0.entries(), key) {
                let j = choose|j: int|
                    0 <= j < n0.entries().len() && #[trigger] n0.entries()[j].0 == key;
                assert(n0.keys@[j] == key);
            }
        }
        assert forall|x: int, y: int| 0 <= x < y < n2.keys@.len() implies #[trigger] n2.keys@[x]
            < #[trigger] n2.keys@[y] by {
            if y < i {
            } else if x > i {
                assert(n2.keys@[x] == n0.keys@[x - 1]);
                assert(n2.keys@[y] == n0.keys@[y - 1]);
            } else if x == i {
                assert(n2.keys@[y] == n0.keys@[y - 1]);
            } else if y == i {
            } else {
                assert(n2.keys@[y] == n0.keys@[y - 1]);
            }
        }
        assert forall|x: int| 0 <= x < n2.keys@.len() implies lo <= #[trigger] n2.keys@[x] < hi by {
            if x > i {
                assert(n2.keys@[x] == n0.keys@[x - 1]);
            }
        }
    }

    /// After putting a record into child `i` of a sound inner node, where `i` is the child a
    /// search for `key` enters, the node is sound, the outcome in the child is the outcome in
    /// the node, and the records change alike.
    pub(super) proof fn lemma_insert_child(
        n1: Node<T>,
        n2: Node<T>,
        lo: int,
        hi: int,
        i: int,
        c2: Node<T>,
        key: u64,
        value: T,
        r: bool,
    )
        requires
            n1.wf(lo, hi),
            !n1.is_leaf(),
            !n2.is_leaf(),
            0 <= i < n1.child_seq().len(),
            n2.keys@ == n1.keys@,
            n2.t == n1.t,
            n2.child_seq() == n1.child_seq().update(i, c2),
            route(n1.keys@, key) == i,
            lo_of(n1.keys@, lo, i) <= key < hi_of(n1.keys@, hi, i),
            c2.wf(lo_of(n1.keys@, lo, i), hi_of(n1.keys@, hi, i)),
            c2.depth() == n1.child_seq()[i].depth(),
            c2.keys@.len() >= n1.child_seq()[i].keys@.len(),
            c2.t == n1.child_seq()[i].t,
            r == !has_key(n1.child_seq()[i].entries(), key),
            r ==> inserted(n1.child_seq()[i].entries(), c2.entries(), key, value),
            !r ==> c2.entries() == n1.child_seq()[i].entries(),
        ensures
            n2.wf(lo, hi),
            n2.depth() == n1.depth(),
            r == !has_key(n1.entries(), key),
            r ==> inserted(n1.entries(), n2.entries(), key, value),
            !r ==> n2.entries() == n1.entries(),
    {
        let c1 = n1.child_seq()[i];
        let clo = lo_of(n1.keys@, lo, i);
        let chi = hi_of(n1.keys@, hi, i);
        n1.lemma_locate(lo, hi, i);
        Node::lemma_replace_child(n1, n2, lo, hi, i, c2);
        let a = Node::<T>::entries_of(n1.child_seq().subrange(0, i));
        let cc = Node::<T>::entries_of(n1.child_seq().subrange(i + 1, n1.child_seq().len() as int));
        lemma_no_key_outside(a, lo, clo, key);
        lemma_no_key_outside(cc, chi, hi, key);
        assert(has_key(n1.entries(), key) == has_key(c1.entries(), key)) by {
            let e = n1.entries();
            if has_key(e, key) {
                let j = choose|j: int| 0 <= j < e.len() && #[trigger] e[j].0 == key;
                if j < a.len() {
                    assert(e[j] == a[j]);
                } else if j < a.len() + c1.entries().len() {
                    assert(e[j] == c1.entries()[j - a.len()]);
                } else {
                    assert(e[j] == cc[j - a.len() - c1.entries().len()]);
                }
            }
            if has_key(c1.entries(), key) {
                let j = choose|j: int|
                    0 <= j < c1.entries().len() && #[trigger] c1.entries()[j].0 == key;
                assert(e[a.len() + j] == c1.entries()[j]);
            }
        }
        if r {
            lemma_inserted_frame(a, c1.entries(), c2.entries(), cc, key, value);
        }
    }
}

impl<T> Node<T> {
    /// A sound node of depth zero is a leaf, and a leaf has depth zero.
    pub(super) proof fn lemma_depth_leaf(self, lo: int, hi: int)
        requires
            self.wf(lo, hi),
        ensures
            self.is_leaf() <==> self.depth() == 0,
    {
    }

    /// Moving the last record of a leaf to the front of its right neighbour, with that record's
    /// key as the new key between them, keeps both sound and the records in order.
    pub(super) proof fn lemma_rotate_right_leaf(
        l: Node<T>,
        c: Node<T>,
        l2: Node<T>,
        c2: Node<T>,
        llo: int,
        sep: int,
        chi: int,
    )
        requires
            c.keys@.len() + 2 <= 2 * c.t,
            l.wf(llo, sep),
            c.wf(sep, chi),
            l.is_leaf(),
            c.is_leaf(),
            l.keys@.len() >= 2,
            sep <= chi,
            l2.is_leaf(),
            c2.is_leaf(),
            l2.t == l.t,
            c2.t == c.t,
            l2.keys@ == l.keys@.drop_last(),
            l2.data_seq() == l.data_seq().drop_last(),
            c2.keys@ == seq![l.keys@.last()] + c.keys@,
            c2.data_seq() == seq![l.data_seq().last()] + c.data_seq(),
        ensures
            l2.wf(llo, l.keys@.last() as int),
            c2.wf(l.keys@.last() as int, chi),
            l2.entries() + c2.entries() == l.entries() + c.entries(),
            l2.depth() == l.depth() && c2.depth() == c.depth(),
            llo < l.keys@.last() < sep,
            l2.keys@.len() + 1 == l.keys@.len(),
            c2.keys@.len() == c.keys@.len() + 1,
    {
        let lk = l.keys@.last();
        let n = l.keys@.len() as int;
        assert(l.keys@[0] < l.keys@[n - 1]);
        assert forall|i: int, j: int| 0 <= i < j < c2.keys@.len() implies #[trigger] c2.keys@[i]
            < #[trigger] c2.keys@[j] by {
            if i == 0 {
                assert(c2.keys@[j] == c.keys@[j - 1]);
            } else {
                assert(c2.keys@[i] == c.keys@[i - 1] && c2.keys@[j] == c.keys@[j - 1]);
            }
        }
        assert forall|i: int| 0 <= i < c2.keys@.len() implies lk <= #[trigger] c2.keys@[i] < chi by {
            if i > 0 {
                assert(c2.keys@[i] == c.keys@[i - 1]);
            }
        }
        assert forall|i: int| 0 <= i < l2.keys@.len() implies llo <= #[trigger] l2.keys@[i] < lk by {
            assert(l.keys@[i] < l.keys@[n - 1]);
        }
        assert(l2.entries() + c2.entries() =~= l.entries() + c.entries());
    }

    /// Moving the first record of a leaf to the end of its left neighbour, with the next key of
    /// the leaf as the new key between them, keeps both sound and the records in order.
    pub(super) proof fn lemma_rotate_left_leaf(
        c: Node<T>,
        r: Node<T>,
        c2: Node<T>,
        r2: Node<T>,
        clo: int,
        sep: int,
        rhi: int,
    )
        requires
            c.keys@.len() + 2 <= 2 * c.t,
            c.wf(clo, sep),
            r.wf(sep, rhi),
            c.is_leaf(),
            r.is_leaf(),
            r.keys@.len() >= 2,
            clo <= sep,
            c2.is_leaf(),
            r2.is_leaf(),
            c2.t == c.t,
            r2.t == r.t,
            c2.keys@ == c.keys@.push(r.keys@[0]),
            c2.data_seq() == c.data_seq().push(r.data_seq()[0]),
            r2.keys@ == r.keys@.drop_first(),
            r2.data_seq() == r.data_seq().drop_first(),
        ensures
            c2.wf(clo, r.keys@[1] as int),
            r2.wf(r.keys@[1] as int, rhi),
            c2.entries() + r2.entries() == c.entries() + r.entries(),
            c2.depth() == c.depth() && r2.depth() == r.depth(),
            sep < r.keys@[1] < rhi,
            c2.keys@.len() == c.keys@.len() + 1,
            r2.keys@.len() + 1 == r.keys@.len(),
    {
        let nk = r.keys@[1];
        assert(r.keys@[0] < r.keys@[1]);
        assert forall|i: int, j: int| 0 <= i < j < c2.keys@.len() implies #[trigger] c2.keys@[i]
            < #[trigger] c2.keys@[j] by {
            if j == c.keys@.len() {
                assert(c.keys@[i] < sep);
            }
        }
        assert forall|i: int| 0 <= i < c2.keys@.len() implies clo <= #[trigger] c2.keys@[i] < nk by {
            if i < c.keys@.len() {
                assert(c.keys@[i] < sep);
            }
        }
        assert forall|i: int, j: int| 0 <= i < j < r2.keys@.len() implies #[trigger] r2.keys@[i]
            < #[trigger] r2.keys@[j] by {
            assert(r2.keys@[i] == r.keys@[i + 1] && r2.keys@[j] == r.keys@[j + 1]);
        }
        assert forall|i: int| 0 <= i < r2.keys@.len() implies nk <= #[trigger] r2.keys@[i] < rhi by {
            assert(r2.keys@[i] == r.keys@[i + 1]);
            if i > 0 {
                assert(r.keys@[1] < r.keys@[i + 1]);
            }
        }
        assert(c2.entries() + r2.entries() =~= c.entries() + r.entries());
    }

    /// Two neighbouring leaves joined into one keep their records in order.
    pub(super) proof fn lemma_merge_leaf(h: Node<T>, d: Node<T>, m: Node<T>, hlo: int, sep: int, dhi: int)
        requires
            h.keys@.len() + d.keys@.len() + 1 <= 2 * h.t,
            h.wf(hlo, sep),
            d.wf(sep, dhi),
            h.is_leaf(),
            d.is_leaf(),
            m.is_leaf(),
            hlo <= sep <= dhi,
            m.t == h.t,
            m.keys@ == h.keys@ + d.keys@,
            m.data_seq() == h.data_seq() + d.data_seq(),
        ensures
            m.wf(hlo, dhi),
            m.entries() == h.entries() + d.entries(),
            m.depth() == h.depth(),
            m.keys@.len() == h.keys@.len() + d.keys@.len(),
    {
        let hn = h.keys@.len() as int;
        assert forall|i: int, j: int| 0 <= i < j < m.keys@.len() implies #[trigger] m.keys@[i]
            < #[trigger] m.keys@[j] by {
            if j < hn {
            } else if i >= hn {
                assert(m.keys@[i] == d.keys@[i - hn] && m.keys@[j] == d.keys@[j - hn]);
            } else {
                assert(m.keys@[j] == d.keys@[j - hn]);
            }
        }
        assert forall|i: int| 0 <= i < m.keys@.len() implies hlo <= #[trigger] m.keys@[i] < dhi by {
            if i >= hn {
                assert(m.keys@[i] == d.keys@[i - hn]);
            }
        }
        assert(m.entries() =~= h.entries() + d.entries());
    }
}

impl<T> Node<T> {
    /// Moving the last key and child of an inner node to the front of its right neighbour,
    /// with the key between them moving down in front of the neighbour's keys and the moved
    /// key taking its place, keeps both sound and the records in order.
    pub(super) proof fn lemma_rotate_right_internal(
        l: Node<T>,
        c: Node<T>,
        l2: Node<T>,
        c2: Node<T>,
        llo: int,
        sep: u64,
        chi: int,
    )
        requires
            c.keys@.len() + 2 <= 2 * c.t,
            l.wf(llo, sep as int),
            c.wf(sep as int, chi),
            !l.is_leaf(),
            !c.is_leaf(),
            l.depth() == c.depth(),
            l.keys@.len() >= 1,
            sep < chi,
            !l2.is_leaf(),
            !c2.is_leaf(),
            l2.t == l.t,
            c2.t == c.t,
            l2.keys@ == l.keys@.drop_last(),
            l2.child_seq() == l.child_seq().drop_last(),
            c2.keys@ == seq![sep] + c.keys@,
            c2.child_seq() == seq![l.child_seq().last()] + c.child_seq(),
        ensures
            l2.wf(llo, l.keys@.last() as int),
            c2.wf(l.keys@.last() as int, chi),
            l2.entries() + c2.entries() == l.entries() + c.entries(),
            l2.depth() == l.depth() && c2.depth() == c.depth(),
            llo < l.keys@.last() < sep,
            l2.keys@.len() + 1 == l.keys@.len(),
            c2.keys@.len() == c.keys@.len() + 1,
    {
        let lk = l.keys@.last();
        let n = l.keys@.len() as int;
        let lc = l.child_seq();
        let cc = c.child_seq();
        let l2c = l2.child_seq();
        let c2c = c2.child_seq();
        let lkeys = l.keys@;
        let ckeys = c.keys@;
        assert(l2.depth() == l.depth()) by {
            assert(l2c[0] == lc[0]);
        }
        assert(c2.depth() == c.depth()) by {
            assert(c2c[0] == lc[n]);
        }
        assert(l2.wf(llo, lk as int)) by {
            assert forall|i: int| 0 <= i < l2.keys@.len() implies llo < #[trigger] l2.keys@[i] < lk by {
                assert(lkeys[i] < lkeys[n - 1]);
            }
            assert forall|j: int| 0 <= j < l2c.len() implies {
                &&& (#[trigger] l2c[j]).wf(lo_of(l2.keys@, llo, j), hi_of(l2.keys@, lk as int, j))
                &&& l2c[j].depth() + 1 == l2.depth()
                &&& l2c[j].keys@.len() + 1 >= l2c[j].t
            } by {
                assert(l2c[j] == lc[j]);
                assert(lo_of(l2.keys@, llo, j) == lo_of(lkeys, llo, j));
                assert(hi_of(l2.keys@, lk as int, j) == hi_of(lkeys, sep as int, j));
            }
        }
        assert(c2.wf(lk as int, chi)) by {
            assert(lk < sep);
            assert forall|i: int, j: int| 0 <= i < j < c2.keys@.len() implies #[trigger] c2.keys@[i]
                < #[trigger] c2.keys@[j] by {
                if i == 0 {
                    assert(c2.keys@[j] == ckeys[j - 1]);
                } else {
                    assert(c2.keys@[i] == ckeys[i - 1] && c2.keys@[j] == ckeys[j - 1]);
                }
            }
            assert forall|i: int| 0 <= i < c2.keys@.len() implies lk < #[trigger] c2.keys@[i] < chi by {
                if i > 0 {
                    assert(c2.keys@[i] == ckeys[i - 1]);
                }
            }
            assert forall|j: int| 0 <= j < c2c.len() implies {
                &&& (#[trigger] c2c[j]).wf(lo_of(c2.keys@, lk as int, j), hi_of(c2.keys@, chi, j))
                &&& c2c[j].depth() + 1 == c2.depth()
                &&& c2c[j].keys@.len() + 1 >= c2c[j].t
            } by {
                if j == 0 {
                    assert(c2c[0] == lc[n]);
                    assert(lo_of(lkeys, llo, n) == lk);
                    assert(hi_of(lkeys, sep as int, n) == sep);
                } else {
                    assert(c2c[j] == cc[j - 1]);
                    assert(lo_of(c2.keys@, lk as int, j) == lo_of(ckeys, sep as int, j - 1));
                    assert(hi_of(c2.keys@, chi, j) == hi_of(ckeys, chi, j - 1));
                }
            }
        }
        assert(l.entries() == Self::entries_of(l2c) + lc[n].entries()) by {
            assert(lc.drop_last() == l2c);
        }
        Self::lemma_entries_of_concat(seq![lc[n]], cc);
        Self::lemma_entries_of_single(lc[n]);
        assert(c2c == seq![lc[n]] + cc);
    }

    /// Moving the first child of an inner node to the end of its left neighbour, with the key
    /// between them moving down behind the neighbour's keys and the node's first key taking its
    /// place, keeps both sound and the records in order.
    pub(super) proof fn lemma_rotate_left_internal(
        c: Node<T>,
        r: Node<T>,
        c2: Node<T>,
        r2: Node<T>,
        clo: int,
        sep: u64,
        rhi: int,
    )
        requires
            c.keys@.len() + 2 <= 2 * c.t,
            c.wf(clo, sep as int),
            r.wf(sep as int, rhi),
            !c.is_leaf(),
            !r.is_leaf(),
            c.depth() == r.depth(),
            r.keys@.len() >= 1,
            clo < sep,
            !c2.is_leaf(),
            !r2.is_leaf(),
            c2.t == c.t,
            r2.t == r.t,
            c2.keys@ == c.keys@.push(sep),
            c2.child_seq() == c.child_seq().push(r.child_seq()[0]),
            r2.keys@ == r.keys@.drop_first(),
            r2.child_seq() == r.child_seq().drop_first(),
        ensures
            c2.wf(clo, r.keys@[0] as int),
            r2.wf(r.keys@[0] as int, rhi),
            c2.entries() + r2.entries() == c.entries() + r.entries(),
            c2.depth() == c.depth() && r2.depth() == r.depth(),
            sep < r.keys@[0] < rhi,
            c2.keys@.len() == c.keys@.len() + 1,
            r2.keys@.len() + 1 == r.keys@.len(),
    {
        let nk = r.keys@[0];
        let cn = c.keys@.len() as int;
        let cc = c.child_seq();
        let rc = r.child_seq();
        let c2c = c2.child_seq();
        let r2c = r2.child_seq();
        let ckeys = c.keys@;
        let rkeys = r.keys@;
        assert(c2.depth() == c.depth()) by {
            assert(c2c[0] == cc[0]);
        }
        assert(r2.depth() == r.depth()) by {
            assert(r2c[0] == rc[1]);
        }
        assert(c2.wf(clo, nk as int)) by {
            assert forall|i: int, j: int| 0 <= i < j < c2.keys@.len() implies #[trigger] c2.keys@[i]
                < #[trigger] c2.keys@[j] by {
                if j == cn {
                    assert(ckeys[i] < sep);
                }
            }
            assert forall|i: int| 0 <= i < c2.keys@.len() implies clo < #[trigger] c2.keys@[i] < nk by {
                if i < cn {
                    assert(ckeys[i] < sep);
                }
            }
            assert forall|j: int| 0 <= j < c2c.len() implies {
                &&& (#[trigger] c2c[j]).wf(lo_of(c2.keys@, clo, j), hi_of(c2.keys@, nk as int, j))
                &&& c2c[j].depth() + 1 == c2.depth()
                &&& c2c[j].keys@.len() + 1 >= c2c[j].t
            } by {
                if j <= cn {
                    assert(c2c[j] == cc[j]);
                    assert(lo_of(c2.keys@, clo, j) == lo_of(ckeys, clo, j));
                    assert(hi_of(c2.keys@, nk as int, j) == hi_of(ckeys, sep as int, j));
                } else {
                    assert(c2c[j] == rc[0]);
                    assert(lo_of(c2.keys@, clo, j) == lo_of(rkeys, sep as int, 0));
                    assert(hi_of(c2.keys@, nk as int, j) == hi_of(rkeys, rhi, 0));
                }
            }
        }
        assert(r2.wf(nk as int, rhi)) by {
            assert forall|i: int, j: int| 0 <= i < j < r2.keys@.len() implies #[trigger] r2.keys@[i]
                < #[trigger] r2.keys@[j] by {
                assert(r2.keys@[i] == rkeys[i + 1] && r2.keys@[j] == rkeys[j + 1]);
            }
            assert forall|i: int| 0 <= i < r2.keys@.len() implies nk < #[trigger] r2.keys@[i] < rhi by {
                assert(r2.keys@[i] == rkeys[i + 1]);
                assert(rkeys[0] < rkeys[i + 1]);
            }
            assert forall|j: int| 0 <= j < r2c.len() implies {
                &&& (#[trigger] r2c[j]).wf(lo_of(r2.keys@, nk as int, j), hi_of(r2.keys@, rhi, j))
                &&& r2c[j].depth() + 1 == r2.depth()
                &&& r2c[j].keys@.len() + 1 >= r2c[j].t
            } by {
                assert(r2c[j] == rc[j + 1]);
                assert(lo_of(r2.keys@, nk as int, j) == lo_of(rkeys, sep as int, j + 1));
                assert(hi_of(r2.keys@, rhi, j) == hi_of(rkeys, rhi, j + 1));
            }
        }
        assert(c2.entries() == c.entries() + rc[0].entries()) by {
            assert(c2c.drop_last() == cc);
        }
        assert(rc == seq![rc[0]] + r2c);
        Self::lemma_entries_of_concat(seq![rc[0]], r2c);
        Self::lemma_entries_of_single(rc[0]);
    }

    /// Two neighbouring inner nodes joined into one, with the key between them in the middle,
    /// keep their records in order.
    pub(super) proof fn lemma_merge_internal(h: Node<T>, d: Node<T>, m: Node<T>, hlo: int, sep: u64, dhi: int)
        requires
            h.keys@.len() + d.keys@.len() + 2 <= 2 * h.t,
            h.wf(hlo, sep as int),
            d.wf(sep as int, dhi),
            !h.is_leaf(),
            !d.is_leaf(),
            h.depth() == d.depth(),
            hlo < sep < dhi,
            !m.is_leaf(),
            m.t == h.t,
            m.keys@ == h.keys@ + seq![sep] + d.keys@,
            m.child_seq() == h.child_seq() + d.child_seq(),
        ensures
            m.wf(hlo, dhi),
            m.entries() == h.entries() + d.entries(),
            m.depth() == h.depth(),
            m.keys@.len() == h.keys@.len() + d.keys@.len() + 1,
    {
        let hn = h.keys@.len() as int;
        let hc = h.child_seq();
        let dc = d.child_seq();
        let mc = m.child_seq();
        let hk = h.keys@;
        let dk = d.keys@;
        let mk = m.keys@;
        assert(mk[hn] == sep);
        assert(m.depth() == h.depth()) by {
            assert(mc[0] == hc[0]);
        }
        assert forall|i: int, j: int| 0 <= i < j < mk.len() implies #[trigger] mk[i] < #[trigger] mk[j] by {
            if j < hn {
            } else if j == hn {
                assert(hk[i] < sep);
            } else if i > hn {
                assert(mk[i] == dk[i - hn - 1] && mk[j] == dk[j - hn - 1]);
            } else if i == hn {
                assert(mk[j] == dk[j - hn - 1]);
            } else {
                assert(hk[i] < sep);
                assert(mk[j] == dk[j - hn - 1]);
            }
        }
        assert forall|i: int| 0 <= i < mk.len() implies hlo < #[trigger] mk[i] < dhi by {
            if i < hn {
                assert(hk[i] < sep);
            } else if i > hn {
                assert(mk[i] == dk[i - hn - 1]);
            }
        }
        assert forall|j: int| 0 <= j < mc.len() implies {
            &&& (#[trigger] mc[j]).wf(lo_of(mk, hlo, j), hi_of(mk, dhi, j))
            &&& mc[j].depth() + 1 == m.depth()
            &&& mc[j].keys@.len() + 1 >= mc[j].t
        } by {
            if j <= hn {
                assert(mc[j] == hc[j]);
                assert(lo_of(mk, hlo, j) == lo_of(hk, hlo, j));
                assert(hi_of(mk, dhi, j) == hi_of(hk, sep as int, j));
            } else {
                assert(mc[j] == dc[j - hn - 1]);
                assert(lo_of(mk, hlo, j) == lo_of(dk, sep as int, j - hn - 1));
                assert(hi_of(mk, dhi, j) == hi_of(dk, dhi, j - hn - 1));
            }
        }
        Self::lemma_entries_of_concat(hc, dc);
    }
}

impl<T> Node<T> {
    /// Replacing children `j` and `j + 1` of a sound inner node, and the key between them, by
    /// two sound nodes that hold the same records and fit the new key keeps the node sound
    /// with the same records.
    pub(super) proof fn lemma_replace_two(
        n1: Node<T>,
        n2: Node<T>,
        lo: int,
        hi: int,
        j: int,
        a2: Node<T>,
        b2: Node<T>,
        nk: u64,
    )
        requires
            n1.wf(lo, hi),
            !n1.is_leaf(),
            !n2.is_leaf(),
            0 <= j,
            j + 1 < n1.child_seq().len(),
            n2.t == n1.t,
            n2.keys@ == n1.keys@.update(j, nk),
            n2.child_seq() == n1.child_seq().update(j, a2).update(j + 1, b2),
            lo_of(n1.keys@, lo, j) < nk < hi_of(n1.keys@, hi, j + 1),
            a2.wf(lo_of(n1.keys@, lo, j), nk as int),
            b2.wf(nk as int, hi_of(n1.keys@, hi, j + 1)),
            a2.entries() + b2.entries() == n1.child_seq()[j].entries() + n1.child_seq()[j
                + 1].entries(),
            a2.depth() == n1.child_seq()[j].depth(),
            b2.depth() == n1.child_seq()[j + 1].depth(),
            a2.keys@.len() + 1 >= a2.t,
            b2.keys@.len() + 1 >= b2.t,
        ensures
            n2.wf(lo, hi),
            n2.depth() == n1.depth(),
            n2.entries() == n1.entries(),
    {
        let k1 = n1.keys@;
        let k2 = n2.keys@;
        let c1 = n1.child_seq();
        let c2 = n2.child_seq();
        assert(n2.depth() == n1.depth()) by {
            if j == 0 {
                assert(c2[0] == a2);
            } else {
                assert(c2[0] == c1[0]);
            }
        }
        assert forall|x: int, y: int| 0 <= x < y < k2.len() implies #[trigger] k2[x]
            < #[trigger] k2[y] by {
            if x == j {
                if y > j + 1 {
                    assert(k1[j + 1] < k1[y]);
                }
            } else if y == j {
                if x < j - 1 {
                    assert(k1[x] < k1[j - 1]);
                }
            } else {
                assert(k1[x] < k1[y]);
            }
        }
        assert forall|x: int| 0 <= x < k2.len() implies lo < #[trigger] k2[x] < hi by {
            if x == j {
                if j > 0 {
                    assert(lo < k1[j - 1]);
                }
                if j + 1 < k1.len() {
                    assert(k1[j + 1] < hi);
                }
            }
        }
        assert forall|i: int| 0 <= i < c2.len() implies {
            &&& (#[trigger] c2[i]).wf(lo_of(k2, lo, i), hi_of(k2, hi, i))
            &&& c2[i].depth() + 1 == n2.depth()
            &&& c2[i].keys@.len() + 1 >= c2[i].t
        } by {
            if i == j {
                assert(c2[i] == a2);
                assert(lo_of(k2, lo, i) == lo_of(k1, lo, i));
            } else if i == j + 1 {
                assert(c2[i] == b2);
                assert(hi_of(k2, hi, i) == hi_of(k1, hi, i));
            } else {
                assert(c2[i] == c1[i]);
                assert(lo_of(k2, lo, i) == lo_of(k1, lo, i));
                assert(hi_of(k2, hi, i) == hi_of(k1, hi, i));
            }
        }
        let a = c1.subrange(0, j);
        let cc = c1.subrange(j + 2, c1.len() as int);
        assert(c1 =~= a + seq![c1[j], c1[j + 1]] + cc);
        assert(c2 =~= a + seq![a2, b2] + cc);
        Self::lemma_entries_of_pair_frame(a, c1[j], c1[j + 1], cc);
        Self::lemma_entries_of_pair_frame(a, a2, b2, cc);
    }

    /// The records below `a`, then `x` and `y`, then `c`.
    pub(super) proof fn lemma_entries_of_pair_frame(a: Seq<Node<T>>, x: Node<T>, y: Node<T>, c: Seq<Node<T>>)
        ensures
            Self::entries_of(a + seq![x, y] + c) == Self::entries_of(a) + (x.entries()
                + y.entries()) + Self::entries_of(c),
    {
        Self::lemma_entries_of_concat(a + seq![x, y], c);
        Self::lemma_entries_of_concat(a, seq![x, y]);
        assert(seq![x, y] =~= seq![x] + seq![y]);
        Self::lemma_entries_of_concat(seq![x], seq![y]);
        Self::lemma_entries_of_single(x);
        Self::lemma_entries_of_single(y);
        assert(Self::entries_of(a) + (x.entries() + y.entries()) + Self::entries_of(c)
            =~= Self::entries_of(a) + Self::entries_of(seq![x, y]) + Self::entries_of(c));
    }

    /// Replacing children `j` and `j + 1` of a sound inner node by one sound node that holds
    /// their records, and dropping the key between them, keeps the node sound with the same
    /// records.
    #[verifier::rlimit(60)]
    pub(super) proof fn lemma_merge_parent(n1: Node<T>, n2: Node<T>, lo: int, hi: int, j: int, m: Node<T>)
        requires
            n1.wf(lo, hi),
            !n1.is_leaf(),
            !n2.is_leaf(),
            0 <= j,
            j + 1 < n1.child_seq().len(),
            n2.t == n1.t,
            n2.keys@ == n1.keys@.remove(j),
            n2.child_seq() == n1.child_seq().update(j, m).remove(j + 1),
            m.wf(lo_of(n1.keys@, lo, j), hi_of(n1.keys@, hi, j + 1)),
            m.entries() == n1.child_seq()[j].entries() + n1.child_seq()[j + 1].entries(),
            m.depth() == n1.child_seq()[j].depth(),
            m.keys@.len() + 1 >= m.t,
        ensures
            n2.wf(lo, hi),
            n2.depth() == n1.depth(),
            n2.entries() == n1.entries(),
    {
        let k1 = n1.keys@;
        let k2 = n2.keys@;
        let c1 = n1.child_seq();
        let c2 = n2.child_seq();
        assert(k2.len() + 1 <= 2 * n2.t);
        assert(n2.depth() == n1.depth()) by {
            if j == 0 {
                assert(c2[0] == m);
            } else {
                assert(c2[0] == c1[0]);
            }
        }
        assert forall|x: int, y: int| 0 <= x < y < k2.len() implies #[trigger] k2[x]
            < #[trigger] k2[y] by {
            let x1 = if x < j { x } else { x + 1 };
            let y1 = if y < j { y } else { y + 1 };
            assert(k2[x] == k1[x1] && k2[y] == k1[y1]);
        }
        assert forall|x: int| 0 <= x < k2.len() implies lo < #[trigger] k2[x] < hi by {
            let x1 = if x < j { x } else { x + 1 };
            assert(k2[x] == k1[x1]);
        }
        assert forall|i: int| 0 <= i < c2.len() implies {
            &&& (#[trigger] c2[i]).wf(lo_of(k2, lo, i), hi_of(k2, hi, i))
            &&& c2[i].depth() + 1 == n2.depth()
            &&& c2[i].keys@.len() + 1 >= c2[i].t
        } by {
            if i == j {
                assert(c2[i] == m);
                assert(lo_of(k2, lo, i) == lo_of(k1, lo, i));
                assert(hi_of(k2, hi, i) == hi_of(k1, hi, i + 1));
            } else if i < j {
                assert(c2[i] == c1[i]);
                assert(lo_of(k2, lo, i) == lo_of(k1, lo, i));
                assert(hi_of(k2, hi, i) == hi_of(k1, hi, i));
            } else {
                assert(c2[i] == c1[i + 1]);
                assert(lo_of(k2, lo, i) == lo_of(k1, lo, i + 1));
                assert(hi_of(k2, hi, i) == hi_of(k1, hi, i + 1));
            }
        }
        let a = c1.subrange(0, j);
        let cc = c1.subrange(j + 2, c1.len() as int);
        assert(c1 =~= a + seq![c1[j], c1[j + 1]] + cc);
        assert(c2 =~= a + seq![m] + cc);
        Self::lemma_entries_of_pair_frame(a, c1[j], c1[j + 1], cc);
        Self::lemma_entries_of_concat(a + seq![m], cc);
        Self::lemma_entries_of_concat(a, seq![m]);
        Self::lemma_entries_of_single(m);
    }
}

impl<T> Node<T> {
    /// A sound node with a key holds a record.
    pub(super) proof fn lemma_wf_nonempty(self, lo: int, hi: int)
        requires
            self.wf(lo, hi),
            self.keys@.len() >= 1,
        ensures
            self.entries().len() >= 1,
        decreases self,
    {
        if !self.is_leaf() {
            self.lemma_locate(lo, hi, 0);
            let c = self.child_seq()[0];
            c.lemma_wf_order(lo_of(self.keys@, lo, 0), hi_of(self.keys@, hi, 0));
            c.lemma_wf_nonempty(lo_of(self.keys@, lo, 0), hi_of(self.keys@, hi, 0));
        }
    }

    /// Every node has its own shape.
    pub(super) proof fn lemma_same_shape_refl(self)
        ensures
            self.same_shape(self),
        decreases self,
    {
        match self.node_type {
            NodeType::Leaf { .. } => {},
            NodeType::Internal { children } => {
                assert forall|j: int| 0 <= j < children@.len() implies (#[trigger] children@[j]).same_shape(
                    children@[j],
                ) by {
                    children@[j].lemma_same_shape_refl();
                }
            },
        }
    }
}

/// The search loop's stopping point is the child that `route` names.
pub(super) proof fn lemma_route(keys: Seq<u64>, key: u64, i: int)
    requires
        keys_sorted(keys),
        0 <= i <= keys.len(),
        forall|j: int| 0 <= j < i ==> keys[j] <= key,
        i == keys.len() || key < keys[i],
    ensures
        route(keys, key) == i,
    decreases keys.len(),
{
    if keys.len() > 0 {
        if i == keys.len() {
        } else {
            assert(key < keys[keys.len() - 1]) by {
                if i < keys.len() - 1 {
                    assert(keys[i] < keys[keys.len() - 1]);
                }
            }
            lemma_route(keys.drop_last(), key, i);
        }
    }
}

} // verus!
