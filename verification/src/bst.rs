//! An unbalanced binary search tree of values that are told apart by `PartialOrd`.
use vstd::laws_cmp::obeys_partial_cmp_spec_properties;
use vstd::prelude::*;
use vstd::std_specs::cmp::{PartialOrdIs, PartialOrdSpec};

verus! {

/// A node: its value, and the subtrees of the values below and above it.
pub struct TreeNode<T: PartialOrd> {
    val: T,
    left: Option<Box<TreeNode<T>>>,
    right: Option<Box<TreeNode<T>>>,
}

/// A binary search tree; it is empty while it has no root.
pub struct Tree<T: PartialOrd> {
    root: Option<Box<TreeNode<T>>>,
}

/// `a` and `b` compare as less or greater, so the tree tells them apart.
pub open spec fn distinct<T: PartialOrd>(a: T, b: T) -> bool {
    a.is_lt(&b) || a.is_gt(&b)
}

/// The comparison of `T` is what its specification says, and it orders values strictly.
pub open spec fn ordered_type<T: PartialOrd>() -> bool {
    T::obeys_partial_cmp_spec() && obeys_partial_cmp_spec_properties::<T>()
}

/// The values of a subtree.
pub closed spec fn values_of<T: PartialOrd>(node: Option<Box<TreeNode<T>>>) -> Set<T>
    decreases node,
{
    match node {
        None => Set::empty(),
        Some(n) => values_of(n.left).union(values_of(n.right)).insert(n.val),
    }
}

/// Every value of the left subtree of each node is less than the node's value, and every
/// value of the right subtree greater.
pub closed spec fn ordered<T: PartialOrd>(node: Option<Box<TreeNode<T>>>) -> bool
    decreases node,
{
    match node {
        None => true,
        Some(n) => {
            &&& forall|e: T| #[trigger] values_of(n.left).contains(e) ==> n.val.is_gt(&e)
            &&& forall|e: T| #[trigger] values_of(n.right).contains(e) ==> n.val.is_lt(&e)
            &&& ordered(n.left)
            &&& ordered(n.right)
        },
    }
}

/// The values of a subtree from left to right.
pub closed spec fn in_order_of<T: PartialOrd>(node: Option<Box<TreeNode<T>>>) -> Seq<T>
    decreases node,
{
    match node {
        None => Seq::empty(),
        Some(n) => in_order_of(n.left) + seq![n.val] + in_order_of(n.right),
    }
}

/// The subtree after `value` is put where a search for it ends, as a new leaf: the search
/// goes left at a node whose value is greater, right at one whose value is less, and a subtree
/// whose search meets a value that compares neither way stays as it is.
pub closed spec fn placed<T: PartialOrd>(node: Option<Box<TreeNode<T>>>, value: T) -> Option<
    Box<TreeNode<T>>,
>
    decreases node,
{
    match node {
        None => Some(Box::new(TreeNode { val: value, left: None, right: None })),
        Some(n) => if n.val.is_gt(&value) {
            Some(Box::new(TreeNode { val: n.val, left: placed(n.left, value), right: n.right }))
        } else if n.val.is_lt(&value) {
            Some(Box::new(TreeNode { val: n.val, left: n.left, right: placed(n.right, value) }))
        } else {
            Some(n)
        },
    }
}

/// A search for `value` meets a value that compares neither less nor greater than it.
pub closed spec fn meets_equal<T: PartialOrd>(node: Option<Box<TreeNode<T>>>, value: T) -> bool
    decreases node,
{
    match node {
        None => false,
        Some(n) => if n.val.is_gt(&value) {
            meets_equal(n.left, value)
        } else if n.val.is_lt(&value) {
            meets_equal(n.right, value)
        } else {
            true
        },
    }
}

/// Each value of `s` is less than every value after it.
pub open spec fn increasing<T: PartialOrd>(s: Seq<T>) -> bool {
    forall|i: int, j: int| #![trigger s[i], s[j]] 0 <= i < j < s.len() ==> s[i].is_lt(&s[j])
}

/// An ordered subtree lists its values from left to right in increasing order, each once.
proof fn lemma_in_order<T: PartialOrd>(node: Option<Box<TreeNode<T>>>)
    requires
        ordered_type::<T>(),
        ordered(node),
    ensures
        increasing(in_order_of(node)),
        in_order_of(node).to_set() == values_of(node),
    decreases node,
{
    reveal(obeys_partial_cmp_spec_properties);
    match node {
        None => {
            assert(in_order_of(node).to_set() =~= Set::<T>::empty());
        },
        Some(n) => {
            lemma_in_order(n.left);
            lemma_in_order(n.right);
            let a = in_order_of(n.left);
            let b = in_order_of(n.right);
            let s = in_order_of(node);
            assert(s == a + seq![n.val] + b);
            assert forall|i: int, j: int| #![trigger s[i], s[j]] 0 <= i < j < s.len() implies s[i].is_lt(
                &s[j],
            ) by {
                let na: int = s.len() - b.len() - 1;
                if j < na {
                    assert(s[i] == a[i] && s[j] == a[j]);
                } else if i > na {
                    assert(s[i] == b[i - na - 1] && s[j] == b[j - na - 1]);
                } else if i == na {
                    assert(s[j] == b[j - na - 1]);
                    assert(values_of(n.right).contains(b[j - na - 1]));
                } else if j == na {
                    assert(s[i] == a[i]);
                    assert(values_of(n.left).contains(a[i]));
                } else {
                    assert(s[i] == a[i] && s[j] == b[j - na - 1]);
                    assert(values_of(n.left).contains(a[i]));
                    assert(values_of(n.right).contains(b[j - na - 1]));
                    assert(a[i].is_lt(&n.val));
                }
            }
            assert forall|x: T| s.to_set().contains(x) == values_of(node).contains(x) by {
                if s.contains(x) {
                    let i = choose|i: int| 0 <= i < s.len() && s[i] == x;
                    let na: int = s.len() - b.len() - 1;
                    if i < na {
                        assert(a[i] == s[i]);
                        assert(a.to_set().contains(x));
                    } else if i > na {
                        assert(b[i - na - 1] == s[i]);
                        assert(b.to_set().contains(x));
                    }
                }
                if values_of(n.left).contains(x) {
                    assert(a.to_set().contains(x));
                    let i = choose|i: int| 0 <= i < a.len() && a[i] == x;
                    assert(s[i] == x);
                }
                if values_of(n.right).contains(x) {
                    assert(b.to_set().contains(x));
                    let i = choose|i: int| 0 <= i < b.len() && b[i] == x;
                    assert(s[a.len() + 1 + i] == x);
                }
                if x == n.val {
                    let na: int = s.len() - b.len() - 1;
                    assert(s[na] == x);
                }
            }
            assert(s.to_set() =~= values_of(node));
        },
    }
}

impl<T: PartialOrd> Tree<T> {
    #[verifier::type_invariant]
    spec fn inv(self) -> bool {
        ordered_type::<T>() ==> ordered(self.root)
    }

    /// An empty tree.
    pub fn new() -> (tree: Self)
        ensures
            tree@ == Set::<T>::empty(),
            tree.in_order_seq() == Seq::<T>::empty(),
            tree.shape() is None,
    {
        Tree { root: None }
    }

    /// Puts `value` into the tree as a new leaf where the search for it ends and returns
    /// `None`, unless that search meets a value that compares neither less nor greater than it:
    /// then the tree stays as it is and `value` comes back. Where `T` is ordered, that happens
    /// exactly when the tree holds such a value. The other nodes stay where they are.
    pub fn insert(&mut self, value: T) -> (r: Option<T>)
        ensures
            match r {
                None => {
                    &&& final(self)@ == old(self)@.insert(value)
                    &&& exists|p: int|
                        0 <= p <= old(self).in_order_seq().len() && final(self).in_order_seq()
                            == old(self).in_order_seq().insert(p, value)
                },
                Some(v) => v == value && final(self).shape() == old(self).shape(),
            },
            T::obeys_partial_cmp_spec() ==> {
                &&& final(self).shape() == placed(old(self).shape(), value)
                &&& (r is Some <==> meets_equal(old(self).shape(), value))
            },
            ordered_type::<T>() ==> match r {
                None => forall|e: T| #[trigger] old(self)@.contains(e) ==> distinct(e, value),
                Some(_) => exists|e: T| #[trigger] old(self)@.contains(e) && !distinct(e, value),
            },
            ordered_type::<T>() ==> increasing(final(self).in_order_seq()),
            old(self).shape() is None ==> {
                &&& r is None
                &&& final(self)@ == Set::<T>::empty().insert(value)
                &&& final(self).in_order_seq() == seq![value]
            },
    {
        proof {
            use_type_invariant(&*self);
        }
        let ghost old_root = self.root;
        let mut root = None;
        std::mem::swap(&mut root, &mut self.root);
        let r = Self::inner_insert(&mut root, value);
        self.root = root;
        proof {
            assert(old(self).shape() == old_root);
            assert(old(self)@ == values_of(old_root));
            assert(old(self).in_order_seq() == in_order_of(old_root));
            use_type_invariant(&*self);
            if ordered_type::<T>() {
                lemma_in_order(self.root);
            }
        }
        r
    }

    /// The nodes of the tree.
    pub closed spec fn shape(self) -> Option<Box<TreeNode<T>>> {
        self.root
    }

    /// References to the values of the tree from left to right; where `T` is ordered, from
    /// the least to the greatest.
    pub fn in_order(&self) -> (v: Vec<&T>)
        ensures
            v@.len() == self.in_order_seq().len(),
            forall|i: int| 0 <= i < v@.len() ==> *v@[i] == self.in_order_seq()[i],
            ordered_type::<T>() ==> increasing(self.in_order_seq()),
            ordered_type::<T>() ==> self.in_order_seq().to_set() == self@,
    {
        proof {
            use_type_invariant(self);
            if ordered_type::<T>() {
                lemma_in_order(self.root);
            }
        }
        let mut out: Vec<&T> = Vec::new();
        Self::inner_in_order(&self.root, &mut out);
        out
    }

    /// The values of the tree from left to right.
    pub closed spec fn in_order_seq(self) -> Seq<T> {
        in_order_of(self.root)
    }

    fn inner_in_order<'a>(node: &'a Option<Box<TreeNode<T>>>, out: &mut Vec<&'a T>)
        ensures
            final(out)@.len() == old(out)@.len() + in_order_of(*node).len(),
            forall|i: int| 0 <= i < old(out)@.len() ==> final(out)@[i] == old(out)@[i],
            forall|i: int|
                0 <= i < in_order_of(*node).len() ==> *final(out)@[old(out)@.len() + i]
                    == in_order_of(*node)[i],
        decreases *node,
    {
        match node {
            None => {},
            Some(n) => {
                let ghost o0 = out@;
                Self::inner_in_order(&n.left, out);
                let ghost o1 = out@;
                out.push(&n.val);
                let ghost o2 = out@;
                Self::inner_in_order(&n.right, out);
                proof {
                    let a = in_order_of(n.left);
                    let b = in_order_of(n.right);
                    let s = in_order_of(*node);
                    assert(s == a + seq![n.val] + b);
                    assert forall|i: int| 0 <= i < s.len() implies *out@[o0.len() + i] == s[i] by {
                        if i < a.len() {
                            assert(out@[o0.len() + i] == o1[o0.len() + i]);
                        } else if i == a.len() {
                            assert(out@[o0.len() + i] == o2[o0.len() + i]);
                        } else {
                            assert(*out@[o2.len() + (i - a.len() - 1)] == b[i - a.len() - 1]);
                        }
                    }
                }
            },
        }
    }

    fn inner_insert(node: &mut Option<Box<TreeNode<T>>>, value: T) -> (r: Option<T>)
        requires
            ordered_type::<T>() ==> ordered(*old(node)),
        ensures
            ordered_type::<T>() ==> ordered(*final(node)),
            match r {
                None => values_of(*final(node)) == values_of(*old(node)).insert(value),
                Some(v) => v == value && *final(node) == *old(node),
            },
            r is None ==> exists|p: int|
                0 <= p <= in_order_of(*old(node)).len() && in_order_of(*final(node)) == in_order_of(
                    *old(node),
                ).insert(p, value),
            T::obeys_partial_cmp_spec() ==> {
                &&& *final(node) == placed(*old(node), value)
                &&& (r is Some <==> meets_equal(*old(node), value))
            },
            ordered_type::<T>() ==> match r {
                None => forall|e: T| #[trigger] values_of(*old(node)).contains(e) ==> distinct(e, value),
                Some(_) => exists|e: T| #[trigger] values_of(*old(node)).contains(e) && !distinct(e, value),
            },
            *old(node) is None ==> {
                &&& r is None
                &&& values_of(*final(node)) == Set::<T>::empty().insert(value)
                &&& in_order_of(*final(node)) == seq![value]
            },
        decreases *old(node),
    {
        match node {
            None => {
                *node = Some(Box::new(TreeNode { val: value, left: None, right: None }));
                proof {
                    assert(values_of::<T>(None) == Set::<T>::empty());
                    assert(values_of(*node) =~= Set::<T>::empty().insert(value));
                    assert(in_order_of::<T>(None) == Seq::<T>::empty());
                    assert(in_order_of(*node) =~= Seq::<T>::empty().insert(0, value));
                    assert(in_order_of(*node) =~= seq![value]);
                }
                None
            },
            Some(n) => {
                let ghost n0 = **n;
                if n.val > value {
                    let ghost l0 = in_order_of(n0.left);
                    let r = Self::inner_insert(&mut n.left, value);
                    proof {
                        Self::lemma_went_left(n0, **n, value, r);
                        if r is None {
                            let p = choose|p: int|
                                0 <= p <= l0.len() && in_order_of(n.left) == l0.insert(p, value);
                            assert(in_order_of(*node) =~= in_order_of(Some(Box::new(n0))).insert(
                                p,
                                value,
                            ));
                        }
                    }
                    r
                } else if n.val < value {
                    let ghost l0 = in_order_of(n0.left);
                    let ghost r0 = in_order_of(n0.right);
                    let r = Self::inner_insert(&mut n.right, value);
                    proof {
                        Self::lemma_went_right(n0, **n, value, r);
                        if r is None {
                            let p = choose|p: int|
                                0 <= p <= r0.len() && in_order_of(n.right) == r0.insert(p, value);
                            assert(in_order_of(*node) =~= in_order_of(Some(Box::new(n0))).insert(
                                l0.len() + 1 + p,
                                value,
                            ));
                        }
                    }
                    r
                } else {
                    proof {
                        assert(values_of(Some(Box::new(n0))).contains(n0.val));
                    }
                    Some(value)
                }
            },
        }
    }

    proof fn lemma_went_left(n0: TreeNode<T>, n1: TreeNode<T>, value: T, r: Option<T>)
        requires
            n1.val == n0.val,
            n1.right == n0.right,
            match r {
                None => values_of(n1.left) == values_of(n0.left).insert(value),
                Some(v) => v == value && n1.left == n0.left,
            },
            ordered_type::<T>() ==> {
                &&& ordered(Some(Box::new(n0)))
                &&& n0.val.is_gt(&value)
                &&& ordered(n1.left)
                &&& match r {
                    None => forall|e: T| #[trigger] values_of(n0.left).contains(e) ==> distinct(e, value),
                    Some(_) => exists|e: T| #[trigger] values_of(n0.left).contains(e) && !distinct(e, value),
                }
            },
        ensures
            match r {
                None => values_of(Some(Box::new(n1))) == values_of(Some(Box::new(n0))).insert(value),
                Some(v) => v == value && Some(Box::new(n1)) == Some(Box::new(n0)),
            },
            ordered_type::<T>() ==> {
                &&& ordered(Some(Box::new(n1)))
                &&& match r {
                    None => forall|e: T| #[trigger] values_of(Some(Box::new(n0))).contains(e) ==> distinct(e, value),
                    Some(_) => exists|e: T| #[trigger] values_of(Some(Box::new(n0))).contains(e) && !distinct(e, value),
                }
            },
    {
        reveal(obeys_partial_cmp_spec_properties);
        let old_all = values_of(Some(Box::new(n0)));
        match r {
            None => {
                assert(values_of(Some(Box::new(n1))) =~= old_all.insert(value));
                if ordered_type::<T>() {
                    assert forall|e: T| #[trigger] old_all.contains(e) implies distinct(e, value) by {
                        if values_of(n0.right).contains(e) {
                            assert(n0.val.is_lt(&e));
                            assert(value.is_lt(&n0.val));
                            assert(value.is_lt(&e));
                        }
                    }
                }
            },
            Some(v) => {
                assert(n1 == n0);
                if ordered_type::<T>() {
                    let e = choose|e: T| #[trigger] values_of(n0.left).contains(e) && !distinct(e, value);
                    assert(old_all.contains(e));
                }
            },
        }
    }

    proof fn lemma_went_right(n0: TreeNode<T>, n1: TreeNode<T>, value: T, r: Option<T>)
        requires
            n1.val == n0.val,
            n1.left == n0.left,
            match r {
                None => values_of(n1.right) == values_of(n0.right).insert(value),
                Some(v) => v == value && n1.right == n0.right,
            },
            ordered_type::<T>() ==> {
                &&& ordered(Some(Box::new(n0)))
                &&& n0.val.is_lt(&value)
                &&& ordered(n1.right)
                &&& match r {
                    None => forall|e: T| #[trigger] values_of(n0.right).contains(e) ==> distinct(e, value),
                    Some(_) => exists|e: T| #[trigger] values_of(n0.right).contains(e) && !distinct(e, value),
                }
            },
        ensures
            match r {
                None => values_of(Some(Box::new(n1))) == values_of(Some(Box::new(n0))).insert(value),
                Some(v) => v == value && Some(Box::new(n1)) == Some(Box::new(n0)),
            },
            ordered_type::<T>() ==> {
                &&& ordered(Some(Box::new(n1)))
                &&& match r {
                    None => forall|e: T| #[trigger] values_of(Some(Box::new(n0))).contains(e) ==> distinct(e, value),
                    Some(_) => exists|e: T| #[trigger] values_of(Some(Box::new(n0))).contains(e) && !distinct(e, value),
                }
            },
    {
        reveal(obeys_partial_cmp_spec_properties);
        let old_all = values_of(Some(Box::new(n0)));
        match r {
            None => {
                assert(values_of(Some(Box::new(n1))) =~= old_all.insert(value));
                if ordered_type::<T>() {
                    assert forall|e: T| #[trigger] old_all.contains(e) implies distinct(e, value) by {
                        if values_of(n0.left).contains(e) {
                            assert(n0.val.is_gt(&e));
                            assert(value.is_gt(&n0.val));
                            assert(value.is_gt(&e));
                        }
                    }
                }
            },
            Some(v) => {
                assert(n1 == n0);
                if ordered_type::<T>() {
                    let e = choose|e: T| #[trigger] values_of(n0.right).contains(e) && !distinct(e, value);
                    assert(old_all.contains(e));
                }
            },
        }
    }
}

impl<T: PartialOrd> View for Tree<T> {
    type V = Set<T>;

    /// The values in the tree.
    closed spec fn view(&self) -> Set<T> {
        values_of(self.root)
    }
}

} // verus!
