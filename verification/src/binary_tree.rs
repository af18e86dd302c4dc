use vstd::prelude::*;
use vstd::multiset::Multiset;
use vstd::std_specs::cmp::PartialOrdSpec;

verus! {

/// `a < b` as the `PartialOrd` impl of `T` decides it.
pub open spec fn below<T: PartialOrd>(a: T, b: T) -> bool {
    a.partial_cmp_spec(&b) == Some(core::cmp::Ordering::Less)
}

/// The `PartialOrd` impl of `T` computes what its specification says.
pub open spec fn comparable<T: PartialOrd>() -> bool {
    T::obeys_partial_cmp_spec()
}

/// `a > b` as the `PartialOrd` impl of `T` decides it.
pub open spec fn above<T: PartialOrd>(a: T, b: T) -> bool {
    a.partial_cmp_spec(&b) == Some(core::cmp::Ordering::Greater)
}

/// `a <= b` as the `PartialOrd` impl of `T` decides it.
pub open spec fn at_most<T: PartialOrd>(a: T, b: T) -> bool {
    a.partial_cmp_spec(&b) == Some(core::cmp::Ordering::Less) || a.partial_cmp_spec(&b) == Some(
        core::cmp::Ordering::Equal,
    )
}

/// An unbalanced binary search tree. Values smaller than a node's value
/// go to its left subtree, all others to its right subtree.
#[derive(Debug, PartialEq, Eq)]
pub enum BinaryTree<T> {
    Leaf,
    Node(T, Box<BinaryTree<T>>, Box<BinaryTree<T>>),
}

impl<T: Clone> BinaryTree<T> {
    /// `c` has the shape of this tree, and each of its values is a clone
    /// of the value in the same place.
    pub open spec fn cloned_as(self, c: Self) -> bool
        decreases self,
    {
        match self {
            BinaryTree::Leaf => c is Leaf,
            BinaryTree::Node(v, l, r) => match c {
                BinaryTree::Node(cv, cl, cr) => cloned::<T>(v, cv) && l.cloned_as(*cl) && r.cloned_as(*cr),
                BinaryTree::Leaf => false,
            },
        }
    }
}

impl<T: Clone> Clone for BinaryTree<T> {
    /// A copy of the same shape, each value copied with `T::clone`.
    fn clone(&self) -> (res: Self)
        ensures
            self.cloned_as(res),
            res.size() == self.size(),
        decreases self,
    {
        match self {
            BinaryTree::Leaf => BinaryTree::Leaf,
            BinaryTree::Node(v, l, r) => {
                let lc = (**l).clone();
                let rc = (**r).clone();
                BinaryTree::Node(v.clone(), Box::new(lc), Box::new(rc))
            },
        }
    }
}

impl<T> BinaryTree<T> {
    /// Number of nodes.
    pub open spec fn size(self) -> nat
        decreases self,
    {
        match self {
            BinaryTree::Leaf => 0,
            BinaryTree::Node(_, l, r) => 1 + l.size() + r.size(),
        }
    }

    /// The values in order: left subtree, node, right subtree.
    pub open spec fn inorder(self) -> Seq<T>
        decreases self,
    {
        match self {
            BinaryTree::Leaf => Seq::empty(),
            BinaryTree::Node(v, l, r) => l.inorder().push(v) + r.inorder(),
        }
    }

    /// The values held, with their multiplicities.
    pub open spec fn elems(self) -> Multiset<T>
        decreases self,
    {
        match self {
            BinaryTree::Leaf => Multiset::empty(),
            BinaryTree::Node(v, l, r) => l.elems().add(r.elems()).insert(v),
        }
    }

    pub open spec fn is_leaf(self) -> bool {
        self is Leaf
    }
}


impl<T: PartialOrd> BinaryTree<T> {
    /// The tree after `t` was added as a new leaf: at each node it goes left
    /// when the node's value is greater than `t`, right otherwise.
    pub open spec fn inserted(self, t: T) -> Self
        decreases self,
    {
        match self {
            BinaryTree::Leaf => BinaryTree::Node(t, Box::new(BinaryTree::Leaf), Box::new(BinaryTree::Leaf)),
            BinaryTree::Node(v, l, r) => if above(v, t) {
                BinaryTree::Node(v, Box::new(l.inserted(t)), r)
            } else {
                BinaryTree::Node(v, l, Box::new(r.inserted(t)))
            },
        }
    }

    /// The tree after the whole of `tree` was hung in place of the leaf
    /// that its root value leads to.
    pub open spec fn grafted(self, tree: Self) -> Self
        decreases self,
    {
        match self {
            BinaryTree::Leaf => tree,
            BinaryTree::Node(v, l, r) => match tree {
                BinaryTree::Leaf => self,
                BinaryTree::Node(t, _, _) => if above(v, t) {
                    BinaryTree::Node(v, Box::new(l.grafted(tree)), r)
                } else {
                    BinaryTree::Node(v, l, Box::new(r.grafted(tree)))
                },
            },
        }
    }

    /// What `search` finds: along the right spine, the first value
    /// that is not below `query`.
    pub open spec fn found(self, query: T) -> Option<T>
        decreases self,
    {
        match self {
            BinaryTree::Leaf => None,
            BinaryTree::Node(v, _, r) => if below(v, query) {
                r.found(query)
            } else {
                Some(v)
            },
        }
    }
}

impl<T> BinaryTree<T> {
    /// `(rest, cut)`: the node at the end of the right spine, with its left
    /// subtree, is `cut`; `rest` is the tree without it.
    pub open spec fn split_largest(self) -> (Self, Self)
        decreases self,
    {
        match self {
            BinaryTree::Leaf => (BinaryTree::Leaf, BinaryTree::Leaf),
            BinaryTree::Node(v, l, r) => if r.is_leaf() {
                (BinaryTree::Leaf, self)
            } else {
                let (rest, cut) = r.split_largest();
                (BinaryTree::Node(v, l, Box::new(rest)), cut)
            },
        }
    }

    /// `(rest, cut)`: the node at the end of the left spine, with its right
    /// subtree, is `cut`; `rest` is the tree without it.
    pub open spec fn split_smallest(self) -> (Self, Self)
        decreases self,
    {
        match self {
            BinaryTree::Leaf => (BinaryTree::Leaf, BinaryTree::Leaf),
            BinaryTree::Node(v, l, r) => if l.is_leaf() {
                (BinaryTree::Leaf, self)
            } else {
                let (rest, cut) = l.split_smallest();
                (BinaryTree::Node(v, Box::new(rest), r), cut)
            },
        }
    }
}

impl<T: PartialOrd> BinaryTree<T> {
    /// The tree after one rebalancing step at the root.
    pub open spec fn rebalanced(self) -> Self {
        match self {
            BinaryTree::Leaf => BinaryTree::Leaf,
            BinaryTree::Node(v, l, r) => {
                let ll = l.size();
                let rl = r.size();
                if ll > rl && ll - rl > 1 {
                    let (rest, cut) = l.split_largest();
                    match cut {
                        BinaryTree::Node(m, cl, _) => BinaryTree::Node(
                            m,
                            Box::new(rest.grafted(*cl)),
                            Box::new(BinaryTree::Node(v, Box::new(BinaryTree::Leaf), r)),
                        ),
                        BinaryTree::Leaf => BinaryTree::Node(v, Box::new(rest), r),
                    }
                } else if rl > ll && rl - ll > 1 {
                    let (rest, cut) = r.split_smallest();
                    match cut {
                        BinaryTree::Node(m, _, cr) => BinaryTree::Node(
                            m,
                            Box::new(BinaryTree::Node(v, l, Box::new(BinaryTree::Leaf))),
                            Box::new(rest.grafted(*cr)),
                        ),
                        BinaryTree::Leaf => BinaryTree::Node(v, l, Box::new(rest)),
                    }
                } else {
                    self
                }
            },
        }
    }

    /// Every value in a left subtree is below its node's value (the node's
    /// value is greater), and no value in a right subtree is.
    pub open spec fn is_search_tree(self) -> bool
        decreases self,
    {
        match self {
            BinaryTree::Leaf => true,
            BinaryTree::Node(v, l, r) => {
                &&& forall|e: T| #[trigger] l.elems().contains(e) ==> above(v, e)
                &&& forall|e: T| #[trigger] r.elems().contains(e) ==> !above(v, e)
                &&& l.is_search_tree()
                &&& r.is_search_tree()
            },
        }
    }
}

impl<T: PartialOrd> BinaryTree<T> {
    /// Number of nodes.
    pub fn len(&self) -> (n: usize)
        requires
            self.size() <= usize::MAX,
        ensures
            n == self.size(),
        decreases self,
    {
        match self {
            BinaryTree::Leaf => 0,
            BinaryTree::Node(_, l, r) => 1 + l.len() + r.len(),
        }
    }

    /// References to the values, in order.
    pub fn to_vec(&self) -> (v: Vec<&T>)
        ensures
            v@.len() == self.inorder().len(),
            forall|i: int| 0 <= i < v@.len() ==> *v@[i] == self.inorder()[i],
        decreases self,
    {
        let mut vec = Vec::new();
        match self {
            BinaryTree::Leaf => vec,
            BinaryTree::Node(t, l, r) => {
                let mut lv = l.to_vec();
                vec.append(&mut lv);
                vec.push(t);
                let mut rv = r.to_vec();
                vec.append(&mut rv);
                vec
            },
        }
    }

    /// Whether the in-order values pass `sorted_seq`.
    pub fn sorted(&self) -> (b: bool)
        requires
            comparable::<T>(),
        ensures
            b == sorted_seq(self.inorder()),
    {
        let vec = self.to_vec();
        let ghost s = self.inorder();
        let mut b: bool = true;
        let n = vec.len();
        for i in 0..n
            invariant
                n == vec@.len(),
                vec@.len() == s.len(),
                forall|k: int| 0 <= k < vec@.len() ==> *vec@[k] == s[k],
                comparable::<T>(),
                b == (forall|k: int|
                    0 < k < i && k < s.len() - 1 ==> above(#[trigger] s[k], s[k - 1]) && at_most(
                        s[k],
                        s[k + 1],
                    )),
        {
            if i > 0 && i < (n - 1) {
                let ok = vec[i] > vec[i - 1] && vec[i] <= vec[i + 1];
                assert(ok == (above(s[i as int], s[i - 1]) && at_most(s[i as int], s[i + 1])));
                b = b && ok;
            }
            assert(b == (forall|k: int|
                0 < k < i + 1 && k < s.len() - 1 ==> above(#[trigger] s[k], s[k - 1]) && at_most(
                    s[k],
                    s[k + 1],
                )));
        }
        b
    }

    /// Adds `t` as a new leaf, going left at each node whose value is
    /// greater than `t`, right otherwise.
    pub fn insert(&mut self, t: T)
        requires
            comparable::<T>(),
        ensures
            *final(self) == old(self).inserted(t),
        decreases *old(self),
    {
        let mut cur = BinaryTree::Leaf;
        std::mem::swap(&mut cur, self);
        match cur {
            BinaryTree::Leaf => {
                *self = BinaryTree::Node(t, Box::new(BinaryTree::Leaf), Box::new(BinaryTree::Leaf));
            },
            BinaryTree::Node(tt, mut l, mut r) => {
                if tt > t {
                    l.insert(t);
                } else {
                    r.insert(t);
                }
                *self = BinaryTree::Node(tt, l, r);
            },
        }
    }

    /// Hangs the whole of `tree` in place of the leaf that its root value
    /// leads to; `tree` is left a leaf.
    pub fn insert_tree(&mut self, tree: &mut BinaryTree<T>)
        requires
            comparable::<T>(),
        ensures
            *final(self) == old(self).grafted(*old(tree)),
            *final(tree) == BinaryTree::<T>::Leaf,
        decreases *old(self),
    {
        let mut cur = BinaryTree::Leaf;
        std::mem::swap(&mut cur, self);
        match cur {
            BinaryTree::Leaf => {
                std::mem::swap(self, tree);
            },
            BinaryTree::Node(tt, mut l, mut r) => {
                let go: u8 = match &*tree {
                    BinaryTree::Leaf => 0,
                    BinaryTree::Node(t, _, _) => if tt > *t {
                        1
                    } else {
                        2
                    },
                };
                if go == 1 {
                    l.insert_tree(tree);
                } else if go == 2 {
                    r.insert_tree(tree);
                }
                *self = BinaryTree::Node(tt, l, r);
            },
        }
    }

    /// Walks the right spine and returns the first value that is not
    /// below `query`.
    pub fn search(&self, query: &T) -> (res: Option<&T>)
        requires
            comparable::<T>(),
        ensures
            match res {
                Some(x) => self.found(*query) == Some(*x),
                None => self.found(*query) is None,
            },
        decreases self,
    {
        match self {
            BinaryTree::Leaf => None,
            BinaryTree::Node(tt, _, r) => if *tt < *query {
                r.search(query)
            } else {
                Some(tt)
            },
        }
    }

    /// Cuts out the node at the end of the right spine, together with its
    /// left subtree, and returns it.
    pub fn largest(&mut self) -> (cut: BinaryTree<T>)
        requires
            old(self).size() <= usize::MAX,
        ensures
            (*final(self), cut) == old(self).split_largest(),
        decreases *old(self),
    {
        let mut cur = BinaryTree::Leaf;
        std::mem::swap(&mut cur, self);
        match cur {
            BinaryTree::Leaf => BinaryTree::Leaf,
            BinaryTree::Node(v, l, mut r) => {
                if r.len() == 0 {
                    BinaryTree::Node(v, l, r)
                } else {
                    let cut = r.largest();
                    *self = BinaryTree::Node(v, l, r);
                    cut
                }
            },
        }
    }

    /// Cuts out the node at the end of the left spine, together with its
    /// right subtree, and returns it.
    pub fn smallest(&mut self) -> (cut: BinaryTree<T>)
        requires
            old(self).size() <= usize::MAX,
        ensures
            (*final(self), cut) == old(self).split_smallest(),
        decreases *old(self),
    {
        let mut cur = BinaryTree::Leaf;
        std::mem::swap(&mut cur, self);
        match cur {
            BinaryTree::Leaf => BinaryTree::Leaf,
            BinaryTree::Node(v, mut l, r) => {
                if l.len() == 0 {
                    BinaryTree::Node(v, l, r)
                } else {
                    let cut = l.smallest();
                    *self = BinaryTree::Node(v, l, r);
                    cut
                }
            },
        }
    }

    /// One rebalancing step at the root: when one subtree holds more than
    /// one node more than the other, the nearest value to the root on the
    /// heavy side becomes the new root.
    pub fn rebalance(&mut self)
        requires
            comparable::<T>(),
            old(self).size() <= usize::MAX,
        ensures
            *final(self) == old(self).rebalanced(),
    {
        let mut cur = BinaryTree::Leaf;
        std::mem::swap(&mut cur, self);
        match cur {
            BinaryTree::Leaf => {},
            BinaryTree::Node(t, mut l, mut r) => {
                let ll = l.len();
                let rl = r.len();
                if (ll > rl) && (ll - rl) > 1 {
                    let lar_l = l.largest();
                    match lar_l {
                        BinaryTree::Node(tt, lt, _) => {
                            let mut left1 = *lt;
                            l.insert_tree(&mut left1);
                            let old_root = BinaryTree::Node(t, Box::new(BinaryTree::Leaf), r);
                            *self = BinaryTree::Node(tt, l, Box::new(old_root));
                        },
                        BinaryTree::Leaf => {
                            *self = BinaryTree::Node(t, l, r);
                        },
                    }
                } else if (rl > ll) && (rl - ll) > 1 {
                    let sma_r = r.smallest();
                    match sma_r {
                        BinaryTree::Node(tt, _, rt) => {
                            let mut right1 = *rt;
                            r.insert_tree(&mut right1);
                            let old_root = BinaryTree::Node(t, l, Box::new(BinaryTree::Leaf));
                            *self = BinaryTree::Node(tt, Box::new(old_root), r);
                        },
                        BinaryTree::Leaf => {
                            *self = BinaryTree::Node(t, l, r);
                        },
                    }
                } else {
                    *self = BinaryTree::Node(t, l, r);
                }
            },
        }
    }
}

/// What `sorted` checks of the in-order values: each value strictly above
/// the one before it and at most the one after it, for every position that
/// has both neighbours.
pub open spec fn sorted_seq<T: PartialOrd>(s: Seq<T>) -> bool {
    forall|i: int|
        0 < i < s.len() - 1 ==> above(#[trigger] s[i], s[i - 1]) && at_most(s[i], s[i + 1])
}

/// `len` counts what `to_vec` lists: the in-order sequence has one entry
/// per node, and holds exactly the tree's values.
pub proof fn lemma_inorder_matches<T>(t: BinaryTree<T>)
    ensures
        t.inorder().len() == t.size(),
        t.inorder().to_multiset() == t.elems(),
    decreases t,
{
    broadcast use vstd::seq_lib::group_to_multiset_ensures;
    broadcast use vstd::multiset::group_multiset_axioms;

    match t {
        BinaryTree::Leaf => {
            assert(t.inorder().to_multiset() =~= Multiset::empty());
        },
        BinaryTree::Node(v, l, r) => {
            lemma_inorder_matches(*l);
            lemma_inorder_matches(*r);
            vstd::seq_lib::lemma_multiset_commutative(l.inorder().push(v), r.inorder());
            assert(t.inorder().to_multiset() =~= t.elems());
        },
    }
}

/// `insert` adds exactly one node holding `x`, and keeps a search tree a
/// search tree.
pub proof fn law_insert<T: PartialOrd>(t: BinaryTree<T>, x: T)
    ensures
        t.inserted(x).size() == t.size() + 1,
        t.inserted(x).elems() == t.elems().insert(x),
        t.is_search_tree() ==> t.inserted(x).is_search_tree(),
    decreases t,
{
    broadcast use vstd::multiset::group_multiset_axioms;

    match t {
        BinaryTree::Leaf => {
            let leaf = BinaryTree::<T>::Leaf;
            assert(leaf.elems() =~= Multiset::empty());
            assert(t.inserted(x).elems() =~= t.elems().insert(x));
            assert(leaf.is_search_tree());
        },
        BinaryTree::Node(v, l, r) => {
            law_insert(*l, x);
            law_insert(*r, x);
            assert(t.inserted(x).elems() =~= t.elems().insert(x));
            if t.is_search_tree() {
                if above(v, x) {
                    assert forall|e: T| #[trigger] l.inserted(x).elems().contains(e) implies above(
                        v,
                        e,
                    ) by {
                        assert(l.elems().insert(x).contains(e));
                        if e != x {
                            assert(l.elems().contains(e));
                        }
                    }
                } else {
                    assert forall|e: T| #[trigger] r.inserted(x).elems().contains(e) implies !above(
                        v,
                        e,
                    ) by {
                        assert(r.elems().insert(x).contains(e));
                        if e != x {
                            assert(r.elems().contains(e));
                        }
                    }
                }
            }
        },
    }
}

/// `insert_tree` loses and adds nothing: the values of the result are those
/// of both trees.
pub proof fn law_graft<T: PartialOrd>(a: BinaryTree<T>, b: BinaryTree<T>)
    ensures
        a.grafted(b).size() == a.size() + b.size(),
        a.grafted(b).elems() == a.elems().add(b.elems()),
    decreases a,
{
    broadcast use vstd::multiset::group_multiset_axioms;

    match a {
        BinaryTree::Leaf => {
            assert(a.grafted(b).elems() =~= a.elems().add(b.elems()));
        },
        BinaryTree::Node(v, l, r) => {
            law_graft(*l, b);
            law_graft(*r, b);
            assert(a.grafted(b).elems() =~= a.elems().add(b.elems()));
        },
    }
}

/// `largest` splits the tree in two without losing a value; what it cuts
/// out is a node with no right subtree, and it cuts out nothing only from
/// a leaf.
pub proof fn law_split_largest<T>(t: BinaryTree<T>)
    ensures
        t.split_largest().0.size() + t.split_largest().1.size() == t.size(),
        t.split_largest().0.elems().add(t.split_largest().1.elems()) == t.elems(),
        t.split_largest().1.is_leaf() == t.is_leaf(),
        t.split_largest().1 matches BinaryTree::Node(_, _, r) ==> r.is_leaf(),
    decreases t,
{
    broadcast use vstd::multiset::group_multiset_axioms;

    match t {
        BinaryTree::Leaf => {
            assert(t.split_largest().0.elems().add(t.split_largest().1.elems()) =~= t.elems());
        },
        BinaryTree::Node(v, l, r) => {
            law_split_largest(*r);
            assert(t.split_largest().0.elems().add(t.split_largest().1.elems()) =~= t.elems());
        },
    }
}

/// `smallest` splits the tree in two without losing a value; what it cuts
/// out is a node with no left subtree, and it cuts out nothing only from
/// a leaf.
pub proof fn law_split_smallest<T>(t: BinaryTree<T>)
    ensures
        t.split_smallest().0.size() + t.split_smallest().1.size() == t.size(),
        t.split_smallest().0.elems().add(t.split_smallest().1.elems()) == t.elems(),
        t.split_smallest().1.is_leaf() == t.is_leaf(),
        t.split_smallest().1 matches BinaryTree::Node(_, l, _) ==> l.is_leaf(),
    decreases t,
{
    broadcast use vstd::multiset::group_multiset_axioms;

    match t {
        BinaryTree::Leaf => {
            assert(t.split_smallest().0.elems().add(t.split_smallest().1.elems()) =~= t.elems());
        },
        BinaryTree::Node(v, l, r) => {
            law_split_smallest(*l);
            assert(t.split_smallest().0.elems().add(t.split_smallest().1.elems()) =~= t.elems());
        },
    }
}

/// `rebalance` moves values around but keeps every one of them.
pub proof fn law_rebalance<T: PartialOrd>(t: BinaryTree<T>)
    ensures
        t.rebalanced().size() == t.size(),
        t.rebalanced().elems() == t.elems(),
{
    broadcast use vstd::multiset::group_multiset_axioms;

    match t {
        BinaryTree::Leaf => {},
        BinaryTree::Node(v, l, r) => {
            law_split_largest(*l);
            law_split_smallest(*r);
            let ll = l.size();
            let rl = r.size();
            if ll > rl && ll - rl > 1 {
                let (rest, cut) = l.split_largest();
                if let BinaryTree::Node(m, cl, cr) = cut {
                    law_graft(rest, *cl);
                    let leaf = BinaryTree::<T>::Leaf;
                    assert(leaf.elems() =~= Multiset::empty());
                    assert(leaf.size() == 0);
                    assert(cr.elems() =~= Multiset::empty());
                    let nr = BinaryTree::Node(v, Box::new(leaf), r);
                    assert(nr.elems() =~= r.elems().insert(v));
                    assert(nr.size() == r.size() + 1);
                    assert(t.rebalanced().elems() =~= t.elems());
                }
            } else if rl > ll && rl - ll > 1 {
                let (rest, cut) = r.split_smallest();
                if let BinaryTree::Node(m, cl, cr) = cut {
                    law_graft(rest, *cr);
                    let leaf = BinaryTree::<T>::Leaf;
                    assert(leaf.elems() =~= Multiset::empty());
                    assert(leaf.size() == 0);
                    assert(cl.elems() =~= Multiset::empty());
                    let nl = BinaryTree::Node(v, l, Box::new(leaf));
                    assert(nl.elems() =~= l.elems().insert(v));
                    assert(nl.size() == l.size() + 1);
                    assert(t.rebalanced().elems() =~= t.elems());
                }
            }
        },
    }
}

/// `a` and `b` compare equal under `T`'s `PartialOrd`.
pub open spec fn same_rank<T: PartialOrd>(a: T, b: T) -> bool {
    a.partial_cmp_spec(&b) == Some(core::cmp::Ordering::Equal)
}

/// `T`'s order is total: any two values compare, `a > b` exactly when
/// `b < a`, `<` is transitive, and a value below one of two equal values
/// is below the other.
pub open spec fn total_order<T: PartialOrd>() -> bool {
    &&& forall|a: T, b: T| (#[trigger] a.partial_cmp_spec(&b)) is Some
    &&& forall|a: T, b: T| #[trigger] below(a, b) <==> #[trigger] above(b, a)
    &&& forall|a: T, b: T, c: T| #[trigger] below(a, b) && #[trigger] below(b, c) ==> below(a, c)
    &&& forall|a: T, b: T, c: T| #[trigger] same_rank(a, b) && #[trigger] below(c, a) ==> below(c, b)
}

/// No two entries of `s` compare equal.
pub open spec fn all_distinct<T: PartialOrd>(s: Seq<T>) -> bool {
    forall|i: int, j: int| 0 <= i < s.len() && 0 <= j < s.len() && i != j ==> !same_rank(#[trigger] s[i], #[trigger] s[j])
}

/// Under a total order, a value that is neither above nor equal to
/// another is below it.
proof fn lemma_trichotomy<T: PartialOrd>(a: T, b: T)
    requires
        total_order::<T>(),
        !above(a, b),
        !same_rank(a, b),
    ensures
        below(a, b),
{
    assert(a.partial_cmp_spec(&b) is Some);
    match a.partial_cmp_spec(&b) {
        Some(core::cmp::Ordering::Less) => {},
        Some(core::cmp::Ordering::Equal) => {},
        Some(core::cmp::Ordering::Greater) => {},
        None => {},
    }
}

/// Each in-order value of a search tree over a total order, with no two
/// values equal, is below every value after it.
proof fn lemma_search_tree_increasing<T: PartialOrd>(t: BinaryTree<T>)
    requires
        total_order::<T>(),
        t.is_search_tree(),
        all_distinct(t.inorder()),
    ensures
        forall|i: int, j: int| 0 <= i < j < t.inorder().len() ==> below(#[trigger] t.inorder()[i], #[trigger] t.inorder()[j]),
    decreases t,
{
    broadcast use vstd::seq_lib::group_to_multiset_ensures;

    match t {
        BinaryTree::Leaf => {},
        BinaryTree::Node(v, l, r) => {
            let ls = l.inorder();
            let rs = r.inorder();
            let s = t.inorder();
            let n = ls.len() as int;
            assert(s == ls.push(v) + rs);
            assert forall|i: int| 0 <= i < ls.len() implies #[trigger] s[i] == ls[i] by {}
            assert forall|j: int| 0 <= j < rs.len() implies #[trigger] s[n + 1 + j] == rs[j] by {}
            assert(s[n] == v);
            assert(all_distinct(ls)) by {
                assert forall|i: int, j: int| 0 <= i < ls.len() && 0 <= j < ls.len() && i != j implies !same_rank(#[trigger] ls[i], #[trigger] ls[j]) by {
                    assert(s[i] == ls[i]);
                    assert(s[j] == ls[j]);
                }
            }
            assert(all_distinct(rs)) by {
                assert forall|i: int, j: int| 0 <= i < rs.len() && 0 <= j < rs.len() && i != j implies !same_rank(#[trigger] rs[i], #[trigger] rs[j]) by {
                    assert(s[n + 1 + i] == rs[i]);
                    assert(s[n + 1 + j] == rs[j]);
                }
            }
            lemma_search_tree_increasing(*l);
            lemma_search_tree_increasing(*r);
            lemma_inorder_matches(*l);
            lemma_inorder_matches(*r);
            assert forall|i: int| 0 <= i < ls.len() implies below(#[trigger] ls[i], v) by {
                assert(ls.contains(ls[i]));
                assert(l.elems().contains(ls[i]));
                assert(above(v, ls[i]));
            }
            assert forall|j: int| 0 <= j < rs.len() implies below(v, #[trigger] rs[j]) by {
                assert(rs.contains(rs[j]));
                assert(r.elems().contains(rs[j]));
                assert(!above(v, rs[j]));
                assert(s[n + 1 + j] == rs[j]);
                assert(!same_rank(s[n], s[n + 1 + j]));
                lemma_trichotomy(v, rs[j]);
            }
            assert forall|i: int, j: int| 0 <= i < j < s.len() implies below(#[trigger] s[i], #[trigger] s[j]) by {
                if j < n {
                    assert(s[i] == ls[i] && s[j] == ls[j]);
                } else if j == n {
                    assert(s[i] == ls[i]);
                } else if i == n {
                    assert(s[j] == rs[j - n - 1]);
                } else if i > n {
                    assert(s[i] == rs[i - n - 1] && s[j] == rs[j - n - 1]);
                } else {
                    assert(s[i] == ls[i]);
                    assert(s[j] == rs[j - n - 1]);
                    assert(below(ls[i], v));
                    assert(below(v, rs[j - n - 1]));
                }
            }
        },
    }
}

/// A search tree over a total order whose values are all different passes
/// `sorted`.
pub proof fn law_search_tree_sorted<T: PartialOrd>(t: BinaryTree<T>)
    requires
        total_order::<T>(),
        t.is_search_tree(),
        all_distinct(t.inorder()),
    ensures
        sorted_seq(t.inorder()),
{
    lemma_search_tree_increasing(t);
    let s = t.inorder();
    assert forall|i: int| 0 < i < s.len() - 1 implies above(#[trigger] s[i], s[i - 1]) && at_most(s[i], s[i + 1]) by {
        assert(below(s[i - 1], s[i]));
        assert(below(s[i], s[i + 1]));
    }
}

/// The mark drawn for one ancestor level in front of a node's line.
#[derive(Clone, Copy, Debug, PartialEq, Eq)]
pub enum Mark {
    /// Blank, below a right child.
    Empty,
    /// The corner leading to a right child.
    Edge,
    /// A vertical bar, below a left child.
    Pipe,
    /// The branch leading to a left child.
    Branch,
}

/// The mark for a level that went to the left (2) or right (1) child,
/// the last level being the node's own.
pub open spec fn mark_of(l: usize, last: bool) -> Mark {
    if l == 1 {
        if last {
            Mark::Edge
        } else {
            Mark::Empty
        }
    } else {
        if last {
            Mark::Branch
        } else {
            Mark::Pipe
        }
    }
}

/// The marks in front of a line at `level`.
pub open spec fn marks_of(level: Seq<usize>) -> Seq<Mark> {
    Seq::new(level.len(), |i: int| mark_of(level[i], i == level.len() - 1))
}

impl<T> BinaryTree<T> {
    /// The lines of the drawing of the tree hung at `level`: in preorder,
    /// each node or leaf gives its marks and its value (none for a leaf);
    /// the left child is drawn at level 2, the right one at level 1.
    pub open spec fn drawing(self, level: Seq<usize>) -> Seq<(Seq<Mark>, Option<T>)>
        decreases self,
    {
        match self {
            BinaryTree::Leaf => seq![(marks_of(level), None)],
            BinaryTree::Node(v, l, r) => seq![(marks_of(level), Some(v))] + l.drawing(level.push(2)) + r.drawing(
                level.push(1),
            ),
        }
    }
}

/// The value a line shows.
pub open spec fn shown<T>(o: Option<&T>) -> Option<T> {
    match o {
        Some(x) => Some(*x),
        None => None,
    }
}

/// `level` with `d` appended.
fn extended(level: &Vec<usize>, d: usize) -> (r: Vec<usize>)
    ensures
        r@ == level@.push(d),
{
    let mut r: Vec<usize> = Vec::new();
    for i in 0..level.len()
        invariant
            r@ == level@.subrange(0, i as int),
    {
        r.push(level[i]);
        assert(r@ =~= level@.subrange(0, i + 1));
    }
    assert(r@ =~= level@);
    r.push(d);
    r
}

/// The marks in front of a line at `level`.
fn level_marks(level: &Vec<usize>) -> (m: Vec<Mark>)
    ensures
        m@ == marks_of(level@),
{
    let mut m: Vec<Mark> = Vec::new();
    let maxpos = level.len();
    for pos in 0..maxpos
        invariant
            maxpos == level@.len(),
            m@.len() == pos,
            forall|i: int| 0 <= i < pos ==> m@[i] == mark_of(level@[i], i == level@.len() - 1),
    {
        let last_row = pos == maxpos - 1;
        if level[pos] == 1 {
            if !last_row {
                m.push(Mark::Empty);
            } else {
                m.push(Mark::Edge);
            }
        } else {
            if !last_row {
                m.push(Mark::Pipe);
            } else {
                m.push(Mark::Branch);
            }
        }
    }
    assert(m@ =~= marks_of(level@));
    m
}

impl<T> BinaryTree<T> {
    /// The lines of the tree's drawing at `level`, as `drawing` lists them:
    /// the marks of each line and a reference to its value.
    pub fn fmt_levels(&self, level: Vec<usize>) -> (lines: Vec<(Vec<Mark>, Option<&T>)>)
        ensures
            lines@.len() == self.drawing(level@).len(),
            forall|i: int|
                0 <= i < lines@.len() ==> (#[trigger] lines@[i]).0@ == self.drawing(level@)[i].0 && shown(
                    lines@[i].1,
                ) == self.drawing(level@)[i].1,
        decreases self,
    {
        let mut lines: Vec<(Vec<Mark>, Option<&T>)> = Vec::new();
        match self {
            BinaryTree::Node(s, l, r) => {
                lines.push((level_marks(&level), Some(s)));
                let mut ll = l.fmt_levels(extended(&level, 2));
                let mut rl = r.fmt_levels(extended(&level, 1));
                let ghost first = lines@;
                let ghost lv = ll@;
                let ghost rv = rl@;
                lines.append(&mut ll);
                lines.append(&mut rl);
                proof {
                    let d = self.drawing(level@);
                    assert(d == seq![(marks_of(level@), Some(*s))] + l.drawing(level@.push(2)) + r.drawing(level@.push(1)));
                    assert(lines@ == first + lv + rv);
                    assert forall|i: int| 0 <= i < lines@.len() implies (#[trigger] lines@[i]).0@ == d[i].0 && shown(lines@[i].1) == d[i].1 by {
                        if i == 0 {
                        } else if i < 1 + lv.len() {
                            assert(lines@[i] == lv[i - 1]);
                            assert(d[i] == l.drawing(level@.push(2))[i - 1]);
                        } else {
                            assert(lines@[i] == rv[i - 1 - lv.len()]);
                            assert(d[i] == r.drawing(level@.push(1))[i - 1 - lv.len()]);
                        }
                    }
                }
            },
            BinaryTree::Leaf => {
                lines.push((level_marks(&level), None));
            },
        }
        lines
    }
}

/// Where cloning a value gives an equal value, cloning a tree gives an
/// equal tree.
pub proof fn law_clone_exact<T: Clone>(t: BinaryTree<T>, c: BinaryTree<T>)
    requires
        forall|a: T, b: T| #[trigger] cloned::<T>(a, b) ==> a == b,
        t.cloned_as(c),
    ensures
        c == t,
    decreases t,
{
    match t {
        BinaryTree::Leaf => {},
        BinaryTree::Node(v, l, r) => {
            if let BinaryTree::Node(cv, cl, cr) = c {
                law_clone_exact(*l, *cl);
                law_clone_exact(*r, *cr);
            }
        },
    }
}

impl<T: PartialOrd> BinaryTree<T> {
    /// Where `insert(t)` puts `t` in the in-order sequence: past the left
    /// subtree of each node it passes to the right.
    pub open spec fn insert_pos(self, t: T) -> int
        decreases self,
    {
        match self {
            BinaryTree::Leaf => 0,
            BinaryTree::Node(v, l, r) => if above(v, t) {
                l.insert_pos(t)
            } else {
                l.inorder().len() + 1 + r.insert_pos(t)
            },
        }
    }
}

/// How many entries of `s` are not above `x`.
pub open spec fn count_not_above<T: PartialOrd>(s: Seq<T>, x: T) -> nat
    decreases s.len(),
{
    if s.len() == 0 {
        0
    } else {
        count_not_above(s.drop_last(), x) + if above(s.last(), x) {
            0nat
        } else {
            1nat
        }
    }
}

/// When the entries before `p` are not above `x` and those from `p` on
/// are, `p` of them are not above `x`.
proof fn lemma_count_split<T: PartialOrd>(s: Seq<T>, x: T, p: int)
    requires
        0 <= p <= s.len(),
        forall|i: int| 0 <= i < p ==> !above(#[trigger] s[i], x),
        forall|i: int| p <= i < s.len() ==> above(#[trigger] s[i], x),
    ensures
        count_not_above(s, x) == p,
    decreases s.len(),
{
    if s.len() > 0 {
        let s2 = s.drop_last();
        assert(s.last() == s[s.len() - 1]);
        if p == s.len() {
            lemma_count_split(s2, x, p - 1);
        } else {
            lemma_count_split(s2, x, p);
        }
    }
}

/// Under a total order, a value that is not above another is below it or
/// equal to it.
proof fn lemma_not_above<T: PartialOrd>(a: T, b: T)
    requires
        total_order::<T>(),
        !above(a, b),
    ensures
        below(a, b) || same_rank(a, b),
{
    assert(a.partial_cmp_spec(&b) is Some);
    match a.partial_cmp_spec(&b) {
        Some(core::cmp::Ordering::Less) => {},
        Some(core::cmp::Ordering::Equal) => {},
        Some(core::cmp::Ordering::Greater) => {},
        None => {},
    }
}

/// `insert(x)` into a search tree over a total order puts `x` into the
/// in-order sequence after every value that is not above `x` and before
/// every value that is.
pub proof fn law_insert_inorder<T: PartialOrd>(t: BinaryTree<T>, x: T)
    requires
        total_order::<T>(),
        t.is_search_tree(),
    ensures
        0 <= t.insert_pos(x) <= t.inorder().len(),
        t.inserted(x).inorder() == t.inorder().insert(t.insert_pos(x), x),
        forall|i: int| 0 <= i < t.insert_pos(x) ==> !above(#[trigger] t.inorder()[i], x),
        forall|i: int| t.insert_pos(x) <= i < t.inorder().len() ==> above(#[trigger] t.inorder()[i], x),
        t.insert_pos(x) == count_not_above(t.inorder(), x),
    decreases t,
{
    broadcast use vstd::seq_lib::group_to_multiset_ensures;

    lemma_insert_inorder_split(t, x);
    lemma_count_split(t.inorder(), x, t.insert_pos(x));
}

/// The in-order split that `law_insert_inorder` states.
proof fn lemma_insert_inorder_split<T: PartialOrd>(t: BinaryTree<T>, x: T)
    requires
        total_order::<T>(),
        t.is_search_tree(),
    ensures
        0 <= t.insert_pos(x) <= t.inorder().len(),
        t.inserted(x).inorder() == t.inorder().insert(t.insert_pos(x), x),
        forall|i: int| 0 <= i < t.insert_pos(x) ==> !above(#[trigger] t.inorder()[i], x),
        forall|i: int| t.insert_pos(x) <= i < t.inorder().len() ==> above(#[trigger] t.inorder()[i], x),
    decreases t,
{
    broadcast use vstd::seq_lib::group_to_multiset_ensures;

    match t {
        BinaryTree::Leaf => {
            assert(t.inserted(x).inorder() =~= seq![x]);
            assert(t.inorder().insert(0, x) =~= seq![x]);
        },
        BinaryTree::Node(v, l, r) => {
            let ls = l.inorder();
            let rs = r.inorder();
            let s = t.inorder();
            let n = ls.len();
            assert(s == ls.push(v) + rs);
            assert forall|i: int| 0 <= i < n implies #[trigger] s[i] == ls[i] by {}
            assert forall|j: int| 0 <= j < rs.len() implies #[trigger] s[n + 1 + j] == rs[j] by {}
            assert(s[n as int] == v);
            lemma_inorder_matches(*l);
            lemma_inorder_matches(*r);
            if above(v, x) {
                lemma_insert_inorder_split(*l, x);
                let p = l.insert_pos(x);
                let ls2 = l.inserted(x).inorder();
                assert(t.inserted(x).inorder() == ls2.push(v) + rs);
                assert(t.inserted(x).inorder() =~= s.insert(p, x)) by {
                    assert forall|i: int| 0 <= i < s.len() + 1 implies #[trigger] (ls2.push(v) + rs)[i] == s.insert(p, x)[i] by {
                        if i < p {
                            assert(ls2[i] == ls[i]);
                        } else if i == p {
                        } else if i <= n {
                            assert(ls2[i] == ls[i - 1]);
                        } else {
                        }
                    }
                }
                assert forall|i: int| p <= i < s.len() implies above(#[trigger] s[i], x) by {
                    if i < n {
                        assert(s[i] == ls[i]);
                    } else if i > n {
                        let e = rs[i - n - 1];
                        assert(s[i] == e);
                        assert(rs.contains(e));
                        assert(r.elems().contains(e));
                        assert(!above(v, e));
                        lemma_not_above(v, e);
                        assert(below(x, v));
                        assert(below(x, e));
                    }
                }
                assert forall|i: int| 0 <= i < p implies !above(#[trigger] s[i], x) by {
                    assert(s[i] == ls[i]);
                }
            } else {
                lemma_insert_inorder_split(*r, x);
                let q = r.insert_pos(x);
                let p = n + 1 + q;
                let rs2 = r.inserted(x).inorder();
                assert(t.inserted(x).inorder() == ls.push(v) + rs2);
                assert(t.inserted(x).inorder() =~= s.insert(p, x)) by {
                    assert forall|i: int| 0 <= i < s.len() + 1 implies #[trigger] (ls.push(v) + rs2)[i] == s.insert(p, x)[i] by {
                        if i <= n {
                        } else if i < p {
                            assert(rs2[i - n - 1] == rs[i - n - 1]);
                        } else if i == p {
                        } else {
                            assert(rs2[i - n - 1] == rs[i - n - 2]);
                        }
                    }
                }
                lemma_not_above(v, x);
                assert forall|i: int| 0 <= i < p implies !above(#[trigger] s[i], x) by {
                    if i < n {
                        let e = ls[i];
                        assert(s[i] == e);
                        assert(ls.contains(e));
                        assert(l.elems().contains(e));
                        assert(above(v, e));
                        assert(below(e, v));
                        assert(below(e, x));
                    } else if i > n {
                        assert(s[i] == rs[i - n - 1]);
                    }
                }
                assert forall|i: int| p <= i < s.len() implies above(#[trigger] s[i], x) by {
                    assert(s[i] == rs[i - n - 1]);
                }
            }
        },
    }
}

/// In a search tree, hanging the left subtree of the cut-out largest node
/// back into the rest keeps the in-order sequence: the rest, that subtree,
/// then the cut value.
proof fn lemma_split_largest_inorder<T: PartialOrd>(t: BinaryTree<T>)
    requires
        t.is_search_tree(),
        t.split_largest().1 is Node,
    ensures
        t.split_largest().0.grafted(*t.split_largest().1->1).inorder().push(t.split_largest().1->0)
            == t.inorder(),
    decreases t,
{
    broadcast use vstd::multiset::group_multiset_axioms;

    match t {
        BinaryTree::Leaf => {},
        BinaryTree::Node(w, a, b) => {
            if b.is_leaf() {
                assert(b.inorder() =~= Seq::<T>::empty());
                assert(t.inorder() =~= a.inorder().push(w));
            } else {
                let (rest_b, cut) = b.split_largest();
                law_split_largest(*b);
                lemma_split_largest_inorder(*b);
                let m = cut->0;
                let cl = *cut->1;
                match cl {
                    BinaryTree::Leaf => {
                        assert(rest_b.grafted(cl) == rest_b);
                    },
                    BinaryTree::Node(c, _, _) => {
                        assert(cl.elems().contains(c));
                        assert(cut.elems() == cl.elems().add(cut->2.elems()).insert(m));
                        assert(cut.elems().contains(c));
                        assert(b.elems().contains(c));
                        assert(!above(w, c));
                    },
                }
                let g = rest_b.grafted(cl);
                assert(t.split_largest().0.grafted(cl) == BinaryTree::Node(w, a, Box::new(g)));
                assert(g.inorder().push(m) == b.inorder());
                assert((a.inorder().push(w) + g.inorder()).push(m) =~= a.inorder().push(w) + g.inorder().push(m));
            }
        },
    }
}

/// In a search tree, hanging the right subtree of the cut-out smallest
/// node back into the rest keeps the in-order sequence: the cut value,
/// then the rest with that subtree.
proof fn lemma_split_smallest_inorder<T: PartialOrd>(t: BinaryTree<T>)
    requires
        t.is_search_tree(),
        t.split_smallest().1 is Node,
    ensures
        seq![t.split_smallest().1->0] + t.split_smallest().0.grafted(*t.split_smallest().1->2).inorder()
            == t.inorder(),
    decreases t,
{
    broadcast use vstd::multiset::group_multiset_axioms;

    match t {
        BinaryTree::Leaf => {},
        BinaryTree::Node(w, a, b) => {
            if a.is_leaf() {
                assert(a.inorder() =~= Seq::<T>::empty());
                assert(t.inorder() =~= seq![w] + b.inorder());
            } else {
                let (rest_a, cut) = a.split_smallest();
                law_split_smallest(*a);
                lemma_split_smallest_inorder(*a);
                let m = cut->0;
                let cr = *cut->2;
                match cr {
                    BinaryTree::Leaf => {
                        assert(rest_a.grafted(cr) == rest_a);
                    },
                    BinaryTree::Node(c, _, _) => {
                        assert(cr.elems().contains(c));
                        assert(cut.elems() == cut->1.elems().add(cr.elems()).insert(m));
                        assert(cut.elems().contains(c));
                        assert(a.elems().contains(c));
                        assert(above(w, c));
                    },
                }
                let g = rest_a.grafted(cr);
                assert(t.split_smallest().0.grafted(cr) == BinaryTree::Node(w, Box::new(g), b));
                assert(seq![m] + g.inorder() == a.inorder());
                assert(seq![m] + (g.inorder().push(w) + b.inorder()) =~= (seq![m] + g.inorder()).push(w) + b.inorder());
            }
        },
    }
}

/// With no two values equal under a total order, a tree whose in-order
/// values increase is a search tree.
proof fn lemma_increasing_search_tree<T: PartialOrd>(t: BinaryTree<T>)
    requires
        total_order::<T>(),
        forall|i: int, j: int| 0 <= i < j < t.inorder().len() ==> below(#[trigger] t.inorder()[i], #[trigger] t.inorder()[j]),
    ensures
        t.is_search_tree(),
    decreases t,
{
    broadcast use vstd::seq_lib::group_to_multiset_ensures;

    match t {
        BinaryTree::Leaf => {},
        BinaryTree::Node(v, l, r) => {
            let ls = l.inorder();
            let rs = r.inorder();
            let s = t.inorder();
            let n = ls.len();
            assert(s == ls.push(v) + rs);
            assert forall|i: int| 0 <= i < n implies #[trigger] s[i] == ls[i] by {}
            assert forall|j: int| 0 <= j < rs.len() implies #[trigger] s[n + 1 + j] == rs[j] by {}
            assert(s[n as int] == v);
            assert forall|i: int, j: int| 0 <= i < j < ls.len() implies below(#[trigger] ls[i], #[trigger] ls[j]) by {
                assert(s[i] == ls[i] && s[j] == ls[j]);
            }
            assert forall|i: int, j: int| 0 <= i < j < rs.len() implies below(#[trigger] rs[i], #[trigger] rs[j]) by {
                assert(s[n + 1 + i] == rs[i] && s[n + 1 + j] == rs[j]);
            }
            lemma_increasing_search_tree(*l);
            lemma_increasing_search_tree(*r);
            lemma_inorder_matches(*l);
            lemma_inorder_matches(*r);
            assert forall|e: T| #[trigger] l.elems().contains(e) implies above(v, e) by {
                assert(ls.contains(e));
                let i = choose|i: int| 0 <= i < ls.len() && ls[i] == e;
                assert(s[i] == e);
                assert(below(s[i], s[n as int]));
            }
            assert forall|e: T| #[trigger] r.elems().contains(e) implies !above(v, e) by {
                assert(rs.contains(e));
                let j = choose|j: int| 0 <= j < rs.len() && rs[j] == e;
                assert(s[n + 1 + j] == e);
                assert(below(s[n as int], s[n + 1 + j]));
            }
        },
    }
}

/// `rebalance` keeps the in-order sequence of a search tree, and, over a
/// total order with no two values equal, keeps it a search tree.
pub proof fn law_rebalance_order<T: PartialOrd>(t: BinaryTree<T>)
    requires
        t.is_search_tree(),
    ensures
        t.rebalanced().inorder() == t.inorder(),
        total_order::<T>() && all_distinct(t.inorder()) ==> t.rebalanced().is_search_tree(),
{
    match t {
        BinaryTree::Leaf => {},
        BinaryTree::Node(v, l, r) => {
            let ll = l.size();
            let rl = r.size();
            law_split_largest(*l);
            law_split_smallest(*r);
            if ll > rl && ll - rl > 1 {
                let (rest, cut) = l.split_largest();
                if let BinaryTree::Node(m, cl, cr) = cut {
                    lemma_split_largest_inorder(*l);
                    let nr = BinaryTree::Node(v, Box::new(BinaryTree::<T>::Leaf), r);
                    assert(BinaryTree::<T>::Leaf.inorder() =~= Seq::<T>::empty());
                    assert(nr.inorder() =~= seq![v] + r.inorder());
                    assert(t.rebalanced().inorder() =~= t.inorder());
                } else {
                    assert(l.is_leaf());
                }
            } else if rl > ll && rl - ll > 1 {
                let (rest, cut) = r.split_smallest();
                if let BinaryTree::Node(m, cl, cr) = cut {
                    lemma_split_smallest_inorder(*r);
                    let nl = BinaryTree::Node(v, l, Box::new(BinaryTree::<T>::Leaf));
                    assert(BinaryTree::<T>::Leaf.inorder() =~= Seq::<T>::empty());
                    assert(nl.inorder() =~= l.inorder().push(v));
                    assert(t.rebalanced().inorder() =~= t.inorder());
                } else {
                    assert(r.is_leaf());
                }
            }
        },
    }
    if total_order::<T>() && all_distinct(t.inorder()) {
        lemma_search_tree_increasing(t);
        lemma_increasing_search_tree(t.rebalanced());
    }
}

/// `n` is `t` with one leaf replaced by a node holding `x` with two leaf
/// children; every other node keeps its value and its place.
pub open spec fn leaf_extended<T>(t: BinaryTree<T>, n: BinaryTree<T>, x: T) -> bool
    decreases t,
{
    match t {
        BinaryTree::Leaf => n == BinaryTree::Node(x, Box::new(BinaryTree::Leaf), Box::new(BinaryTree::Leaf)),
        BinaryTree::Node(v, l, r) => match n {
            BinaryTree::Node(nv, nl, nr) => nv == v && ((leaf_extended(*l, *nl, x) && *nr == *r) || (*nl == *l
                && leaf_extended(*r, *nr, x))),
            BinaryTree::Leaf => false,
        },
    }
}

/// `insert(x)` changes no existing node: it only turns one leaf into a
/// node holding `x`.
pub proof fn law_insert_adds_leaf<T: PartialOrd>(t: BinaryTree<T>, x: T)
    ensures
        leaf_extended(t, t.inserted(x), x),
    decreases t,
{
    match t {
        BinaryTree::Leaf => {},
        BinaryTree::Node(v, l, r) => {
            law_insert_adds_leaf(*l, x);
            law_insert_adds_leaf(*r, x);
        },
    }
}

/// The values along the right spine, from the root down.
pub open spec fn right_spine<T>(t: BinaryTree<T>) -> Seq<T>
    decreases t,
{
    match t {
        BinaryTree::Leaf => Seq::empty(),
        BinaryTree::Node(v, _, r) => seq![v] + right_spine(*r),
    }
}

/// `search(q)` answers with the first value on the right spine that is not
/// below `q`, and with nothing when every spine value is below `q`.
pub proof fn law_search_right_spine<T: PartialOrd>(t: BinaryTree<T>, q: T)
    ensures
        t.found(q) is None <==> forall|i: int| 0 <= i < right_spine(t).len() ==> below(#[trigger] right_spine(t)[i], q),
        t.found(q) matches Some(x) ==> exists|k: int|
            0 <= k < right_spine(t).len() && #[trigger] right_spine(t)[k] == x && !below(x, q) && forall|i: int|
                0 <= i < k ==> below(#[trigger] right_spine(t)[i], q),
    decreases t,
{
    match t {
        BinaryTree::Leaf => {},
        BinaryTree::Node(v, l, r) => {
            law_search_right_spine(*r, q);
            let sp = right_spine(t);
            let sr = right_spine(*r);
            assert(sp == seq![v] + sr);
            assert(sp[0] == v);
            assert forall|i: int| 0 <= i < sr.len() implies #[trigger] sp[i + 1] == sr[i] by {}
            if below(v, q) {
                if t.found(q) is None {
                    assert forall|i: int| 0 <= i < sp.len() implies below(#[trigger] sp[i], q) by {
                        if i > 0 {
                            assert(sp[i] == sr[i - 1]);
                        }
                    }
                } else {
                    let x = t.found(q)->0;
                    let k = choose|k: int|
                        0 <= k < sr.len() && #[trigger] sr[k] == x && !below(x, q) && forall|i: int|
                            0 <= i < k ==> below(#[trigger] sr[i], q);
                    assert(sp[k + 1] == x);
                    assert forall|i: int| 0 <= i < k + 1 implies below(#[trigger] sp[i], q) by {
                        if i > 0 {
                            assert(sp[i] == sr[i - 1]);
                        }
                    }
                    if forall|i: int| 0 <= i < sp.len() ==> below(#[trigger] sp[i], q) {
                        assert forall|i: int| 0 <= i < sr.len() implies below(#[trigger] sr[i], q) by {
                            assert(sp[i + 1] == sr[i]);
                        }
                    }
                }
            } else {
                assert(!below(sp[0], q));
            }
        },
    }
}

/// `search` never looks at a left subtree: swapping it leaves the answer.
pub proof fn law_search_ignores_left<T: PartialOrd>(
    v: T,
    l: BinaryTree<T>,
    l2: BinaryTree<T>,
    r: BinaryTree<T>,
    q: T,
)
    ensures
        BinaryTree::Node(v, Box::new(l), Box::new(r)).found(q) == BinaryTree::Node(v, Box::new(l2), Box::new(r)).found(q),
{
}

/// What `sorted` checks, in terms of `T`'s comparison: every value with a
/// neighbour on each side is greater than the one before it and less than
/// or equal to the one after it.
pub proof fn law_sorted_meaning<T: PartialOrd>(s: Seq<T>)
    ensures
        sorted_seq(s) <==> forall|i: int|
            1 <= i && i + 1 < s.len() ==> (#[trigger] s[i]).partial_cmp_spec(&s[i - 1]) == Some(core::cmp::Ordering::Greater)
                && (s[i].partial_cmp_spec(&s[i + 1]) == Some(core::cmp::Ordering::Less) || s[i].partial_cmp_spec(
                &s[i + 1],
            ) == Some(core::cmp::Ordering::Equal)),
{
}

/// The value `smallest` cuts out is the first in-order value.
proof fn lemma_smallest_is_first<T>(t: BinaryTree<T>)
    requires
        t is Node,
    ensures
        t.split_smallest().1 is Node,
        t.split_smallest().1->0 == t.inorder()[0],
    decreases t,
{
    match t {
        BinaryTree::Leaf => {},
        BinaryTree::Node(w, a, b) => {
            lemma_inorder_matches(*a);
            if a.is_leaf() {
                assert(a.inorder().len() == 0);
                assert(t.inorder()[0] == w);
            } else {
                lemma_smallest_is_first(*a);
                assert(a.inorder().len() > 0);
                assert(t.inorder()[0] == a.inorder()[0]);
            }
        },
    }
}

/// The value `largest` cuts out is the last in-order value.
proof fn lemma_largest_is_last<T>(t: BinaryTree<T>)
    requires
        t is Node,
    ensures
        t.split_largest().1 is Node,
        t.split_largest().1->0 == t.inorder().last(),
    decreases t,
{
    match t {
        BinaryTree::Leaf => {},
        BinaryTree::Node(w, a, b) => {
            lemma_inorder_matches(*b);
            if b.is_leaf() {
                assert(b.inorder().len() == 0);
                assert(t.inorder() =~= a.inorder().push(w));
            } else {
                lemma_largest_is_last(*b);
                assert(b.inorder().len() > 0);
                assert(t.inorder().last() == b.inorder().last());
            }
        },
    }
}

/// `rebalance` acts exactly when the two subtrees of the root differ in
/// size by more than one: the heavy side gives up its value nearest the
/// root's in-order place (the last of a heavy left side, the first of a
/// heavy right side), which becomes the root, and the sizes of the two
/// sides move one step towards each other. Otherwise the tree is kept.
pub proof fn law_rebalance_step<T: PartialOrd>(t: BinaryTree<T>)
    ensures
        t is Leaf ==> t.rebalanced() == t,
        t is Node && t->1.size() > t->2.size() + 1 ==> {
            &&& t.rebalanced() is Node
            &&& t.rebalanced()->0 == t->1.inorder().last()
            &&& t.rebalanced()->1.size() + 1 == t->1.size()
            &&& t.rebalanced()->2.size() == t->2.size() + 1
        },
        t is Node && t->2.size() > t->1.size() + 1 ==> {
            &&& t.rebalanced() is Node
            &&& t.rebalanced()->0 == t->2.inorder()[0]
            &&& t.rebalanced()->1.size() == t->1.size() + 1
            &&& t.rebalanced()->2.size() + 1 == t->2.size()
        },
        t is Node && t->1.size() <= t->2.size() + 1 && t->2.size() <= t->1.size() + 1 ==> t.rebalanced() == t,
{
    match t {
        BinaryTree::Leaf => {},
        BinaryTree::Node(v, l, r) => {
            let leaf = BinaryTree::<T>::Leaf;
            assert(leaf.size() == 0);
            if l.size() > r.size() + 1 {
                assert((*l) is Node);
                lemma_largest_is_last(*l);
                law_split_largest(*l);
                let (rest, cut) = l.split_largest();
                let cl = *cut->1;
                law_graft(rest, cl);
                assert(cut->2.is_leaf());
            } else if r.size() > l.size() + 1 {
                assert((*r) is Node);
                lemma_smallest_is_first(*r);
                law_split_smallest(*r);
                let (rest, cut) = r.split_smallest();
                let cr = *cut->2;
                law_graft(rest, cr);
                assert(cut->1.is_leaf());
            }
        },
    }
}

/// Grafting `b` into a search tree over a total order places the whole
/// in-order sequence of `b` after every value of the tree that is not
/// above `b`'s root and before every value that is.
pub proof fn law_graft_inorder<T: PartialOrd>(a: BinaryTree<T>, b: BinaryTree<T>)
    requires
        total_order::<T>(),
        a.is_search_tree(),
        b is Node,
    ensures
        ({
            let k = count_not_above(a.inorder(), b->0) as int;
            a.grafted(b).inorder() == a.inorder().take(k) + b.inorder() + a.inorder().skip(k)
        }),
    decreases a,
{
    let c = b->0;
    law_insert_inorder(a, c);
    match a {
        BinaryTree::Leaf => {
            assert(a.inorder() =~= Seq::<T>::empty());
            assert(a.grafted(b).inorder() =~= a.inorder().take(0) + b.inorder() + a.inorder().skip(0));
        },
        BinaryTree::Node(v, l, r) => {
            let ls = l.inorder();
            let rs = r.inorder();
            let s = a.inorder();
            let bs = b.inorder();
            assert(s == ls.push(v) + rs);
            law_insert_inorder(*l, c);
            law_insert_inorder(*r, c);
            law_graft_inorder(*l, b);
            law_graft_inorder(*r, b);
            if above(v, c) {
                let k = l.insert_pos(c);
                assert(a.grafted(b).inorder() == l.grafted(b).inorder().push(v) + rs);
                assert(a.grafted(b).inorder() =~= s.take(k) + bs + s.skip(k));
            } else {
                let kr = r.insert_pos(c);
                let k = ls.len() + 1 + kr;
                assert(a.grafted(b).inorder() == ls.push(v) + r.grafted(b).inorder());
                assert(a.grafted(b).inorder() =~= s.take(k) + bs + s.skip(k));
            }
        },
    }
}

/// `insert(x)` at a node changes only the side that `x` belongs to: the
/// left side when the node's value is above `x`, else the right side.
pub proof fn law_insert_side<T: PartialOrd>(v: T, l: BinaryTree<T>, r: BinaryTree<T>, x: T)
    ensures
        BinaryTree::Node(v, Box::new(l), Box::new(r)).inserted(x) is Node,
        BinaryTree::Node(v, Box::new(l), Box::new(r)).inserted(x)->0 == v,
        above(v, x) ==> *BinaryTree::Node(v, Box::new(l), Box::new(r)).inserted(x)->2 == r,
        !above(v, x) ==> *BinaryTree::Node(v, Box::new(l), Box::new(r)).inserted(x)->1 == l,
{
}

/// Grafting at a node changes only the side that the grafted root value
/// belongs to; grafting a leaf changes nothing, and grafting into a leaf
/// gives the grafted tree.
pub proof fn law_graft_side<T: PartialOrd>(a: BinaryTree<T>, b: BinaryTree<T>)
    ensures
        b is Leaf ==> a.grafted(b) == a,
        a is Leaf ==> a.grafted(b) == b,
        a is Node && b is Node ==> {
            &&& a.grafted(b) is Node
            &&& a.grafted(b)->0 == a->0
            &&& above(a->0, b->0) ==> *a.grafted(b)->2 == *a->2
            &&& !above(a->0, b->0) ==> *a.grafted(b)->1 == *a->1
        },
{
}

/// `largest` cuts out the last in-order value with its left subtree, and
/// the rest followed by the cut part lists the tree's in-order values.
pub proof fn law_largest_cuts_last<T>(t: BinaryTree<T>)
    ensures
        t.split_largest().0.inorder() + t.split_largest().1.inorder() == t.inorder(),
        t is Node ==> t.split_largest().1 is Node && t.split_largest().1->0 == t.inorder().last(),
    decreases t,
{
    if t is Node {
        lemma_largest_is_last(t);
    }
    match t {
        BinaryTree::Leaf => {
            assert(t.inorder() + t.inorder() =~= t.inorder());
        },
        BinaryTree::Node(w, a, b) => {
            if b.is_leaf() {
                assert(BinaryTree::<T>::Leaf.inorder() =~= Seq::<T>::empty());
                assert(t.split_largest().0.inorder() + t.split_largest().1.inorder() =~= t.inorder());
            } else {
                law_largest_cuts_last(*b);
                let (rest, cut) = b.split_largest();
                assert(t.split_largest().0 == BinaryTree::Node(w, a, Box::new(rest)));
                assert(t.split_largest().0.inorder() + t.split_largest().1.inorder() =~= t.inorder());
            }
        },
    }
}

/// `smallest` cuts out the first in-order value with its right subtree,
/// and the cut part followed by the rest lists the tree's in-order values.
pub proof fn law_smallest_cuts_first<T>(t: BinaryTree<T>)
    ensures
        t.split_smallest().1.inorder() + t.split_smallest().0.inorder() == t.inorder(),
        t is Node ==> t.split_smallest().1 is Node && t.split_smallest().1->0 == t.inorder()[0],
    decreases t,
{
    if t is Node {
        lemma_smallest_is_first(t);
    }
    match t {
        BinaryTree::Leaf => {
            assert(t.inorder() + t.inorder() =~= t.inorder());
        },
        BinaryTree::Node(w, a, b) => {
            if a.is_leaf() {
                assert(BinaryTree::<T>::Leaf.inorder() =~= Seq::<T>::empty());
                assert(t.split_smallest().1.inorder() + t.split_smallest().0.inorder() =~= t.inorder());
            } else {
                law_smallest_cuts_first(*a);
                let (rest, cut) = a.split_smallest();
                assert(t.split_smallest().0 == BinaryTree::Node(w, Box::new(rest), b));
                assert(t.split_smallest().1.inorder() + t.split_smallest().0.inorder() =~= t.inorder());
            }
        },
    }
}

} // verus!
