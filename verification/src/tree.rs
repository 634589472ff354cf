//! A recursive subdivision tree: each root splits into the subcells of its vector space.
use core::marker::PhantomData;
use vstd::prelude::*;
use std::collections::BTreeSet;
use vstd::arithmetic::power::pow;
use crate::vector_space::VectorSubdivision;

verus! {

broadcast use vstd::laws_cmp::group_laws_cmp, vstd::std_specs::btree::group_btree_axioms;

/// Recursive tree with N cells per root
#[derive(Debug)]
pub enum Tree<T, D> {
    Root(Vec<Box<Tree<T, D>>>, PhantomData<D>),
    Leaf(T),
}

/// The leaves of a sequence of subtrees, in order.
pub open spec fn forest_leaves<T, D>(cs: Seq<Box<Tree<T, D>>>, n: nat) -> Seq<T>
    decreases cs, n,
{
    if n == 0 || n > cs.len() {
        Seq::empty()
    } else {
        forest_leaves(cs, (n - 1) as nat) + tree_leaves(*cs[n - 1])
    }
}

/// The leaves of a tree, in order.
pub open spec fn tree_leaves<T, D>(t: Tree<T, D>) -> Seq<T>
    decreases t, 0nat,
{
    match t {
        Tree::Leaf(v) => seq![v],
        Tree::Root(cs, _) => forest_leaves(cs@, cs@.len()),
    }
}

} // verus!

verus! {

/// The depth of each leaf of a sequence of subtrees whose roots sit at depth `d`, in order.
pub open spec fn forest_depths<T, D>(cs: Seq<Box<Tree<T, D>>>, n: nat, d: nat) -> Seq<nat>
    decreases cs, n,
{
    if n == 0 || n > cs.len() {
        Seq::empty()
    } else {
        forest_depths(cs, (n - 1) as nat, d) + tree_depths(*cs[n - 1], d)
    }
}

/// The depth of each leaf of a tree whose root sits at depth `d`, in order.
pub open spec fn tree_depths<T, D>(t: Tree<T, D>, d: nat) -> Seq<nat>
    decreases t, 0nat,
{
    match t {
        Tree::Leaf(_) => seq![d],
        Tree::Root(cs, _) => forest_depths(cs@, cs@.len(), d + 1),
    }
}

/// The greatest number in `s`; 0 for an empty sequence.
pub open spec fn seq_max(s: Seq<nat>) -> nat
    decreases s.len(),
{
    if s.len() == 0 {
        0
    } else if seq_max(s.drop_last()) >= s.last() {
        seq_max(s.drop_last())
    } else {
        s.last()
    }
}

/// The number of levels below the root of a tree, counting subtrees that hold no leaf.
pub open spec fn forest_height<T, D>(cs: Seq<Box<Tree<T, D>>>, n: nat) -> nat
    decreases cs, n,
{
    if n == 0 || n > cs.len() {
        0
    } else {
        let h = tree_height(*cs[n - 1]);
        let r = forest_height(cs, (n - 1) as nat);
        if h >= r {
            h
        } else {
            r
        }
    }
}

/// The number of levels below the root of a tree, counting subtrees that hold no leaf.
pub open spec fn tree_height<T, D>(t: Tree<T, D>) -> nat
    decreases t, 0nat,
{
    match t {
        Tree::Leaf(_) => 0,
        Tree::Root(cs, _) => 1 + forest_height(cs@, cs@.len()),
    }
}

/// Two sequences of subtrees have the same branching.
pub open spec fn forest_same_shape<T, U, D>(
    a: Seq<Box<Tree<T, D>>>,
    b: Seq<Box<Tree<U, D>>>,
    n: nat,
) -> bool
    decreases a, n,
{
    if n == 0 || n > a.len() || n > b.len() {
        true
    } else {
        forest_same_shape(a, b, (n - 1) as nat) && same_shape(*a[n - 1], *b[n - 1])
    }
}

/// Two trees have the same branching: they differ in their leaves at most.
pub open spec fn same_shape<T, U, D>(a: Tree<T, D>, b: Tree<U, D>) -> bool
    decreases a, 0nat,
{
    match (a, b) {
        (Tree::Leaf(_), Tree::Leaf(_)) => true,
        (Tree::Root(ca, _), Tree::Root(cb, _)) => ca@.len() == cb@.len() && forest_same_shape(
            ca@,
            cb@,
            ca@.len(),
        ),
        _ => false,
    }
}

/// Leaves of the first `n` subtrees, extended by one subtree.
pub proof fn lemma_forest_step<T, D>(cs: Seq<Box<Tree<T, D>>>, n: nat, d: nat)
    requires
        n < cs.len(),
    ensures
        forest_leaves(cs, n + 1) == forest_leaves(cs, n) + tree_leaves(*cs[n as int]),
        forest_depths(cs, n + 1, d) == forest_depths(cs, n, d) + tree_depths(*cs[n as int], d),
        forest_height(cs, n + 1) == if tree_height(*cs[n as int]) >= forest_height(cs, n) {
            tree_height(*cs[n as int])
        } else {
            forest_height(cs, n)
        },
{
}

/// A subtree is no higher than its forest.
proof fn lemma_forest_height_bound<T, D>(cs: Seq<Box<Tree<T, D>>>, n: nat, i: int)
    requires
        0 <= i < n <= cs.len(),
    ensures
        tree_height(*cs[i]) <= forest_height(cs, n),
    decreases n,
{
    if i < n - 1 {
        lemma_forest_height_bound(cs, (n - 1) as nat, i);
    }
}

impl<T, D> Tree<T, D> {
    /// Replaces each leaf by its depth, counted from `d` at this root.
    fn map_depth_impl(&self, d: usize) -> (r: Tree<usize, D>)
        requires
            d + tree_height(*self) <= usize::MAX,
        ensures
            same_shape(*self, r),
            tree_leaves(r).len() == tree_depths(*self, d as nat).len(),
            forall|i: int|
                0 <= i < tree_leaves(r).len() ==> tree_leaves(r)[i] == tree_depths(*self, d as nat)[i],
        decreases *self,
    {
        match self {
            Tree::Leaf(_) => Tree::Leaf(d),
            Tree::Root(t, _) => {
                let mut out: Vec<Box<Tree<usize, D>>> = Vec::new();
                let mut i: usize = 0;
                while i < t.len()
                    invariant
                        i <= t@.len(),
                        *self == Tree::Root(*t, PhantomData::<D>),
                        d + 1 + forest_height(t@, t@.len()) <= usize::MAX,
                        out@.len() == i,
                        forest_same_shape(t@, out@, i as nat),
                        forest_leaves(out@, i as nat).len() == forest_depths(
                            t@,
                            i as nat,
                            (d + 1) as nat,
                        ).len(),
                        forall|j: int|
                            0 <= j < forest_leaves(out@, i as nat).len() ==> forest_leaves(
                                out@,
                                i as nat,
                            )[j] == forest_depths(t@, i as nat, (d + 1) as nat)[j],
                    decreases t@.len() - i,
                {
                    proof {
                        lemma_forest_height_bound(t@, t@.len(), i as int);
                        assert((*self) is Root);
                        assert((*self)->Root_0 == *t);
                        assert(decreases_to!(*self => (*self)->Root_0));
                        assert(decreases_to!(*t => t@));
                        assert(decreases_to!(t@ => t@[i as int]));
                        assert(decreases_to!(*self => *t@[i as int]));
                    }
                    let sub = t[i].map_depth_impl(d + 1);
                    let ghost old_out = out@;
                    out.push(Box::new(sub));
                    proof {
                        lemma_forest_step(t@, i as nat, (d + 1) as nat);
                        lemma_forest_step(out@, i as nat, 0);
                        assert(out@.subrange(0, i as int) =~= old_out);
                        lemma_forest_prefix(old_out, out@, i as nat);
                        lemma_forest_shape_prefix(t@, old_out, out@, i as nat);
                    }
                    i += 1;
                }
                Tree::Root(out, PhantomData)
            },
        }
    }
}

/// Extending a sequence of subtrees leaves the leaves of its prefix alone.
proof fn lemma_forest_prefix<T, D>(a: Seq<Box<Tree<T, D>>>, b: Seq<Box<Tree<T, D>>>, n: nat)
    requires
        n <= a.len(),
        n <= b.len(),
        forall|j: int| 0 <= j < n ==> a[j] == b[j],
    ensures
        forest_leaves(a, n) == forest_leaves(b, n),
    decreases n,
{
    if n > 0 {
        lemma_forest_prefix(a, b, (n - 1) as nat);
    }
}

/// Extending a sequence of subtrees leaves the shape of its prefix alone.
proof fn lemma_forest_shape_prefix<T, U, D>(
    t: Seq<Box<Tree<T, D>>>,
    a: Seq<Box<Tree<U, D>>>,
    b: Seq<Box<Tree<U, D>>>,
    n: nat,
)
    requires
        n <= a.len(),
        n <= b.len(),
        forall|j: int| 0 <= j < n ==> a[j] == b[j],
    ensures
        forest_same_shape(t, a, n) == forest_same_shape(t, b, n),
    decreases n,
{
    if n > 0 {
        lemma_forest_shape_prefix(t, a, b, (n - 1) as nat);
    }
}


impl<T, D> Tree<T, D> {
    /// The tree with the same branching and, at each leaf, the leaf's depth.
    pub fn map_depth(&self) -> (r: Tree<usize, D>)
        requires
            tree_height(*self) <= usize::MAX,
        ensures
            same_shape(*self, r),
            tree_leaves(r).len() == tree_depths(*self, 0).len(),
            forall|i: int| 0 <= i < tree_leaves(r).len() ==> tree_leaves(r)[i] == tree_depths(*self, 0)[i],
    {
        self.map_depth_impl(0)
    }

    /// Appends the leaves, left to right.
    fn push_leaves<'a>(&'a self, out: &mut Vec<&'a T>)
        ensures
            final(out)@.len() == old(out)@.len() + tree_leaves(*self).len(),
            forall|i: int| 0 <= i < old(out)@.len() ==> final(out)@[i] == old(out)@[i],
            forall|i: int|
                0 <= i < tree_leaves(*self).len() ==> *final(out)@[old(out)@.len() + i] == tree_leaves(
                    *self,
                )[i],
        decreases *self,
    {
        match self {
            Tree::Leaf(v) => {
                out.push(v);
            },
            Tree::Root(t, _) => {
                let ghost start = out@.len();
                let ghost before = out@;
                let mut i: usize = 0;
                while i < t.len()
                    invariant
                        i <= t@.len(),
                        *self == Tree::Root(*t, PhantomData::<D>),
                        out@.len() == start + forest_leaves(t@, i as nat).len(),
                        forall|j: int| 0 <= j < start ==> out@[j] == before[j],
                        before.len() == start,
                        forall|j: int|
                            #![trigger forest_leaves(t@, i as nat)[j]]
                            0 <= j < forest_leaves(t@, i as nat).len() ==> *out@[start + j]
                                == forest_leaves(t@, i as nat)[j],
                    decreases t@.len() - i,
                {
                    proof {
                        assert((*self)->Root_0 == *t);
                        assert(decreases_to!(*self => (*self)->Root_0));
                        assert(decreases_to!(t@ => t@[i as int]));
                        lemma_forest_step(t@, i as nat, 0);
                    }
                    let ghost mid = out@;
                    t[i].push_leaves(out);
                    proof {
                        let prev = forest_leaves(t@, i as nat);
                        let sub = tree_leaves(*t@[i as int]);
                        assert forall|j: int|
                            #![trigger forest_leaves(t@, (i + 1) as nat)[j]]
                            0 <= j < forest_leaves(t@, (i + 1) as nat).len() implies *out@[start + j]
                            == forest_leaves(t@, (i + 1) as nat)[j] by {
                            if j < prev.len() {
                                assert(out@[start + j] == mid[start + j]);
                            } else {
                                assert(out@[mid.len() + (j - prev.len())] == out@[start + j]);
                            }
                        }
                    }
                    i += 1;
                }
            },
        }
    }

    /// The leaves of the tree, in order.
    pub fn iter(&self) -> (r: Vec<&T>)
        ensures
            r@.len() == tree_leaves(*self).len(),
            forall|i: int| 0 <= i < r@.len() ==> *r@[i] == tree_leaves(*self)[i],
    {
        let mut out: Vec<&T> = Vec::new();
        self.push_leaves(&mut out);
        out
    }

    /// The greatest depth of a leaf; 0 for a tree with no leaf.
    pub fn depth(&self) -> (r: usize)
        requires
            tree_height(*self) <= usize::MAX,
        ensures
            r == seq_max(tree_depths(*self, 0)),
    {
        let m = self.map_depth();
        let leaves = m.iter();
        let ghost ds = tree_depths(*self, 0);
        let mut acc: usize = 0;
        let mut i: usize = 0;
        while i < leaves.len()
            invariant
                i <= leaves@.len(),
                leaves@.len() == ds.len(),
                forall|j: int| 0 <= j < leaves@.len() ==> *leaves@[j] == ds[j],
                acc == seq_max(ds.subrange(0, i as int)),
            decreases leaves@.len() - i,
        {
            let d = *leaves[i];
            proof {
                assert(ds.subrange(0, i + 1).drop_last() =~= ds.subrange(0, i as int));
            }
            if d > acc {
                acc = d;
            }
            i += 1;
        }
        proof {
            assert(ds.subrange(0, ds.len() as int) =~= ds);
        }
        acc
    }

    /// The set of depths at which the tree has leaves.
    pub fn depths(&self) -> (r: BTreeSet<usize>)
        requires
            tree_height(*self) <= usize::MAX,
        ensures
            forall|k: usize| r@.contains(k) <==> tree_depths(*self, 0).contains(k as nat),
            forall|k: usize| r@.contains(k) <==> #[trigger] leaf_depth_set(*self).contains(k as nat),
            r@.finite(),
    {
        let m = self.map_depth();
        let leaves = m.iter();
        let ghost ds = tree_depths(*self, 0);
        let mut set: BTreeSet<usize> = BTreeSet::new();
        let mut i: usize = 0;
        while i < leaves.len()
            invariant
                i <= leaves@.len(),
                leaves@.len() == ds.len(),
                forall|j: int| 0 <= j < leaves@.len() ==> *leaves@[j] == ds[j],
                forall|k: usize| set@.contains(k) <==> ds.subrange(0, i as int).contains(k as nat),
                set@.finite(),
            decreases leaves@.len() - i,
        {
            let d = *leaves[i];
            set.insert(d);
            proof {
                let prev = ds.subrange(0, i as int);
                let next = ds.subrange(0, i + 1);
                assert forall|k: usize| set@.contains(k) <==> next.contains(k as nat) by {
                    if next.contains(k as nat) {
                        let j = choose|j: int| 0 <= j < next.len() && next[j] == k as nat;
                        if j < i {
                            assert(prev[j] == k as nat);
                        }
                    }
                    if prev.contains(k as nat) {
                        let j = choose|j: int| 0 <= j < prev.len() && prev[j] == k as nat;
                        assert(next[j] == k as nat);
                    }
                    if k == d {
                        assert(next[i as int] == k as nat);
                    }
                }
            }
            i += 1;
        }
        proof {
            assert(ds.subrange(0, ds.len() as int) =~= ds);
        }
        set
    }

    /// Whether every leaf of the tree lies at the same depth.
    pub fn is_grid(&self) -> (r: bool)
        requires
            tree_height(*self) <= usize::MAX,
        ensures
            r == one_depth(*self),
            r == (leaf_depth_set(*self).len() == 1),
    {
        let set = self.depths();
        let ghost ds = tree_depths(*self, 0);
        let r = set.len() == 1;
        proof {
            lemma_leaf_depths(*self);
            lemma_depths_bounded(*self);
            Set::lemma_is_singleton(set@);
            if r {
                if forall|a: usize| !set@.contains(a) {
                    assert(set@ =~= Set::<usize>::empty());
                }
                let k = choose|a: usize| set@.contains(a);
                assert(ds.contains(k as nat));
                assert forall|i: int, j: int| 0 <= i < ds.len() && 0 <= j < ds.len() implies ds[i]
                    == ds[j] by {
                    assert(ds.contains(ds[i]));
                    assert(ds.contains(ds[j]));
                    assert(ds.contains((ds[i] as usize) as nat));
                    assert(ds.contains((ds[j] as usize) as nat));
                    assert(set@.contains(ds[i] as usize));
                    assert(set@.contains(ds[j] as usize));
                }
            }
            if ds.len() > 0 && forall|i: int, j: int|
                0 <= i < ds.len() && 0 <= j < ds.len() ==> ds[i] == ds[j] {
                let k = ds[0] as usize;
                assert(ds.contains(k as nat));
                assert forall|a: usize| set@.contains(a) <==> a == k by {
                    if set@.contains(a) {
                        let j = choose|j: int| 0 <= j < ds.len() && ds[j] == a as nat;
                    }
                }
                assert(set@ =~= Set::<usize>::empty().insert(k));
                assert(set@.len() == 1);
            }
        }
        r
    }

    /// The number of cells of a grid as fine as the deepest leaf of the tree.
    pub fn resolution(&self) -> (r: usize)
        where D: VectorSubdivision,
        requires
            tree_height(*self) <= usize::MAX,
            pow(D::SUBDIVISION as int, seq_max(tree_depths(*self, 0))) <= usize::MAX,
        ensures
            r == pow(D::SUBDIVISION as int, seq_max(tree_depths(*self, 0))),
    {
        let depth = self.depth();
        let mut r: usize = 1;
        let mut i: usize = 0;
        proof {
            vstd::arithmetic::power::lemma_pow0(D::SUBDIVISION as int);
        }
        while i < depth
            invariant
                i <= depth,
                r == pow(D::SUBDIVISION as int, i as nat),
                pow(D::SUBDIVISION as int, depth as nat) <= usize::MAX,
            decreases depth - i,
        {
            proof {
                D::lemma_subdivision();
                vstd::arithmetic::power2::lemma_pow2_pos(D::DIMENSION as nat);
                vstd::arithmetic::power::lemma_pow_adds(D::SUBDIVISION as int, i as nat, 1);
                vstd::arithmetic::power::lemma_pow1(D::SUBDIVISION as int);
                vstd::arithmetic::power::lemma_pow_increases(
                    D::SUBDIVISION as nat,
                    (i + 1) as nat,
                    depth as nat,
                );
            }
            r = r * D::SUBDIVISION;
            i += 1;
        }
        r
    }
}

/// Every leaf depth of a tree is at most its height, so it fits where the height fits.
proof fn lemma_depths_bounded<T, D>(t: Tree<T, D>)
    ensures
        forall|i: int|
            0 <= i < tree_depths(t, 0).len() ==> tree_depths(t, 0)[i] <= tree_height(t),
{
    lemma_tree_depths_bounded(t, 0);
}

/// No leaf lies deeper than the height below the root.
proof fn lemma_tree_depths_bounded<T, D>(t: Tree<T, D>, d: nat)
    ensures
        forall|i: int| 0 <= i < tree_depths(t, d).len() ==> tree_depths(t, d)[i] <= d + tree_height(t),
    decreases t, 0nat,
{
    match t {
        Tree::Leaf(_) => {},
        Tree::Root(cs, _) => {
            lemma_forest_depths_bounded(cs@, cs@.len(), d + 1);
            assert(tree_depths(t, d) == forest_depths(cs@, cs@.len(), d + 1));
            assert(tree_height(t) == 1 + forest_height(cs@, cs@.len()));
        },
    }
}

proof fn lemma_forest_depths_bounded<T, D>(cs: Seq<Box<Tree<T, D>>>, n: nat, d: nat)
    ensures
        forall|i: int|
            0 <= i < forest_depths(cs, n, d).len() ==> forest_depths(cs, n, d)[i] <= d + forest_height(
                cs,
                n,
            ),
    decreases cs, n,
{
    if n == 0 || n > cs.len() {
    } else {
        lemma_forest_depths_bounded(cs, (n - 1) as nat, d);
        lemma_tree_depths_bounded(*cs[n - 1], d);
        let prev = forest_depths(cs, (n - 1) as nat, d);
        let sub = tree_depths(*cs[n - 1], d);
        assert forall|i: int|
            0 <= i < forest_depths(cs, n, d).len() implies forest_depths(cs, n, d)[i] <= d
            + forest_height(cs, n) by {
            if i < prev.len() {
                assert(forest_depths(cs, n, d)[i] == prev[i]);
            } else {
                assert(forest_depths(cs, n, d)[i] == sub[i - prev.len()]);
            }
        }
    }
}


impl<T, D> Tree<T, D> {
    /// Maps each leaf with `f`, keeping the shape.
    #[verifier::loop_isolation(false)]
    fn map_impl<U, F: Fn(T) -> U>(self, f: &F) -> (r: Tree<U, D>)
        requires
            forall|t: T| #[trigger] f.requires((t,)),
        ensures
            same_shape(self, r),
            tree_leaves(r).len() == tree_leaves(self).len(),
            forall|i: int|
                0 <= i < tree_leaves(self).len() ==> f.ensures(
                    (tree_leaves(self)[i],),
                    #[trigger] tree_leaves(r)[i],
                ),
        decreases tree_height(self),
    {
        let ghost whole = self;
        match self {
            Tree::Leaf(t) => Tree::Leaf(f(t)),
            Tree::Root(cs, _) => {
                let ghost orig = cs@;
                let mut rest = cs;
                let mut out: Vec<Box<Tree<U, D>>> = Vec::new();
                let mut i: usize = 0;
                let n = rest.len();
                proof {
                    assert(orig.subrange(0, n as int) =~= orig);
                }
                while i < n
                    invariant
                        i <= n,
                        n == orig.len(),
                        whole is Root,
                        whole->Root_0@ == orig,
                        tree_height(whole) == 1 + forest_height(orig, orig.len()),
                        rest@ =~= orig.subrange(i as int, n as int),
                        forall|t: T| #[trigger] f.requires((t,)),
                        out@.len() == i,
                        forest_same_shape(orig, out@, i as nat),
                        forest_leaves(out@, i as nat).len() == forest_leaves(orig, i as nat).len(),
                        forall|j: int|
                            0 <= j < forest_leaves(orig, i as nat).len() ==> f.ensures(
                                (forest_leaves(orig, i as nat)[j],),
                                #[trigger] forest_leaves(out@, i as nat)[j],
                            ),
                    decreases n - i,
                {
                    let c = rest.remove(0);
                    proof {
                        assert(*c == *orig[i as int]);
                        lemma_forest_height_bound(orig, orig.len(), i as int);
                    }
                    let child: Tree<T, D> = *c;
                    let sub = child.map_impl(f);
                    let ghost old_out = out@;
                    out.push(Box::new(sub));
                    proof {
                        lemma_forest_step(orig, i as nat, 0);
                        lemma_forest_step(out@, i as nat, 0);
                        assert(out@.subrange(0, i as int) =~= old_out);
                        lemma_forest_prefix(old_out, out@, i as nat);
                        lemma_forest_shape_prefix(orig, old_out, out@, i as nat);
                        let prev = forest_leaves(orig, i as nat);
                        let now = forest_leaves(orig, (i + 1) as nat);
                        let outs = forest_leaves(out@, (i + 1) as nat);
                        assert forall|j: int| 0 <= j < now.len() implies f.ensures(
                            (now[j],),
                            #[trigger] outs[j],
                        ) by {
                            if j < prev.len() {
                                assert(now[j] == prev[j]);
                                assert(outs[j] == forest_leaves(old_out, i as nat)[j]);
                            } else {
                                assert(now[j] == tree_leaves(*orig[i as int])[j - prev.len()]);
                                assert(outs[j] == tree_leaves(sub)[j - prev.len()]);
                            }
                        }
                    }
                    i += 1;
                }
                Tree::Root(out, PhantomData)
            },
        }
    }

    /// Structure-preserving map: the tree with the same branching and `f` applied to each leaf.
    pub fn map<U, F: Fn(T) -> U>(self, f: F) -> (r: Tree<U, D>)
        requires
            forall|t: T| #[trigger] f.requires((t,)),
        ensures
            same_shape(self, r),
            tree_leaves(r).len() == tree_leaves(self).len(),
            forall|i: int|
                0 <= i < tree_leaves(self).len() ==> f.ensures(
                    (tree_leaves(self)[i],),
                    #[trigger] tree_leaves(r)[i],
                ),
    {
        self.map_impl(&f)
    }
}

} // verus!

verus! {

/// Every root of the first `n` subtrees has exactly `k` subtrees.
pub open spec fn forest_branches<T, D>(cs: Seq<Box<Tree<T, D>>>, n: nat, k: nat) -> bool
    decreases cs, n,
{
    if n == 0 || n > cs.len() {
        true
    } else {
        forest_branches(cs, (n - 1) as nat, k) && branches(*cs[n - 1], k)
    }
}

/// Every root of the tree has exactly `k` subtrees.
pub open spec fn branches<T, D>(t: Tree<T, D>, k: nat) -> bool
    decreases t, 0nat,
{
    match t {
        Tree::Leaf(_) => true,
        Tree::Root(cs, _) => cs@.len() == k && forest_branches(cs@, cs@.len(), k),
    }
}

/// The subtrees of a run whose roots all have `k` subtrees do too.
pub proof fn lemma_forest_branches<T, D>(cs: Seq<Box<Tree<T, D>>>, n: nat, k: nat)
    requires
        n <= cs.len(),
    ensures
        forest_branches(cs, n, k) <==> forall|i: int| 0 <= i < n ==> #[trigger] branches(*cs[i], k),
    decreases n,
{
    if n > 0 {
        lemma_forest_branches(cs, (n - 1) as nat, k);
        assert(forest_branches(cs, n, k) == (forest_branches(cs, (n - 1) as nat, k) && branches(
            *cs[n - 1],
            k,
        )));
        if forall|i: int| 0 <= i < n ==> #[trigger] branches(*cs[i], k) {
            assert(branches(*cs[n - 1], k));
            assert(forall|i: int| 0 <= i < n - 1 ==> #[trigger] branches(*cs[i], k));
        }
    }
}

/// Every subtree of a tree whose roots have `k` subtrees has them too.
pub proof fn lemma_branches_children<T, D>(t: Tree<T, D>, k: nat)
    requires
        branches(t, k),
    ensures
        t matches Tree::Root(cs, _) ==> cs@.len() == k && forall|i: int|
            0 <= i < k ==> #[trigger] branches(*cs@[i], k),
{
    if let Tree::Root(cs, _) = t {
        lemma_forest_branches(cs@, k, k);
    }
}

/// The root of `n` subtrees, each of which has roots with `k` subtrees, has them too.
pub proof fn lemma_branches_root<T, D>(cs: Vec<Box<Tree<T, D>>>, k: nat)
    requires
        cs@.len() == k,
        forall|i: int| 0 <= i < k ==> #[trigger] branches(*cs@[i], k),
    ensures
        branches(Tree::<T, D>::Root(cs, core::marker::PhantomData), k),
{
    lemma_forest_branches(cs@, k, k);
}

/// Every leaf of the first `n` subtrees lies at depth `d`.
pub open spec fn forest_full_grid<T, D>(cs: Seq<Box<Tree<T, D>>>, n: nat, k: nat, d: nat) -> bool
    decreases cs, n,
{
    if n == 0 || n > cs.len() {
        true
    } else {
        forest_full_grid(cs, (n - 1) as nat, k, d) && full_grid(*cs[n - 1], k, d)
    }
}

/// A complete grid: every root has `k` subtrees and every leaf lies at depth `n`.
pub open spec fn full_grid<T, D>(t: Tree<T, D>, k: nat, n: nat) -> bool
    decreases t, 0nat,
{
    match t {
        Tree::Leaf(_) => n == 0,
        Tree::Root(cs, _) => n > 0 && cs@.len() == k && forest_full_grid(
            cs@,
            cs@.len(),
            k,
            (n - 1) as nat,
        ),
    }
}

/// The subtrees of a complete grid of depth `n` are complete grids of depth `n - 1`.
pub proof fn lemma_full_grid_children<T, D>(t: Tree<T, D>, k: nat, n: nat)
    requires
        full_grid(t, k, n),
    ensures
        t matches Tree::Root(cs, _) ==> n > 0 && cs@.len() == k && forall|i: int|
            0 <= i < k ==> #[trigger] full_grid(*cs@[i], k, (n - 1) as nat),
        t is Leaf <==> n == 0,
{
    if let Tree::Root(cs, _) = t {
        lemma_forest_full_grid(cs@, k, k, (n - 1) as nat);
    }
}

/// A run of subtrees is a full grid exactly when each of them is.
pub proof fn lemma_forest_full_grid<T, D>(cs: Seq<Box<Tree<T, D>>>, n: nat, k: nat, d: nat)
    requires
        n <= cs.len(),
    ensures
        forest_full_grid(cs, n, k, d) <==> forall|i: int|
            0 <= i < n ==> #[trigger] full_grid(*cs[i], k, d),
    decreases n,
{
    if n > 0 {
        lemma_forest_full_grid(cs, (n - 1) as nat, k, d);
        assert(forest_full_grid(cs, n, k, d) == (forest_full_grid(cs, (n - 1) as nat, k, d)
            && full_grid(*cs[n - 1], k, d)));
        if forall|i: int| 0 <= i < n ==> #[trigger] full_grid(*cs[i], k, d) {
            assert(full_grid(*cs[n - 1], k, d));
            assert(forall|i: int| 0 <= i < n - 1 ==> #[trigger] full_grid(*cs[i], k, d));
        }
    }
}

} // verus!

verus! {

/// The leaves of a nonempty run of subtrees that each hold a leaf: there is one, and the
/// first and last come from the first and last subtree.
pub proof fn lemma_forest_ends<T, D>(cs: Seq<Box<Tree<T, D>>>, n: nat)
    requires
        1 <= n <= cs.len(),
        forall|i: int| 0 <= i < n ==> #[trigger] tree_leaves(*cs[i]).len() > 0,
    ensures
        forest_leaves(cs, n).len() > 0,
        forest_leaves(cs, n)[0] == tree_leaves(*cs[0])[0],
        forest_leaves(cs, n).last() == tree_leaves(*cs[n - 1]).last(),
    decreases n,
{
    assert(tree_leaves(*cs[n - 1]).len() > 0);
    let whole = forest_leaves(cs, n);
    let prev = forest_leaves(cs, (n - 1) as nat);
    let last = tree_leaves(*cs[n - 1]);
    assert(whole == prev + last);
    if n > 1 {
        lemma_forest_ends(cs, (n - 1) as nat);
        assert(whole[0] == prev[0]);
    } else {
        assert(prev.len() == 0);
        assert(whole[0] == last[0]);
    }
    assert(whole.last() == last.last());
}

/// A tree whose roots all have `k > 0` subtrees holds a leaf; its first and last leaves
/// are those of its first and last subtree.
pub proof fn lemma_branches_leaves<T, D>(t: Tree<T, D>, k: nat)
    requires
        k > 0,
        branches(t, k),
    ensures
        tree_leaves(t).len() > 0,
        t matches Tree::Root(cs, _) ==> tree_leaves(t)[0] == tree_leaves(*cs@[0])[0]
            && tree_leaves(t).last() == tree_leaves(*cs@[k - 1]).last(),
    decreases t,
{
    match t {
        Tree::Leaf(_) => {},
        Tree::Root(cs, _) => {
            lemma_branches_children(t, k);
            assert forall|i: int| 0 <= i < k implies #[trigger] tree_leaves(*cs@[i]).len() > 0 by {
                assert(branches(*cs@[i], k));
                lemma_branches_leaves(*cs@[i], k);
            }
            lemma_forest_ends(cs@, k);
        },
    }
}

/// A property holds of every leaf of a run of subtrees exactly when it holds of every leaf
/// of each subtree.
pub proof fn lemma_forest_all<T, D>(cs: Seq<Box<Tree<T, D>>>, n: nat, p: spec_fn(T) -> bool)
    requires
        n <= cs.len(),
    ensures
        (forall|i: int| 0 <= i < forest_leaves(cs, n).len() ==> p(#[trigger] forest_leaves(cs, n)[i]))
            <==> (forall|j: int, i: int|
            0 <= j < n && 0 <= i < tree_leaves(*cs[j]).len() ==> p(
                #[trigger] tree_leaves(*cs[j])[i],
            )),
    decreases n,
{
    if n > 0 {
        lemma_forest_all(cs, (n - 1) as nat, p);
        let prev = forest_leaves(cs, (n - 1) as nat);
        let last = tree_leaves(*cs[n - 1]);
        let all = forest_leaves(cs, n);
        assert(all == prev + last);
        if forall|i: int| 0 <= i < all.len() ==> p(#[trigger] all[i]) {
            assert forall|j: int, i: int|
                0 <= j < n && 0 <= i < tree_leaves(*cs[j]).len() implies p(
                #[trigger] tree_leaves(*cs[j])[i],
            ) by {
                if j < n - 1 {
                    assert(p(all[i + 0]) || true);
                    assert forall|i2: int| 0 <= i2 < prev.len() implies p(#[trigger] prev[i2]) by {
                        assert(all[i2] == prev[i2]);
                    }
                } else {
                    assert(all[prev.len() + i] == last[i]);
                }
            }
        }
        if forall|j: int, i: int|
            0 <= j < n && 0 <= i < tree_leaves(*cs[j]).len() ==> p(
                #[trigger] tree_leaves(*cs[j])[i],
            ) {
            assert forall|i: int| 0 <= i < all.len() implies p(#[trigger] all[i]) by {
                if i < prev.len() {
                    assert(all[i] == prev[i]);
                } else {
                    assert(all[i] == last[i - prev.len()]);
                    assert(p(tree_leaves(*cs[n - 1])[i - prev.len()]));
                }
            }
        }
    }
}

} // verus!

verus! {

/// Every leaf of a subtree is a leaf of its root.
pub proof fn lemma_leaves_of_child<T, D>(t: Tree<T, D>, i: int)
    requires
        t is Root,
        0 <= i < t->Root_0@.len(),
    ensures
        forall|x: T| tree_leaves(*t->Root_0@[i]).contains(x) ==> #[trigger] tree_leaves(t).contains(x),
{
    let cs = t->Root_0@;
    lemma_forest_contains(cs, cs.len(), i);
    assert(tree_leaves(t) == forest_leaves(cs, cs.len()));
}

/// The leaves of each subtree of a run are among the run's leaves.
proof fn lemma_forest_contains<T, D>(cs: Seq<Box<Tree<T, D>>>, n: nat, i: int)
    requires
        0 <= i < n <= cs.len(),
    ensures
        forall|x: T| tree_leaves(*cs[i]).contains(x) ==> #[trigger] forest_leaves(cs, n).contains(x),
    decreases n,
{
    let all = forest_leaves(cs, n);
    let prev = forest_leaves(cs, (n - 1) as nat);
    let last = tree_leaves(*cs[n - 1]);
    assert(all == prev + last);
    if i < n - 1 {
        lemma_forest_contains(cs, (n - 1) as nat, i);
        assert forall|x: T| tree_leaves(*cs[i]).contains(x) implies #[trigger] all.contains(x) by {
            assert(prev.contains(x));
            let j = choose|j: int| 0 <= j < prev.len() && prev[j] == x;
            assert(all[j] == x);
        }
    } else {
        assert forall|x: T| tree_leaves(*cs[i]).contains(x) implies #[trigger] all.contains(x) by {
            let j = choose|j: int| 0 <= j < last.len() && last[j] == x;
            assert(all[prev.len() + j] == x);
        }
    }
}


/// The greatest number of a sequence whose numbers all equal `v` is `v`.
proof fn lemma_seq_max_const(s: Seq<nat>, v: nat)
    requires
        s.len() > 0,
        forall|i: int| 0 <= i < s.len() ==> s[i] == v,
    ensures
        seq_max(s) == v,
    decreases s.len(),
{
    if s.len() > 1 {
        assert forall|i: int| 0 <= i < s.drop_last().len() implies s.drop_last()[i] == v by {
            assert(s.drop_last()[i] == s[i]);
        }
        lemma_seq_max_const(s.drop_last(), v);
    } else {
        assert(s.drop_last().len() == 0);
        assert(seq_max(s.drop_last()) == 0);
    }
    assert(s.last() == v);
}

/// The leaves of a run of complete grids of depth `n`, whose roots sit at depth `d`, all lie
/// at depth `d + n`, and there is one where the run is not empty.
proof fn lemma_forest_full_grid_depths<T, D>(cs: Seq<Box<Tree<T, D>>>, m: nat, k: nat, n: nat, d: nat)
    requires
        k > 0,
        m <= cs.len(),
        forall|i: int| 0 <= i < m ==> #[trigger] full_grid(*cs[i], k, n),
    ensures
        m > 0 ==> forest_depths(cs, m, d).len() > 0,
        forall|i: int|
            0 <= i < forest_depths(cs, m, d).len() ==> forest_depths(cs, m, d)[i] == d + n,
    decreases cs, m,
{
    if m > 0 {
        lemma_forest_full_grid_depths(cs, (m - 1) as nat, k, n, d);
        assert(full_grid(*cs[m - 1], k, n));
        lemma_full_grid_depths(*cs[m - 1], k, n, d);
        let prev = forest_depths(cs, (m - 1) as nat, d);
        let sub = tree_depths(*cs[m - 1], d);
        assert(forest_depths(cs, m, d) == prev + sub);
        assert forall|i: int| 0 <= i < (prev + sub).len() implies (prev + sub)[i] == d + n by {
            if i >= prev.len() {
                assert((prev + sub)[i] == sub[i - prev.len()]);
            }
        }
    }
}

/// Every leaf of a complete grid of depth `n` whose root sits at depth `d` lies at depth
/// `d + n`, and it has a leaf.
pub proof fn lemma_full_grid_depths<T, D>(t: Tree<T, D>, k: nat, n: nat, d: nat)
    requires
        k > 0,
        full_grid(t, k, n),
    ensures
        tree_depths(t, d).len() > 0,
        forall|i: int| 0 <= i < tree_depths(t, d).len() ==> tree_depths(t, d)[i] == d + n,
    decreases t, 0nat,
{
    lemma_full_grid_children(t, k, n);
    if let Tree::Root(cs, _) = t {
        lemma_forest_full_grid_depths(cs@, cs@.len(), k, (n - 1) as nat, d + 1);
    }
}

/// A complete grid of depth `n` is a grid: all its leaves lie at depth `n`, so the set of its
/// leaf depths is `{n}` and its greatest leaf depth is `n`.
pub proof fn lemma_full_grid_is_grid<T, D>(t: Tree<T, D>, k: nat, n: nat)
    requires
        k > 0,
        full_grid(t, k, n),
    ensures
        tree_depths(t, 0).len() > 0,
        forall|i: int| 0 <= i < tree_depths(t, 0).len() ==> tree_depths(t, 0)[i] == n,
        forall|x: nat| tree_depths(t, 0).contains(x) <==> x == n,
        seq_max(tree_depths(t, 0)) == n,
        leaf_depth_set(t) == set![n],
        one_depth(t),
{
    lemma_full_grid_depths(t, k, n, 0);
    let ds = tree_depths(t, 0);
    assert(ds.contains(ds[0]));
    lemma_seq_max_const(ds, n);
    assert(leaf_depth_set(t) =~= set![n]);
}

/// The depths at which the tree has leaves.
pub open spec fn leaf_depth_set<T, D>(t: Tree<T, D>) -> Set<nat> {
    tree_depths(t, 0).to_set()
}

/// The tree has a leaf, and all its leaves lie at one depth.
pub open spec fn one_depth<T, D>(t: Tree<T, D>) -> bool {
    tree_depths(t, 0).len() > 0 && forall|i: int, j: int|
        0 <= i < tree_depths(t, 0).len() && 0 <= j < tree_depths(t, 0).len() ==> tree_depths(t, 0)[i]
            == tree_depths(t, 0)[j]
}

/// Every number of a sequence is at most its greatest, which is one of them when there is one.
proof fn lemma_seq_max(s: Seq<nat>)
    ensures
        forall|i: int| 0 <= i < s.len() ==> s[i] <= seq_max(s),
        s.len() > 0 ==> s.contains(seq_max(s)),
    decreases s.len(),
{
    if s.len() > 0 {
        let p = s.drop_last();
        lemma_seq_max(p);
        assert forall|i: int| 0 <= i < s.len() implies s[i] <= seq_max(s) by {
            if i < p.len() {
                assert(s[i] == p[i]);
            }
        }
        if p.len() > 0 && seq_max(p) >= s.last() {
            let i = choose|i: int| 0 <= i < p.len() && p[i] == seq_max(p);
            assert(s[i] == p[i]);
        } else if p.len() == 0 {
            assert(seq_max(p) == 0);
            assert(s[s.len() - 1] == seq_max(s) || seq_max(s) == 0);
            if seq_max(s) != s.last() {
                assert(s.last() == 0);
            }
            assert(s[s.len() - 1] == s.last());
        } else {
            assert(s[s.len() - 1] == s.last());
        }
    }
}

/// The leaf depths of a tree: a single leaf has only depth 0; the tree has all its leaves at
/// one depth exactly when it has one leaf depth; and its greatest leaf depth is the greatest
/// of its leaf depths.
pub proof fn lemma_leaf_depths<T, D>(t: Tree<T, D>)
    ensures
        leaf_depth_set(t).finite(),
        t is Leaf ==> leaf_depth_set(t) == set![0nat],
        one_depth(t) <==> leaf_depth_set(t).len() == 1,
        forall|x: nat| #[trigger] leaf_depth_set(t).contains(x) ==> x <= seq_max(tree_depths(t, 0)),
        tree_depths(t, 0).len() > 0 ==> leaf_depth_set(t).contains(seq_max(tree_depths(t, 0))),
{
    let ds = tree_depths(t, 0);
    let set = leaf_depth_set(t);
    vstd::seq_lib::seq_to_set_is_finite(ds);
    Set::lemma_is_singleton(set);
    lemma_seq_max(ds);
    if t is Leaf {
        assert(ds =~= seq![0nat]);
        assert forall|x: nat| set.contains(x) <==> x == 0 by {
            if x == 0 {
                assert(ds[0] == 0);
            }
        }
        assert(set =~= set![0nat]);
    }
    if one_depth(t) {
        assert(ds.contains(ds[0]));
        assert forall|x: nat, y: nat| set.contains(x) && set.contains(y) implies x == y by {
            let i = choose|i: int| 0 <= i < ds.len() && ds[i] == x;
            let j = choose|j: int| 0 <= j < ds.len() && ds[j] == y;
        }
        assert(set.contains(ds[0]));
    }
    if set.len() == 1 {
        assert(set.is_singleton());
        if forall|x: nat| !set.contains(x) {
            assert(set =~= Set::<nat>::empty());
        }
        let x = choose|x: nat| set.contains(x);
        assert(ds.contains(x));
        assert forall|i: int, j: int| 0 <= i < ds.len() && 0 <= j < ds.len() implies ds[i] == ds[j] by {
            assert(ds.contains(ds[i]));
            assert(ds.contains(ds[j]));
            assert(set.contains(ds[i]));
            assert(set.contains(ds[j]));
        }
    }
    assert forall|x: nat| #[trigger] set.contains(x) implies x <= seq_max(ds) by {
        let i = choose|i: int| 0 <= i < ds.len() && ds[i] == x;
    }
}
} // verus!
