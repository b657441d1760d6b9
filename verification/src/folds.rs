//! Depth-first aggregation over the file leaves: folds with a
//! caller-supplied combining function, the existence predicate, and
//! numeric summation.
//!
//! A fold's contract is a chaining relation: the result is reachable
//! from the seed by applying the combiner once per leaf, in traversal
//! order.  When the combiner's own contract pins its result down, so
//! does the fold's.

use vstd::prelude::*;
use crate::node::{Node, leaves, leaves_of, leaf_values};
use crate::tree::FSTreeMap;

verus! {

broadcast use vstd::std_specs::vec::group_vec_axioms;

/// The value projection of a sequence of leaves.
pub open spec fn vals<V>(s: Seq<(String, V)>) -> Seq<V> {
    s.map_values(|l: (String, V)| l.1)
}

/// Chaining `f` over every element of `items`, in order, can carry the
/// accumulator from `init` to `fin`.
pub open spec fn value_fold_rel<T, V, F: Fn(T, V) -> T>(
    f: F,
    items: Seq<V>,
    init: T,
    fin: T,
) -> bool
    decreases items.len(),
{
    if items.len() == 0 {
        fin == init
    } else {
        exists|mid: T|
            #[trigger] call_ensures(f, (init, items[0]), mid) && value_fold_rel(
                f,
                items.subrange(1, items.len() as int),
                mid,
                fin,
            )
    }
}

/// As `value_fold_rel`, for combiners that also see each leaf's name.
pub open spec fn fold_rel<T, V, F: Fn(T, &String, V) -> T>(
    f: F,
    items: Seq<(String, V)>,
    init: T,
    fin: T,
) -> bool
    decreases items.len(),
{
    if items.len() == 0 {
        fin == init
    } else {
        exists|mid: T|
            #[trigger] call_ensures(f, (init, &items[0].0, items[0].1), mid) && fold_rel(
                f,
                items.subrange(1, items.len() as int),
                mid,
                fin,
            )
    }
}

/// Chains compose: a fold over `s1` followed by one over `s2` is a fold
/// over their concatenation.
proof fn lemma_value_fold_rel_concat<T, V, F: Fn(T, V) -> T>(
    f: F,
    s1: Seq<V>,
    s2: Seq<V>,
    a: T,
    m: T,
    b: T,
)
    requires
        value_fold_rel(f, s1, a, m),
        value_fold_rel(f, s2, m, b),
    ensures
        value_fold_rel(f, s1 + s2, a, b),
    decreases s1.len(),
{
    if s1.len() == 0 {
        assert(s1 + s2 =~= s2);
    } else {
        let rest = s1.subrange(1, s1.len() as int);
        let mid = choose|mid: T|
            #[trigger] call_ensures(f, (a, s1[0]), mid) && value_fold_rel(f, rest, mid, m);
        lemma_value_fold_rel_concat(f, rest, s2, mid, m, b);
        assert((s1 + s2).subrange(1, (s1 + s2).len() as int) =~= rest + s2);
        assert((s1 + s2)[0] == s1[0]);
    }
}

/// As `lemma_value_fold_rel_concat`, for name-aware folds.
proof fn lemma_fold_rel_concat<T, V, F: Fn(T, &String, V) -> T>(
    f: F,
    s1: Seq<(String, V)>,
    s2: Seq<(String, V)>,
    a: T,
    m: T,
    b: T,
)
    requires
        fold_rel(f, s1, a, m),
        fold_rel(f, s2, m, b),
    ensures
        fold_rel(f, s1 + s2, a, b),
    decreases s1.len(),
{
    if s1.len() == 0 {
        assert(s1 + s2 =~= s2);
    } else {
        let rest = s1.subrange(1, s1.len() as int);
        let mid = choose|mid: T|
            #[trigger] call_ensures(f, (a, &s1[0].0, s1[0].1), mid) && fold_rel(f, rest, mid, m);
        lemma_fold_rel_concat(f, rest, s2, mid, m, b);
        assert((s1 + s2).subrange(1, (s1 + s2).len() as int) =~= rest + s2);
        assert((s1 + s2)[0] == s1[0]);
    }
}

/// The leaves of a prefix of siblings extend by the next sibling's
/// leaves.
pub proof fn lemma_leaves_of_step<V>(s: Seq<Node<V>>, i: int)
    requires
        0 <= i < s.len(),
    ensures
        leaves_of(s.take(i + 1)) == leaves_of(s.take(i)) + leaves(s[i]),
    decreases i,
{
    if i == 0 {
        assert(s.take(0) =~= Seq::<Node<V>>::empty());
        assert(s.take(1)[0] == s[0]);
        assert(s.take(1).subrange(1, 1) =~= Seq::<Node<V>>::empty());
        assert(leaves_of(Seq::<Node<V>>::empty()) =~= Seq::<(String, V)>::empty());
        assert(leaves_of(s.take(1)) =~= leaves(s[0]) + leaves_of(Seq::<Node<V>>::empty()));
        assert(leaves_of(s.take(1)) =~= leaves(s[0]));
        assert(leaves_of(s.take(0)) + leaves(s[0]) =~= leaves(s[0]));
    } else {
        let t = s.subrange(1, s.len() as int);
        lemma_leaves_of_step(t, i - 1);
        assert(s.take(i + 1)[0] == s[0]);
        assert(s.take(i + 1).subrange(1, i + 1) =~= t.take(i));
        assert(s.take(i)[0] == s[0]);
        assert(s.take(i).subrange(1, i) =~= t.take(i - 1));
        assert(0 <= i - 1 < t.len());
        assert(t[i - 1] == s[i]);
        assert(leaves(s[0]) + (leaves_of(t.take(i - 1)) + leaves(s[i])) =~= (leaves(s[0])
            + leaves_of(t.take(i - 1))) + leaves(s[i]));
    }
}

impl<V: Copy> Node<V> {
    /// Folds `f` over every file value in the subtree, depth-first and
    /// left to right, starting from `accumulator`.
    #[verifier::loop_isolation(false)]
    pub fn value_reduce<T, F: Fn(T, V) -> T + Copy>(&self, accumulator: T, f: F) -> (r: T)
        requires
            forall|a: T, v: V| #[trigger] call_requires(f, (a, v)),
        ensures
            value_fold_rel(f, leaf_values(*self), accumulator, r),
        decreases *self,
    {
        match self {
            Node::File { size, .. } => {
                let r = f(accumulator, *size);
                proof {
                    let items = leaf_values(*self);
                    assert(items =~= seq![*size]);
                    assert(items[0] == *size);
                    assert(items.subrange(1, 1) =~= Seq::<V>::empty());
                    assert(value_fold_rel(f, items.subrange(1, 1), r, r));
                    assert(call_ensures(f, (accumulator, items[0]), r));
                }
                r
            },
            Node::Directory { children, .. } => {
                let mut acc = accumulator;
                let mut i: usize = 0;
                proof {
                    assert(leaves_of(children@.take(0)) =~= Seq::<(String, V)>::empty());
                    assert(vals(leaves_of(children@.take(0))) =~= Seq::<V>::empty());
                }
                while i < children.len()
                    invariant
                        i <= children@.len(),
                        forall|a: T, v: V| #[trigger] call_requires(f, (a, v)),
                        value_fold_rel(f, vals(leaves_of(children@.take(i as int))), accumulator, acc),
                    decreases children@.len() - i,
                {
                    proof {
                        assert(decreases_to!(*self => (*self)->Directory_children));
                        assert((*self)->Directory_children == *children);
                        assert(decreases_to!(*children => children@));
                        assert(decreases_to!(children@ => children@[i as int]));
                    }
                    let next = children[i].value_reduce(acc, f);
                    proof {
                        lemma_value_fold_rel_concat(
                            f,
                            vals(leaves_of(children@.take(i as int))),
                            leaf_values(children@[i as int]),
                            accumulator,
                            acc,
                            next,
                        );
                        lemma_leaves_of_step(children@, i as int);
                        assert(vals(leaves_of(children@.take(i + 1))) =~= vals(
                            leaves_of(children@.take(i as int)),
                        ) + leaf_values(children@[i as int]));
                    }
                    acc = next;
                    i += 1;
                }
                proof {
                    assert(children@.take(children@.len() as int) =~= children@);
                }
                acc
            },
        }
    }

    /// As `value_reduce`, but `f` also receives each leaf's name.
    #[verifier::loop_isolation(false)]
    pub fn reduce<T, F: Fn(T, &String, V) -> T + Copy>(&self, accumulator: T, f: F) -> (r: T)
        requires
            forall|a: T, n: String, v: V| #[trigger] call_requires(f, (a, &n, v)),
        ensures
            fold_rel(f, leaves(*self), accumulator, r),
        decreases *self,
    {
        match self {
            Node::File { name, size } => {
                let r = f(accumulator, name, *size);
                proof {
                    let items = leaves(*self);
                    assert(items =~= seq![(*name, *size)]);
                    assert(items[0] == (*name, *size));
                    assert(items.subrange(1, 1) =~= Seq::<(String, V)>::empty());
                    assert(fold_rel(f, items.subrange(1, 1), r, r));
                    assert(call_ensures(f, (accumulator, name, items[0].1), r));
                }
                r
            },
            Node::Directory { children, .. } => {
                let mut acc = accumulator;
                let mut i: usize = 0;
                proof {
                    assert(leaves_of(children@.take(0)) =~= Seq::<(String, V)>::empty());
                }
                while i < children.len()
                    invariant
                        i <= children@.len(),
                        forall|a: T, n: String, v: V| #[trigger] call_requires(f, (a, &n, v)),
                        fold_rel(f, leaves_of(children@.take(i as int)), accumulator, acc),
                    decreases children@.len() - i,
                {
                    proof {
                        assert(decreases_to!(*self => (*self)->Directory_children));
                        assert((*self)->Directory_children == *children);
                        assert(decreases_to!(*children => children@));
                        assert(decreases_to!(children@ => children@[i as int]));
                    }
                    let next = children[i].reduce(acc, f);
                    proof {
                        lemma_fold_rel_concat(
                            f,
                            leaves_of(children@.take(i as int)),
                            leaves(children@[i as int]),
                            accumulator,
                            acc,
                            next,
                        );
                        lemma_leaves_of_step(children@, i as int);
                    }
                    acc = next;
                    i += 1;
                }
                proof {
                    assert(children@.take(children@.len() as int) =~= children@);
                }
                acc
            },
        }
    }
}

impl<V: Copy> FSTreeMap<V> {
    /// Folds `f` over every file value in the tree, depth-first and
    /// left to right, starting from `accumulator`.
    pub fn value_reduce<T, F: Fn(T, V) -> T + Copy>(&self, accumulator: T, f: F) -> (r: T)
        requires
            forall|a: T, v: V| #[trigger] call_requires(f, (a, v)),
        ensures
            value_fold_rel(f, leaf_values(self.root), accumulator, r),
    {
        self.root.value_reduce(accumulator, f)
    }

    /// As `value_reduce`, but `f` also receives each leaf's name.
    pub fn reduce<T, F: Fn(T, &String, V) -> T + Copy>(&self, accumulator: T, f: F) -> (r: T)
        requires
            forall|a: T, n: String, v: V| #[trigger] call_requires(f, (a, &n, v)),
        ensures
            fold_rel(f, leaves(self.root), accumulator, r),
    {
        self.root.reduce(accumulator, f)
    }
}


/// Some leaf pair of `items` can make `f` answer true.
pub open spec fn any_true<V, F: Fn(&String, &V) -> bool>(f: F, items: Seq<(String, V)>) -> bool {
    exists|k: int|
        0 <= k < items.len() && #[trigger] call_ensures(f, (&items[k].0, &items[k].1), true)
}

/// Every leaf pair of `items` made `f` answer false.
pub open spec fn all_false<V, F: Fn(&String, &V) -> bool>(f: F, items: Seq<(String, V)>) -> bool {
    forall|k: int|
        0 <= k < items.len() ==> #[trigger] call_ensures(f, (&items[k].0, &items[k].1), false)
}

/// `any_true` and `all_false` carry over concatenation.
proof fn lemma_any_concat<V, F: Fn(&String, &V) -> bool>(
    f: F,
    a: Seq<(String, V)>,
    b: Seq<(String, V)>,
)
    ensures
        any_true(f, a) ==> any_true(f, a + b),
        any_true(f, b) ==> any_true(f, a + b),
        all_false(f, a) && all_false(f, b) ==> all_false(f, a + b),
{
    let c = a + b;
    assert(forall|k: int| 0 <= k < a.len() ==> c[k] == a[k]);
    assert(forall|k: int| 0 <= k < b.len() ==> c[a.len() + k] == b[k]);
    if any_true(f, a) {
        let k = choose|k: int|
            0 <= k < a.len() && #[trigger] call_ensures(f, (&a[k].0, &a[k].1), true);
        assert(call_ensures(f, (&c[k].0, &c[k].1), true));
    }
    if any_true(f, b) {
        let k = choose|k: int|
            0 <= k < b.len() && #[trigger] call_ensures(f, (&b[k].0, &b[k].1), true);
        assert(call_ensures(f, (&c[a.len() + k].0, &c[a.len() + k].1), true));
    }
    if all_false(f, a) && all_false(f, b) {
        assert forall|k: int| 0 <= k < c.len() implies call_ensures(
            f,
            (&c[k].0, &c[k].1),
            false,
        ) by {
            if k < a.len() {
                assert(call_ensures(f, (&a[k].0, &a[k].1), false));
            } else {
                assert(c[k] == b[k - a.len()]);
                assert(call_ensures(f, (&b[k - a.len()].0, &b[k - a.len()].1), false));
            }
        }
    }
}

/// The total of a sequence of values, as an unbounded integer.
pub open spec fn seq_sum(s: Seq<u64>) -> int
    decreases s.len(),
{
    if s.len() == 0 {
        0
    } else {
        s[0] + seq_sum(s.subrange(1, s.len() as int))
    }
}

/// A sum of unsigned values is never negative.
pub proof fn lemma_seq_sum_nonneg(s: Seq<u64>)
    ensures
        seq_sum(s) >= 0,
    decreases s.len(),
{
    if s.len() > 0 {
        lemma_seq_sum_nonneg(s.subrange(1, s.len() as int));
    }
}

/// Summation distributes over concatenation.
pub proof fn lemma_seq_sum_concat(a: Seq<u64>, b: Seq<u64>)
    ensures
        seq_sum(a + b) == seq_sum(a) + seq_sum(b),
    decreases a.len(),
{
    if a.len() == 0 {
        assert(a + b =~= b);
    } else {
        lemma_seq_sum_concat(a.subrange(1, a.len() as int), b);
        assert((a + b).subrange(1, (a + b).len() as int) =~= a.subrange(1, a.len() as int) + b);
        assert((a + b)[0] == a[0]);
    }
}

/// The sum over a prefix of siblings' leaf values never exceeds the sum
/// over all of them.
proof fn lemma_sum_prefix(s: Seq<Node<u64>>, j: int)
    requires
        0 <= j <= s.len(),
    ensures
        seq_sum(vals(leaves_of(s.take(j)))) <= seq_sum(vals(leaves_of(s))),
    decreases s.len() - j,
{
    if j == s.len() {
        assert(s.take(j) =~= s);
    } else {
        lemma_sum_prefix(s, j + 1);
        lemma_leaves_of_step(s, j);
        assert(vals(leaves_of(s.take(j + 1))) =~= vals(leaves_of(s.take(j))) + vals(
            leaves(s[j]),
        ));
        lemma_seq_sum_concat(vals(leaves_of(s.take(j))), vals(leaves(s[j])));
        lemma_seq_sum_nonneg(vals(leaves(s[j])));
    }
}

impl<V: Copy> Node<V> {
    /// Whether `f` answers true on some file leaf of the subtree; every
    /// leaf is visited, with no short-circuiting.
    #[verifier::loop_isolation(false)]
    pub(crate) fn any_rec<F: Fn(&String, &V) -> bool>(&self, f: &F) -> (r: bool)
        requires
            forall|n: &String, v: &V| #[trigger] call_requires(*f, (n, v)),
        ensures
            r ==> any_true(*f, leaves(*self)),
            !r ==> all_false(*f, leaves(*self)),
        decreases *self,
    {
        match self {
            Node::File { name, size } => {
                let b = f(name, size);
                proof {
                    let items = leaves(*self);
                    assert(items =~= seq![(*name, *size)]);
                    assert(items[0] == (*name, *size));
                    assert(call_ensures(*f, (&items[0].0, &items[0].1), b));
                }
                b
            },
            Node::Directory { children, .. } => {
                let mut found = false;
                let mut i: usize = 0;
                proof {
                    assert(leaves_of(children@.take(0)) =~= Seq::<(String, V)>::empty());
                }
                while i < children.len()
                    invariant
                        i <= children@.len(),
                        found ==> any_true(*f, leaves_of(children@.take(i as int))),
                        !found ==> all_false(*f, leaves_of(children@.take(i as int))),
                    decreases children@.len() - i,
                {
                    let b = children[i].any_rec(f);
                    proof {
                        lemma_leaves_of_step(children@, i as int);
                        lemma_any_concat(
                            *f,
                            leaves_of(children@.take(i as int)),
                            leaves(children@[i as int]),
                        );
                    }
                    found = found || b;
                    i += 1;
                }
                proof {
                    assert(children@.take(children@.len() as int) =~= children@);
                }
                found
            },
        }
    }
}

impl<V: Copy> FSTreeMap<V> {
    /// Whether at least one file leaf's name and value satisfy `f`.
    /// Every leaf is evaluated; there is no short-circuiting.
    pub fn any<F: Fn(&String, &V) -> bool>(&self, f: F) -> (r: bool)
        requires
            forall|n: &String, v: &V| #[trigger] call_requires(f, (n, v)),
        ensures
            r ==> any_true(f, leaves(self.root)),
            !r ==> all_false(f, leaves(self.root)),
    {
        self.root.any_rec(&f)
    }
}

impl Node<u64> {
    /// The total of all file values in the subtree.
    #[verifier::loop_isolation(false)]
    pub(crate) fn sum_values(&self) -> (r: u64)
        requires
            seq_sum(leaf_values(*self)) <= u64::MAX,
        ensures
            r as int == seq_sum(leaf_values(*self)),
        decreases *self,
    {
        match self {
            Node::File { size, .. } => {
                proof {
                    let items = leaf_values(*self);
                    assert(items =~= seq![*size]);
                    assert(items.subrange(1, 1) =~= Seq::<u64>::empty());
                    assert(seq_sum(items) == *size + seq_sum(items.subrange(1, 1)));
                    assert(seq_sum(items.subrange(1, 1)) == 0);
                }
                *size
            },
            Node::Directory { children, .. } => {
                let mut acc: u64 = 0;
                let mut i: usize = 0;
                proof {
                    assert(leaves_of(children@.take(0)) =~= Seq::<(String, u64)>::empty());
                    assert(vals(leaves_of(children@.take(0))) =~= Seq::<u64>::empty());
                }
                while i < children.len()
                    invariant
                        i <= children@.len(),
                        acc as int == seq_sum(vals(leaves_of(children@.take(i as int)))),
                    decreases children@.len() - i,
                {
                    proof {
                        lemma_leaves_of_step(children@, i as int);
                        assert(vals(leaves_of(children@.take(i + 1))) =~= vals(
                            leaves_of(children@.take(i as int)),
                        ) + leaf_values(children@[i as int]));
                        lemma_seq_sum_concat(
                            vals(leaves_of(children@.take(i as int))),
                            leaf_values(children@[i as int]),
                        );
                        lemma_sum_prefix(children@, i + 1);
                        lemma_seq_sum_nonneg(vals(leaves_of(children@.take(i as int))));
                        lemma_seq_sum_nonneg(leaf_values(children@[i as int]));
                    }
                    let c = children[i].sum_values();
                    acc = acc + c;
                    i += 1;
                }
                proof {
                    assert(children@.take(children@.len() as int) =~= children@);
                }
                acc
            },
        }
    }
}

impl FSTreeMap<u64> {
    /// The total of all file values in the tree: the fold of addition
    /// over the leaves, from zero.
    pub fn value_sum(&self) -> (r: u64)
        requires
            seq_sum(leaf_values(self.root)) <= u64::MAX,
        ensures
            r as int == seq_sum(leaf_values(self.root)),
    {
        self.root.sum_values()
    }
}

} // verus!
