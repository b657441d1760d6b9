//! The library's laws: proofs relating the path operations to each
//! other and to the aggregation specs.

use vstd::prelude::*;
use crate::node::{Node, PathError, find_index, lemma_find_index, lookup, leaves, leaves_of,
    leaf_values};
use crate::paths::split_path;
use crate::tree::FSTreeMap;
use crate::mutate::{is_iwp, is_remove, is_mkdir, is_fresh_dir_chain, is_fresh_file_chain,
    keep_except, mkdir_check};
use crate::folds::{vals, seq_sum, lemma_seq_sum_concat, lemma_leaves_of_step};

verus! {

/// The leaves of siblings split around any one of them.
pub proof fn lemma_leaves_of_decompose<V>(s: Seq<Node<V>>, j: int)
    requires
        0 <= j < s.len(),
    ensures
        leaves_of(s) == leaves_of(s.take(j)) + leaves(s[j]) + leaves_of(s.skip(j + 1)),
    decreases s.len() - j,
{
    if j + 1 == s.len() {
        lemma_leaves_of_step(s, j);
        assert(s.take(j + 1) =~= s);
        assert(s.skip(j + 1) =~= Seq::<Node<V>>::empty());
        assert(leaves_of(Seq::<Node<V>>::empty()) =~= Seq::<(String, V)>::empty());
        assert(leaves_of(s.take(j)) + leaves(s[j]) + Seq::<(String, V)>::empty() =~= leaves_of(
            s.take(j),
        ) + leaves(s[j]));
    } else {
        lemma_leaves_of_decompose(s.take(s.len() - 1), j);
        lemma_leaves_of_step(s, s.len() - 1);
        assert(s.take(s.len() as int) =~= s);
        let t = s.take(s.len() - 1);
        assert(t.take(j) =~= s.take(j));
        assert(t[j] == s[j]);
        assert(t.skip(j + 1) =~= s.skip(j + 1).take(s.skip(j + 1).len() - 1));
        lemma_leaves_of_step(s.skip(j + 1), s.skip(j + 1).len() - 1);
        assert(s.skip(j + 1).take(s.skip(j + 1).len() as int) =~= s.skip(j + 1));
        assert(s.skip(j + 1)[s.skip(j + 1).len() - 1] == s[s.len() - 1]);
        assert(leaves_of(s) =~= leaves_of(s.take(j)) + leaves(s[j]) + leaves_of(s.skip(j + 1)));
    }
}

/// The leaves of siblings after replacing one of them.
pub proof fn lemma_leaves_of_update<V>(s: Seq<Node<V>>, j: int, c: Node<V>)
    requires
        0 <= j < s.len(),
    ensures
        leaves_of(s.update(j, c)) == leaves_of(s.take(j)) + leaves(c) + leaves_of(s.skip(j + 1)),
{
    let s2 = s.update(j, c);
    lemma_leaves_of_decompose(s2, j);
    assert(s2.take(j) =~= s.take(j));
    assert(s2.skip(j + 1) =~= s.skip(j + 1));
}

/// The leaves of siblings after appending one more.
pub proof fn lemma_leaves_of_push<V>(s: Seq<Node<V>>, c: Node<V>)
    ensures
        leaves_of(s.push(c)) == leaves_of(s) + leaves(c),
{
    lemma_leaves_of_step(s.push(c), s.len() as int);
    assert(s.push(c).take(s.len() as int + 1) =~= s.push(c));
    assert(s.push(c).take(s.len() as int) =~= s);
}

/// Replacing a child with an equally named one does not change which
/// index a name resolves to.
pub proof fn lemma_find_index_update<V>(s: Seq<Node<V>>, j: int, c: Node<V>, name: Seq<char>)
    requires
        0 <= j < s.len(),
        c.spec_name()@ == s[j].spec_name()@,
    ensures
        find_index(s.update(j, c), name) == find_index(s, name),
    decreases s.len(),
{
    let s2 = s.update(j, c);
    assert(s2.len() == s.len());
    if j == 0 {
        assert(s2[0].spec_name()@ == s[0].spec_name()@);
        if s[0].spec_name()@ != name {
            assert(s2.subrange(1, s2.len() as int) =~= s.subrange(1, s.len() as int));
        }
    } else {
        assert(s2[0] == s[0]);
        if s[0].spec_name()@ != name {
            assert(s2.subrange(1, s2.len() as int) =~= s.subrange(1, s.len() as int).update(
                j - 1,
                c,
            ));
            lemma_find_index_update(s.subrange(1, s.len() as int), j - 1, c, name);
        }
    }
}

/// Where a name resolves after appending a child: to its old index if
/// it resolved before, to the new child if that one carries the name,
/// nowhere otherwise.
pub proof fn lemma_find_index_push<V>(s: Seq<Node<V>>, c: Node<V>, name: Seq<char>)
    ensures
        find_index(s.push(c), name) == if find_index(s, name) >= 0 {
            find_index(s, name)
        } else if c.spec_name()@ == name {
            s.len() as int
        } else {
            -1
        },
    decreases s.len(),
{
    let s2 = s.push(c);
    if s.len() == 0 {
        assert(s2[0] == c);
        assert(s2.subrange(1, 1) =~= Seq::<Node<V>>::empty());
        assert(find_index(Seq::<Node<V>>::empty(), name) == -1);
        assert(find_index(s, name) == -1);
        if c.spec_name()@ == name {
            assert(find_index(s2, name) == 0);
        } else {
            assert(find_index(s2, name) == -1);
        }
    } else {
        assert(s2[0] == s[0]);
        if s[0].spec_name()@ != name {
            let sub = s.subrange(1, s.len() as int);
            assert(s2.subrange(1, s2.len() as int) =~= sub.push(c));
            lemma_find_index_push(sub, c, name);
            assert(find_index(s, name) == if find_index(sub, name) == -1 {
                -1
            } else {
                find_index(sub, name) + 1
            });
            assert(find_index(s2, name) == if find_index(sub.push(c), name) == -1 {
                -1
            } else {
                find_index(sub.push(c), name) + 1
            });
        }
    }
}

/// The sum of a one-element sequence is that element.
pub proof fn lemma_seq_sum_singleton(s: Seq<u64>)
    requires
        s.len() == 1,
    ensures
        seq_sum(s) == s[0],
{
    assert(s.subrange(1, 1) =~= Seq::<u64>::empty());
    assert(seq_sum(Seq::<u64>::empty()) == 0);
}

/// Summation is unchanged by removing one element and adding it back
/// conceptually: the total splits around any index.
pub proof fn lemma_seq_sum_remove(s: Seq<u64>, i: int)
    requires
        0 <= i < s.len(),
    ensures
        seq_sum(s) == s[i] + seq_sum(s.remove(i)),
{
    assert(s =~= s.take(i) + s.subrange(i, i + 1) + s.skip(i + 1));
    lemma_seq_sum_concat(s.take(i) + s.subrange(i, i + 1), s.skip(i + 1));
    lemma_seq_sum_concat(s.take(i), s.subrange(i, i + 1));
    assert(s.subrange(i, i + 1)[0] == s[i]);
    lemma_seq_sum_singleton(s.subrange(i, i + 1));
    assert(s.remove(i) =~= s.take(i) + s.skip(i + 1));
    lemma_seq_sum_concat(s.take(i), s.skip(i + 1));
}

/// The sum of a sequence of values depends only on which values occur
/// how often, not on their order: two sequences with equal multisets
/// have equal sums.
pub proof fn lemma_seq_sum_permutation(s1: Seq<u64>, s2: Seq<u64>)
    requires
        s1.to_multiset() == s2.to_multiset(),
    ensures
        seq_sum(s1) == seq_sum(s2),
    decreases s1.len(),
{
    broadcast use vstd::seq_lib::group_to_multiset_ensures;

    if s1.len() == 0 {
        assert(s2.to_multiset().len() == 0);
        assert(s2.len() == 0);
    } else {
        let x = s1[0];
        assert(s1.contains(x));
        assert(s2.to_multiset().count(x) > 0);
        assert(s2.contains(x));
        let i = choose|i: int| 0 <= i < s2.len() && s2[i] == x;
        lemma_seq_sum_remove(s2, i);
        lemma_seq_sum_remove(s1, 0);
        assert(s1.remove(0).to_multiset() =~= s1.to_multiset().remove(x));
        assert(s2.remove(i).to_multiset() =~= s2.to_multiset().remove(x));
        lemma_seq_sum_permutation(s1.remove(0), s2.remove(i));
    }
}

/// A freshly created chain of directories ending in one file has that
/// file as its only leaf.
pub proof fn lemma_file_chain_leaves<V>(d: Node<V>, segs: Seq<Seq<char>>, stem: Seq<char>, value: V)
    requires
        is_fresh_file_chain(d, segs, stem, value),
    ensures
        leaves(d).len() == 1,
        leaves(d)[0].0@ == stem,
        leaves(d)[0].1 == value,
    decreases segs.len(),
{
    let c = d.spec_children()[0];
    assert(d.spec_children() =~= seq![c]);
    assert(d.spec_children().subrange(1, 1) =~= Seq::<Node<V>>::empty());
    assert(leaves_of(Seq::<Node<V>>::empty()) =~= Seq::<(String, V)>::empty());
    assert(leaves(d) =~= leaves(c) + Seq::<(String, V)>::empty());
    assert(leaves(d) =~= leaves(c));
    if segs.len() == 1 {
        assert(leaves(c) =~= seq![(c.spec_name(), c.spec_value())]);
    } else {
        lemma_file_chain_leaves(c, segs.subrange(1, segs.len() as int), stem, value);
    }
}

/// Inserting a value with parent creation raises the total of the
/// tree's leaf values by exactly that value, wherever in the tree the
/// insertion lands.
pub proof fn lemma_insert_with_parents_adds_value(
    t: Node<u64>,
    t2: Node<u64>,
    dirpath: Seq<Seq<char>>,
    stem: Seq<char>,
    value: u64,
)
    requires
        is_iwp(t, t2, dirpath, stem, value),
    ensures
        seq_sum(leaf_values(t2)) == seq_sum(leaf_values(t)) + value,
    decreases dirpath.len(),
{
    let s = t.spec_children();
    let s2 = t2.spec_children();
    if dirpath.len() == 0 {
        let file = s2.last();
        assert(s2 =~= s.push(file));
        lemma_leaves_of_push(s, file);
        assert(leaves(file) =~= seq![(file.spec_name(), value)]);
        assert(vals(leaves_of(s) + leaves(file)) =~= vals(leaves_of(s)) + vals(leaves(file)));
        lemma_seq_sum_concat(vals(leaves_of(s)), vals(leaves(file)));
        assert(vals(leaves(file)) =~= seq![value]);
        lemma_seq_sum_singleton(vals(leaves(file)));
    } else {
        let j = find_index(s, dirpath[0]);
        if j >= 0 {
            lemma_find_index(s, dirpath[0]);
            let c = s[j];
            let c2 = s2[j];
            lemma_insert_with_parents_adds_value(
                c,
                c2,
                dirpath.subrange(1, dirpath.len() as int),
                stem,
                value,
            );
            lemma_leaves_of_decompose(s, j);
            lemma_leaves_of_update(s, j, c2);
            assert(s2 =~= s.update(j, c2));
            let a = leaves_of(s.take(j));
            let b = leaves_of(s.skip(j + 1));
            assert(vals(a + leaves(c) + b) =~= vals(a) + vals(leaves(c)) + vals(b));
            assert(vals(a + leaves(c2) + b) =~= vals(a) + vals(leaves(c2)) + vals(b));
            lemma_seq_sum_concat(vals(a) + vals(leaves(c)), vals(b));
            lemma_seq_sum_concat(vals(a), vals(leaves(c)));
            lemma_seq_sum_concat(vals(a) + vals(leaves(c2)), vals(b));
            lemma_seq_sum_concat(vals(a), vals(leaves(c2)));
        } else {
            let chain = s2.last();
            assert(s2 =~= s.push(chain));
            lemma_leaves_of_push(s, chain);
            lemma_file_chain_leaves(chain, dirpath, stem, value);
            assert(leaves(chain) =~= seq![leaves(chain)[0]]);
            assert(vals(leaves_of(s) + leaves(chain)) =~= vals(leaves_of(s)) + vals(
                leaves(chain),
            ));
            lemma_seq_sum_concat(vals(leaves_of(s)), vals(leaves(chain)));
            assert(vals(leaves(chain)) =~= seq![value]);
            lemma_seq_sum_singleton(vals(leaves(chain)));
        }
    }
}


/// Inserting a value below existing directories raises the total of
/// the tree's leaf values by exactly that value.
pub proof fn lemma_insert_adds_value(
    t: Node<u64>,
    t2: Node<u64>,
    dirpath: Seq<Seq<char>>,
    stem: Seq<char>,
    value: u64,
)
    requires
        crate::mutate::is_insert(t, t2, dirpath, stem, value),
    ensures
        seq_sum(leaf_values(t2)) == seq_sum(leaf_values(t)) + value,
    decreases dirpath.len(),
{
    let s = t.spec_children();
    let s2 = t2.spec_children();
    if dirpath.len() == 0 {
        let file = s2.last();
        assert(s2 =~= s.push(file));
        lemma_leaves_of_push(s, file);
        assert(leaves(file) =~= seq![(file.spec_name(), value)]);
        assert(vals(leaves_of(s) + leaves(file)) =~= vals(leaves_of(s)) + vals(leaves(file)));
        lemma_seq_sum_concat(vals(leaves_of(s)), vals(leaves(file)));
        assert(vals(leaves(file)) =~= seq![value]);
        lemma_seq_sum_singleton(vals(leaves(file)));
    } else {
        let j = find_index(s, dirpath[0]);
        lemma_find_index(s, dirpath[0]);
        let c = s[j];
        let c2 = s2[j];
        lemma_insert_adds_value(c, c2, dirpath.subrange(1, dirpath.len() as int), stem, value);
        lemma_leaves_of_decompose(s, j);
        lemma_leaves_of_update(s, j, c2);
        assert(s2 =~= s.update(j, c2));
        let a = leaves_of(s.take(j));
        let b = leaves_of(s.skip(j + 1));
        assert(vals(a + leaves(c) + b) =~= vals(a) + vals(leaves(c)) + vals(b));
        assert(vals(a + leaves(c2) + b) =~= vals(a) + vals(leaves(c2)) + vals(b));
        lemma_seq_sum_concat(vals(a) + vals(leaves(c)), vals(b));
        lemma_seq_sum_concat(vals(a), vals(leaves(c)));
        lemma_seq_sum_concat(vals(a) + vals(leaves(c2)), vals(b));
        lemma_seq_sum_concat(vals(a), vals(leaves(c2)));
    }
}

/// No child named `stem` stands in the directory that `dirpath`
/// reaches in `t`, as far as that walk exists.  Inserting `stem` there
/// is then not shadowed by an older sibling.
pub open spec fn stem_free<V>(t: Node<V>, dirpath: Seq<Seq<char>>, stem: Seq<char>) -> bool
    decreases dirpath.len(),
{
    match t {
        Node::File { .. } => true,
        Node::Directory { children, .. } => {
            if dirpath.len() == 0 {
                find_index(children@, stem) == -1
            } else {
                let j = find_index(children@, dirpath[0]);
                j >= 0 ==> stem_free(
                    children@[j],
                    dirpath.subrange(1, dirpath.len() as int),
                    stem,
                )
            }
        },
    }
}

/// Looking into a freshly created chain of directories finds a
/// directory at every level and the new file at the end.
proof fn lemma_file_chain_lookup<V>(d: Node<V>, segs: Seq<Seq<char>>, stem: Seq<char>, value: V)
    requires
        is_fresh_file_chain(d, segs, stem, value),
    ensures
        lookup(d, segs.subrange(1, segs.len() as int).push(stem)) matches Ok(f) && f is File
            && f.spec_name()@ == stem && f.spec_value() == value,
        forall|k: int|
            0 <= k <= segs.len() - 1 ==> (#[trigger] lookup(
                d,
                segs.subrange(1, segs.len() as int).take(k),
            ) matches Ok(dd) && dd is Directory),
    decreases segs.len(),
{
    let rest = segs.subrange(1, segs.len() as int);
    let c = d.spec_children()[0];
    assert(forall|k: int| 0 <= k <= segs.len() - 1 ==> rest.take(k).len() == k);
    if segs.len() == 1 {
        assert(rest =~= Seq::<Seq<char>>::empty());
        assert(rest.push(stem)[0] == stem);
        assert(find_index(d.spec_children(), stem) == 0);
        assert(rest.push(stem).subrange(1, 1) =~= Seq::<Seq<char>>::empty());
        assert(rest.push(stem).subrange(1, rest.push(stem).len() as int) == Seq::<
            Seq<char>,
        >::empty());
        assert(lookup(c, Seq::<Seq<char>>::empty()) == Ok::<Node<V>, PathError>(c));
        assert(lookup(d, rest.push(stem)) == Ok::<Node<V>, PathError>(c));
        assert(forall|k: int| 0 <= k <= 0 ==> rest.take(k) =~= Seq::<Seq<char>>::empty());
    } else {
        assert(is_fresh_file_chain(c, segs.subrange(1, segs.len() as int), stem, value));
        lemma_file_chain_lookup(c, segs.subrange(1, segs.len() as int), stem, value);
        let rest2 = segs.subrange(1, segs.len() as int).subrange(
            1,
            segs.subrange(1, segs.len() as int).len() as int,
        );
        assert(rest.push(stem)[0] == segs[1]);
        assert(c.spec_name()@ == segs.subrange(1, segs.len() as int)[0]);
        assert(c.spec_name()@ == segs[1]);
        assert(find_index(d.spec_children(), segs[1]) == 0);
        assert(rest.push(stem).subrange(1, rest.push(stem).len() as int) =~= rest2.push(stem));
        assert forall|k: int| 0 <= k <= segs.len() - 1 implies (#[trigger] lookup(
            d,
            rest.take(k),
        ) matches Ok(dd) && dd is Directory) by {
            if k == 0 {
                assert(rest.take(0) =~= Seq::<Seq<char>>::empty());
            } else {
                assert(rest.take(k)[0] == segs[1]);
                assert(rest.take(k).subrange(1, k) =~= rest2.take(k - 1));
                assert(lookup(c, rest2.take(k - 1)) matches Ok(dd) && dd is Directory);
            }
        }
    }
}

/// Inserting a value with parent creation, at a path whose final name
/// is not already taken in the target directory, makes the new file
/// readable back at that very path, and every directory segment of the
/// path resolvable to a directory.
pub proof fn lemma_insert_with_parents_round_trip<V>(
    t: Node<V>,
    t2: Node<V>,
    dirpath: Seq<Seq<char>>,
    stem: Seq<char>,
    value: V,
)
    requires
        is_iwp(t, t2, dirpath, stem, value),
        stem_free(t, dirpath, stem),
    ensures
        lookup(t2, dirpath.push(stem)) matches Ok(f) && f is File && f.spec_name()@ == stem
            && f.spec_value() == value,
        forall|k: int|
            0 <= k <= dirpath.len() ==> (#[trigger] lookup(t2, dirpath.take(k)) matches Ok(d)
                && d is Directory),
    decreases dirpath.len(),
{
    let s = t.spec_children();
    let s2 = t2.spec_children();
    let path = dirpath.push(stem);
    assert(forall|k: int| 0 <= k <= dirpath.len() ==> dirpath.take(k).len() == k);
    if dirpath.len() == 0 {
        let file = s2.last();
        assert(s2 =~= s.push(file));
        assert(find_index(s, stem) == -1);
        lemma_find_index_push(s, file, stem);
        assert(path[0] == stem);
        assert(file.spec_name()@ == stem);
        assert(find_index(s2, stem) == s.len());
        assert(s2[s.len() as int] == file);
        assert(path.subrange(1, 1) =~= Seq::<Seq<char>>::empty());
        assert(path.subrange(1, path.len() as int) == Seq::<Seq<char>>::empty());
        assert(lookup(file, Seq::<Seq<char>>::empty()) == Ok::<Node<V>, PathError>(file));
        assert(lookup(t2, path) == Ok::<Node<V>, PathError>(file));
        assert(forall|k: int| 0 <= k <= 0 ==> dirpath.take(k) =~= Seq::<Seq<char>>::empty());
    } else {
        let j = find_index(s, dirpath[0]);
        let rest = dirpath.subrange(1, dirpath.len() as int);
        assert(path[0] == dirpath[0]);
        assert(path.subrange(1, path.len() as int) =~= rest.push(stem));
        if j >= 0 {
            lemma_find_index(s, dirpath[0]);
            let c = s[j];
            let c2 = s2[j];
            assert(is_iwp(c, c2, rest, stem, value));
            assert(c2.spec_name() == c.spec_name());
            assert(s2 =~= s.update(j, c2));
            lemma_find_index_update(s, j, c2, dirpath[0]);
            assert(find_index(s2, dirpath[0]) == j);
            lemma_insert_with_parents_round_trip(c, c2, rest, stem, value);
            assert(lookup(t2, path) == lookup(c2, rest.push(stem)));
            assert forall|k: int| 0 <= k <= dirpath.len() implies (#[trigger] lookup(
                t2,
                dirpath.take(k),
            ) matches Ok(d) && d is Directory) by {
                if k == 0 {
                    assert(dirpath.take(0) =~= Seq::<Seq<char>>::empty());
                } else {
                    assert(dirpath.take(k)[0] == dirpath[0]);
                    assert(dirpath.take(k).subrange(1, k) =~= rest.take(k - 1));
                    assert(lookup(c2, rest.take(k - 1)) matches Ok(d) && d is Directory);
                }
            }
        } else {
            let chain = s2.last();
            assert(s2 =~= s.push(chain));
            assert(is_fresh_file_chain(chain, dirpath, stem, value));
            assert(chain.spec_name()@ == dirpath[0]);
            lemma_find_index_push(s, chain, dirpath[0]);
            assert(find_index(s2, dirpath[0]) == s.len());
            assert(s2[s.len() as int] == chain);
            lemma_file_chain_lookup(chain, dirpath, stem, value);
            assert(lookup(t2, path) == lookup(chain, rest.push(stem)));
            assert forall|k: int| 0 <= k <= dirpath.len() implies (#[trigger] lookup(
                t2,
                dirpath.take(k),
            ) matches Ok(d) && d is Directory) by {
                if k == 0 {
                    assert(dirpath.take(0) =~= Seq::<Seq<char>>::empty());
                } else {
                    assert(dirpath.take(k)[0] == dirpath[0]);
                    assert(dirpath.take(k).subrange(1, k) =~= rest.take(k - 1));
                    assert(lookup(chain, rest.take(k - 1)) matches Ok(d) && d is Directory);
                }
            }
        }
    }
}


/// Two trees have the same shape: the same variants, names and values
/// throughout, regardless of how their child vectors were built.
pub open spec fn same_tree<V>(a: Node<V>, b: Node<V>) -> bool
    decreases a,
{
    match a {
        Node::File { name, size } => b is File && b.spec_name() == name && b.spec_value() == size,
        Node::Directory { name, children } => {
            &&& b is Directory
            &&& b.spec_name() == name
            &&& same_children(children@, b.spec_children())
        },
    }
}

/// Two sibling sequences are pairwise same-shaped.
pub open spec fn same_children<V>(a: Seq<Node<V>>, b: Seq<Node<V>>) -> bool
    decreases a,
{
    &&& a.len() == b.len()
    &&& (a.len() > 0 ==> same_tree(a[0], b[0]) && same_children(
        a.subrange(1, a.len() as int),
        b.subrange(1, b.len() as int),
    ))
}

/// `same_children` is equivalent to pairwise `same_tree`.
proof fn lemma_same_children_index<V>(a: Seq<Node<V>>, b: Seq<Node<V>>)
    ensures
        same_children(a, b) <==> (a.len() == b.len() && forall|k: int|
            0 <= k < a.len() ==> same_tree(#[trigger] a[k], b[k])),
    decreases a.len(),
{
    if a.len() > 0 && a.len() == b.len() {
        let ta = a.subrange(1, a.len() as int);
        let tb = b.subrange(1, b.len() as int);
        lemma_same_children_index(ta, tb);
        assert(forall|k: int| 1 <= k < a.len() ==> a[k] == ta[k - 1] && b[k] == tb[k - 1]);
        if same_children(a, b) {
            assert(forall|k: int| 0 <= k < a.len() ==> same_tree(#[trigger] a[k], b[k]));
        }
        if forall|k: int| 0 <= k < a.len() ==> same_tree(#[trigger] a[k], b[k]) {
            assert(forall|k: int| 0 <= k < ta.len() ==> same_tree(#[trigger] ta[k], tb[k]));
        }
    }
}

/// Every tree has the same shape as itself.
proof fn lemma_same_tree_refl<V>(t: Node<V>)
    ensures
        same_tree(t, t),
    decreases t,
{
    match t {
        Node::File { .. } => {},
        Node::Directory { children, .. } => {
            lemma_same_children_refl(children@);
        },
    }
}

/// Every sibling sequence is pairwise same-shaped with itself.
proof fn lemma_same_children_refl<V>(s: Seq<Node<V>>)
    ensures
        same_children(s, s),
    decreases s,
{
    if s.len() > 0 {
        lemma_same_tree_refl(s[0]);
        lemma_same_children_refl(s.subrange(1, s.len() as int));
    }
}

/// Find-or-create keeps a node's name and variant choice.
proof fn lemma_is_mkdir_name<V>(t: Node<V>, t1: Node<V>, segs: Seq<Seq<char>>)
    requires
        is_mkdir(t, t1, segs),
    ensures
        t1.spec_name() == t.spec_name(),
        t is Directory ==> t1 is Directory,
        t is File ==> t1 == t,
{
}

/// Walking a fresh chain of directories again finds every segment and
/// changes nothing.
proof fn lemma_dir_chain_mkdir<V>(d: Node<V>, t2: Node<V>, segs: Seq<Seq<char>>)
    requires
        is_fresh_dir_chain(d, segs),
    ensures
        mkdir_check(d, segs.subrange(1, segs.len() as int)) is None,
        is_mkdir(d, t2, segs.subrange(1, segs.len() as int)) ==> same_tree(t2, d),
    decreases segs.len(),
{
    let rest = segs.subrange(1, segs.len() as int);
    if segs.len() == 1 {
        assert(rest =~= Seq::<Seq<char>>::empty());
        if is_mkdir(d, t2, rest) {
            lemma_same_tree_refl(d);
        }
    } else {
        let c = d.spec_children()[0];
        assert(is_fresh_dir_chain(c, rest));
        assert(c.spec_name()@ == rest[0]);
        assert(d.spec_children() =~= seq![c]);
        assert(find_index(d.spec_children(), rest[0]) == 0);
        let rest2 = rest.subrange(1, rest.len() as int);
        assert(rest.subrange(1, rest.len() as int) =~= rest2);
        if is_mkdir(d, t2, rest) {
            let c2 = t2.spec_children()[0];
            lemma_dir_chain_mkdir(c, c2, rest);
            assert(is_mkdir(c, c2, rest2));
            assert(same_tree(c2, c));
            assert(t2.spec_children() =~= d.spec_children().update(0, c2));
            assert(t2.spec_children() =~= seq![c2]);
            lemma_same_children_index(t2.spec_children(), d.spec_children());
            assert(forall|k: int|
                0 <= k < t2.spec_children().len() ==> same_tree(
                    #[trigger] t2.spec_children()[k],
                    d.spec_children()[k],
                ));
            assert(same_children(t2.spec_children(), d.spec_children()));
            assert(same_tree(t2, d));
        }
        lemma_dir_chain_mkdir(c, t2, rest);
    }
}

/// Creating the directories of a path is idempotent: after one
/// successful `make_directory` walk, a second walk of the same segments
/// succeeds and leaves the tree with exactly the shape the first walk
/// produced.
pub proof fn lemma_make_directory_idempotent<V>(
    t: Node<V>,
    t1: Node<V>,
    t2: Node<V>,
    segs: Seq<Seq<char>>,
)
    requires
        is_mkdir(t, t1, segs),
    ensures
        mkdir_check(t1, segs) is None,
        is_mkdir(t1, t2, segs) ==> same_tree(t2, t1),
    decreases segs.len(),
{
    if segs.len() == 0 {
        if is_mkdir(t1, t2, segs) {
            lemma_same_tree_refl(t1);
        }
    } else {
        let s = t.spec_children();
        let s1 = t1.spec_children();
        let rest = segs.subrange(1, segs.len() as int);
        let j = find_index(s, segs[0]);
        if j >= 0 {
            lemma_find_index(s, segs[0]);
            let c = s[j];
            let c1 = s1[j];
            assert(is_mkdir(c, c1, rest));
            lemma_is_mkdir_name(c, c1, rest);
            assert(s1 =~= s.update(j, c1));
            lemma_find_index_update(s, j, c1, segs[0]);
            assert(find_index(s1, segs[0]) == j);
            lemma_make_directory_idempotent(c, c1, t2, rest);
            if is_mkdir(t1, t2, segs) {
                let c2 = t2.spec_children()[j];
                assert(is_mkdir(c1, c2, rest));
                lemma_make_directory_idempotent(c, c1, c2, rest);
                assert(same_tree(c2, c1));
                assert(t2.spec_children() =~= s1.update(j, c2));
                lemma_same_children_index(s1, t2.spec_children());
                assert forall|k: int| 0 <= k < s1.len() implies same_tree(
                    #[trigger] t2.spec_children()[k],
                    s1[k],
                ) by {
                    if k != j {
                        lemma_same_tree_refl(s1[k]);
                    }
                }
                lemma_same_children_index(t2.spec_children(), s1);
            }
        } else {
            let chain = s1.last();
            assert(s1 =~= s.push(chain));
            assert(is_fresh_dir_chain(chain, segs));
            assert(chain.spec_name()@ == segs[0]);
            lemma_find_index_push(s, chain, segs[0]);
            assert(find_index(s1, segs[0]) == s.len());
            assert(s1[s.len() as int] == chain);
            lemma_dir_chain_mkdir(chain, t2, segs);
            if is_mkdir(t1, t2, segs) {
                let c2 = t2.spec_children()[s.len() as int];
                assert(is_mkdir(chain, c2, rest));
                lemma_dir_chain_mkdir(chain, c2, segs);
                assert(same_tree(c2, chain));
                assert(t2.spec_children() =~= s1.update(s.len() as int, c2));
                assert forall|k: int| 0 <= k < s1.len() implies same_tree(
                    #[trigger] t2.spec_children()[k],
                    s1[k],
                ) by {
                    if k != s.len() as int {
                        lemma_same_tree_refl(s1[k]);
                    }
                }
                lemma_same_children_index(t2.spec_children(), s1);
            }
        }
    }
}


/// How many leaves sit below the children of `s` that are named `stem`.
pub open spec fn removed_leaf_count<V>(s: Seq<Node<V>>, stem: Seq<char>) -> int
    decreases s.len(),
{
    if s.len() == 0 {
        0
    } else {
        removed_leaf_count(s.drop_last(), stem) + if s.last().spec_name()@ == stem {
            leaves(s.last()).len() as int
        } else {
            0
        }
    }
}

/// Where nothing is named `stem`, nothing is removed.
proof fn lemma_removed_none<V>(s: Seq<Node<V>>, stem: Seq<char>)
    requires
        forall|k: int| 0 <= k < s.len() ==> (#[trigger] s[k].spec_name())@ != stem,
    ensures
        removed_leaf_count(s, stem) == 0,
    decreases s.len(),
{
    if s.len() > 0 {
        assert(forall|k: int|
            0 <= k < s.drop_last().len() ==> s.drop_last()[k] == s[k]);
        lemma_removed_none(s.drop_last(), stem);
    }
}

/// When exactly one child carries the name, what removal takes away is
/// that child's leaves.
proof fn lemma_removed_unique<V>(s: Seq<Node<V>>, stem: Seq<char>)
    requires
        find_index(s, stem) >= 0,
        forall|k: int|
            0 <= k < s.len() && (#[trigger] s[k].spec_name())@ == stem ==> k == find_index(
                s,
                stem,
            ),
    ensures
        removed_leaf_count(s, stem) == leaves(s[find_index(s, stem)]).len(),
    decreases s.len(),
{
    lemma_find_index(s, stem);
    let dl = s.drop_last();
    let last = s.last();
    assert(s =~= dl.push(last));
    lemma_find_index_push(dl, last, stem);
    assert(forall|k: int| 0 <= k < dl.len() ==> dl[k] == s[k]);
    if last.spec_name()@ == stem {
        assert(s[s.len() - 1] == last);
        assert(s[s.len() - 1].spec_name()@ == stem);
        assert(find_index(s, stem) == s.len() - 1);
        lemma_find_index(dl, stem);
        if find_index(dl, stem) >= 0 {
            assert(find_index(s, stem) == find_index(dl, stem));
            assert(false);
        }
        lemma_removed_none(dl, stem);
    } else {
        assert(find_index(dl, stem) == find_index(s, stem));
        lemma_removed_unique(dl, stem);
    }
}

/// Removal takes away exactly the leaves of the same-named children.
proof fn lemma_keep_except_len<V>(s: Seq<Node<V>>, stem: Seq<char>)
    ensures
        leaves_of(keep_except(s, stem)).len() == leaves_of(s).len() - removed_leaf_count(s, stem),
    decreases s.len(),
{
    if s.len() > 0 {
        let dl = s.drop_last();
        let last = s.last();
        lemma_keep_except_len(dl, stem);
        lemma_leaves_of_step(s, s.len() - 1);
        assert(s.take(s.len() as int) =~= s);
        assert(s.take(s.len() - 1) =~= dl);
        if last.spec_name()@ != stem {
            lemma_leaves_of_push(keep_except(dl, stem), last);
        }
    }
}

/// No surviving child carries the removed name.
proof fn lemma_keep_except_no_match<V>(s: Seq<Node<V>>, stem: Seq<char>)
    ensures
        forall|k: int|
            0 <= k < keep_except(s, stem).len() ==> (#[trigger] keep_except(
                s,
                stem,
            )[k].spec_name())@ != stem,
    decreases s.len(),
{
    if s.len() > 0 {
        lemma_keep_except_no_match(s.drop_last(), stem);
        let kd = keep_except(s.drop_last(), stem);
        if s.last().spec_name()@ != stem {
            assert(forall|k: int|
                0 <= k < kd.len() ==> kd.push(s.last())[k] == kd[k]);
        }
    }
}

/// The node an existing path resolves to.
pub open spec fn found_node<V>(t: Node<V>, segs: Seq<Seq<char>>) -> Node<V> {
    match lookup(t, segs) {
        Ok(n) => n,
        Err(_) => vstd::pervasive::arbitrary(),
    }
}

/// Removing an existing file path whose name is unique in its directory
/// makes that path unresolvable and lowers the leaf count by exactly
/// one.
pub proof fn lemma_remove_deletes<V>(
    t: Node<V>,
    t2: Node<V>,
    dirpath: Seq<Seq<char>>,
    stem: Seq<char>,
)
    requires
        is_remove(t, t2, dirpath, stem),
        lookup(t, dirpath.push(stem)) matches Ok(f) && f is File,
        forall|k: int|
            0 <= k < found_node(t, dirpath).spec_children().len() && (#[trigger] found_node(
                t,
                dirpath,
            ).spec_children()[k].spec_name())@ == stem ==> k == find_index(
                found_node(t, dirpath).spec_children(),
                stem,
            ),
    ensures
        lookup(t2, dirpath.push(stem)) == Err::<Node<V>, PathError>(PathError::NotFound),
        leaves(t2).len() == leaves(t).len() - 1,
    decreases dirpath.len(),
{
    let s = t.spec_children();
    let s2 = t2.spec_children();
    let path = dirpath.push(stem);
    if dirpath.len() == 0 {
        assert(lookup(t, dirpath) == Ok::<Node<V>, PathError>(t));
        assert(found_node(t, dirpath) == t);
        assert(path[0] == stem);
        let jf = find_index(s, stem);
        lemma_find_index(s, stem);
        assert(jf >= 0);
        let f = s[jf];
        assert(path.subrange(1, path.len() as int) =~= Seq::<Seq<char>>::empty());
        assert(lookup(f, Seq::<Seq<char>>::empty()) == Ok::<Node<V>, PathError>(f));
        assert(lookup(t, path) == Ok::<Node<V>, PathError>(f));
        assert(f is File);
        assert(leaves(f) =~= seq![(f.spec_name(), f.spec_value())]);
        lemma_removed_unique(s, stem);
        lemma_keep_except_len(s, stem);
        assert(s2 == keep_except(s, stem));
        lemma_keep_except_no_match(s, stem);
        lemma_find_index(s2, stem);
        if find_index(s2, stem) >= 0 {
            assert(s2[find_index(s2, stem)].spec_name()@ == stem);
            assert(false);
        }
        assert(lookup(t2, path) == Err::<Node<V>, PathError>(PathError::NotFound));
    } else {
        let j = find_index(s, dirpath[0]);
        assert(j >= 0);
        lemma_find_index(s, dirpath[0]);
        let c = s[j];
        let c2 = s2[j];
        let rest = dirpath.subrange(1, dirpath.len() as int);
        assert(is_remove(c, c2, rest, stem));
        assert(c2.spec_name() == c.spec_name());
        assert(path[0] == dirpath[0]);
        assert(path.subrange(1, path.len() as int) =~= rest.push(stem));
        assert(lookup(t, path) == lookup(c, rest.push(stem)));
        assert(lookup(t, dirpath) == lookup(c, rest));
        assert(found_node(t, dirpath) == found_node(c, rest));
        lemma_remove_deletes(c, c2, rest, stem);
        assert(s2 =~= s.update(j, c2));
        lemma_find_index_update(s, j, c2, dirpath[0]);
        assert(find_index(s2, dirpath[0]) == j);
        assert(lookup(t2, path) == lookup(c2, rest.push(stem)));
        lemma_leaves_of_decompose(s, j);
        lemma_leaves_of_update(s, j, c2);
    }
}


/// The round trip over a whole path, phrased as the public operations
/// state it: after a successful insert-with-parents of `value` at
/// `path` (whose final segment was free in its target directory),
/// resolving `path` finds a file with exactly that name and value, and
/// every proper prefix of the path resolves to a directory.
pub proof fn lemma_tree_round_trip<V>(
    t1: FSTreeMap<V>,
    t2: FSTreeMap<V>,
    path: Seq<char>,
    value: V,
)
    requires
        is_iwp(
            t1.root,
            t2.root,
            split_path(path).drop_last(),
            split_path(path).last(),
            value,
        ),
        stem_free(t1.root, split_path(path).drop_last(), split_path(path).last()),
    ensures
        lookup(t2.root, split_path(path)) matches Ok(f) && f is File && f.spec_name()@
            == split_path(path).last() && f.spec_value() == value,
        forall|k: int|
            0 <= k < split_path(path).len() ==> (#[trigger] lookup(
                t2.root,
                split_path(path).take(k),
            ) matches Ok(d) && d is Directory),
{
    let segs = split_path(path);
    crate::paths::lemma_split_path_len(path);
    lemma_insert_with_parents_round_trip(
        t1.root,
        t2.root,
        segs.drop_last(),
        segs.last(),
        value,
    );
    assert(segs.drop_last().push(segs.last()) =~= segs);
    assert(forall|k: int|
        0 <= k < segs.len() ==> segs.take(k) =~= segs.drop_last().take(k));
}

} // verus!
