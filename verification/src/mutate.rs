//! Specifications and recursive workers for the mutating path
//! operations: insert, insert with parent creation, removal, and
//! directory creation.
//!
//! Each operation has a *check* spec saying exactly when it succeeds and
//! with which error it fails, and a relation tying the tree before the
//! call to the tree after a successful call.  The workers mutate only
//! after their check has passed, so a failing operation leaves the tree
//! untouched.

use vstd::prelude::*;
use crate::node::{Node, PathError, find_index, lemma_find_index, lookup, find_child_index};
use crate::paths::{seg_views, str_eq};

verus! {

/// Whether resolving `segs` in `t` reaches an existing directory, and
/// the error otherwise.  This is exactly when `insert` and `remove`
/// (whose `segs` is the path without its stem) succeed.
pub open spec fn dir_check<V>(t: Node<V>, segs: Seq<Seq<char>>) -> Option<PathError> {
    match lookup(t, segs) {
        Ok(n) => if n is Directory {
            None
        } else {
            Some(PathError::NotADirectory)
        },
        Err(e) => Some(e),
    }
}

/// `tnew` is `told` with a file named `stem` holding `value` appended to
/// the directory reached by `dirpath`.  Appending never replaces an
/// existing child: a same-named sibling is allowed and the new file is
/// added last (the allow-and-shadow policy).
pub open spec fn is_insert<V>(
    told: Node<V>,
    tnew: Node<V>,
    dirpath: Seq<Seq<char>>,
    stem: Seq<char>,
    value: V,
) -> bool
    decreases dirpath.len(),
{
    &&& told is Directory
    &&& tnew is Directory
    &&& tnew.spec_name() == told.spec_name()
    &&& if dirpath.len() == 0 {
        &&& tnew.spec_children().len() == told.spec_children().len() + 1
        &&& tnew.spec_children().drop_last() == told.spec_children()
        &&& tnew.spec_children().last() is File
        &&& tnew.spec_children().last().spec_name()@ == stem
        &&& tnew.spec_children().last().spec_value() == value
    } else {
        let j = find_index(told.spec_children(), dirpath[0]);
        &&& j >= 0
        &&& tnew.spec_children() == told.spec_children().update(j, tnew.spec_children()[j])
        &&& is_insert(
            told.spec_children()[j],
            tnew.spec_children()[j],
            dirpath.subrange(1, dirpath.len() as int),
            stem,
            value,
        )
    }
}

/// The children of `s` that are not named `stem`, in their original
/// order.
pub open spec fn keep_except<V>(s: Seq<Node<V>>, stem: Seq<char>) -> Seq<Node<V>>
    decreases s.len(),
{
    if s.len() == 0 {
        s
    } else {
        let rest = keep_except(s.drop_last(), stem);
        if s.last().spec_name()@ == stem {
            rest
        } else {
            rest.push(s.last())
        }
    }
}

/// `tnew` is `told` with every child named `stem` removed from the
/// directory reached by `dirpath`.
pub open spec fn is_remove<V>(
    told: Node<V>,
    tnew: Node<V>,
    dirpath: Seq<Seq<char>>,
    stem: Seq<char>,
) -> bool
    decreases dirpath.len(),
{
    &&& told is Directory
    &&& tnew is Directory
    &&& tnew.spec_name() == told.spec_name()
    &&& if dirpath.len() == 0 {
        tnew.spec_children() == keep_except(told.spec_children(), stem)
    } else {
        let j = find_index(told.spec_children(), dirpath[0]);
        &&& j >= 0
        &&& tnew.spec_children() == told.spec_children().update(j, tnew.spec_children()[j])
        &&& is_remove(
            told.spec_children()[j],
            tnew.spec_children()[j],
            dirpath.subrange(1, dirpath.len() as int),
            stem,
        )
    }
}

/// `d` is a freshly created nest of directories named after `segs`, one
/// below the other, the innermost one empty.
pub open spec fn is_fresh_dir_chain<V>(d: Node<V>, segs: Seq<Seq<char>>) -> bool
    decreases segs.len(),
{
    &&& segs.len() >= 1
    &&& d is Directory
    &&& d.spec_name()@ == segs[0]
    &&& if segs.len() == 1 {
        d.spec_children() == Seq::<Node<V>>::empty()
    } else {
        &&& d.spec_children().len() == 1
        &&& is_fresh_dir_chain(d.spec_children()[0], segs.subrange(1, segs.len() as int))
    }
}

/// `d` is a freshly created nest of directories named after `segs`, the
/// innermost holding exactly one file `stem` with `value`.
pub open spec fn is_fresh_file_chain<V>(
    d: Node<V>,
    segs: Seq<Seq<char>>,
    stem: Seq<char>,
    value: V,
) -> bool
    decreases segs.len(),
{
    &&& segs.len() >= 1
    &&& d is Directory
    &&& d.spec_name()@ == segs[0]
    &&& d.spec_children().len() == 1
    &&& if segs.len() == 1 {
        &&& d.spec_children()[0] is File
        &&& d.spec_children()[0].spec_name()@ == stem
        &&& d.spec_children()[0].spec_value() == value
    } else {
        is_fresh_file_chain(d.spec_children()[0], segs.subrange(1, segs.len() as int), stem, value)
    }
}

/// Whether walking `segs` from `t`, creating what is missing, succeeds;
/// it fails only by needing to create a directory under a file.
pub open spec fn mkdir_check<V>(t: Node<V>, segs: Seq<Seq<char>>) -> Option<PathError>
    decreases segs.len(),
{
    if segs.len() == 0 {
        None
    } else {
        match t {
            Node::File { .. } => Some(PathError::NotADirectory),
            Node::Directory { children, .. } => {
                let j = find_index(children@, segs[0]);
                if j >= 0 {
                    mkdir_check(children@[j], segs.subrange(1, segs.len() as int))
                } else {
                    None
                }
            },
        }
    }
}

/// `tnew` is `told` after finding or creating a directory for every
/// segment of `segs` in turn.  Walking an existing child is a no-op,
/// even when that child is a file and `segs` ends there.
pub open spec fn is_mkdir<V>(told: Node<V>, tnew: Node<V>, segs: Seq<Seq<char>>) -> bool
    decreases segs.len(),
{
    if segs.len() == 0 {
        tnew == told
    } else {
        &&& told is Directory
        &&& tnew is Directory
        &&& tnew.spec_name() == told.spec_name()
        &&& {
            let j = find_index(told.spec_children(), segs[0]);
            if j >= 0 {
                &&& tnew.spec_children() == told.spec_children().update(
                    j,
                    tnew.spec_children()[j],
                )
                &&& is_mkdir(
                    told.spec_children()[j],
                    tnew.spec_children()[j],
                    segs.subrange(1, segs.len() as int),
                )
            } else {
                &&& tnew.spec_children().len() == told.spec_children().len() + 1
                &&& tnew.spec_children().drop_last() == told.spec_children()
                &&& is_fresh_dir_chain(tnew.spec_children().last(), segs)
            }
        }
    }
}

/// Whether inserting with parent creation along `dirpath` succeeds; it
/// fails only by meeting a file where a directory is needed.
pub open spec fn iwp_check<V>(t: Node<V>, dirpath: Seq<Seq<char>>) -> Option<PathError>
    decreases dirpath.len(),
{
    match t {
        Node::File { .. } => Some(PathError::NotADirectory),
        Node::Directory { children, .. } => {
            if dirpath.len() == 0 {
                None
            } else {
                let j = find_index(children@, dirpath[0]);
                if j >= 0 {
                    iwp_check(children@[j], dirpath.subrange(1, dirpath.len() as int))
                } else {
                    None
                }
            }
        },
    }
}

/// `tnew` is `told` after inserting a file `stem` with `value` below
/// `dirpath`, creating every missing intermediate directory on the way.
pub open spec fn is_iwp<V>(
    told: Node<V>,
    tnew: Node<V>,
    dirpath: Seq<Seq<char>>,
    stem: Seq<char>,
    value: V,
) -> bool
    decreases dirpath.len(),
{
    &&& told is Directory
    &&& tnew is Directory
    &&& tnew.spec_name() == told.spec_name()
    &&& if dirpath.len() == 0 {
        &&& tnew.spec_children().len() == told.spec_children().len() + 1
        &&& tnew.spec_children().drop_last() == told.spec_children()
        &&& tnew.spec_children().last() is File
        &&& tnew.spec_children().last().spec_name()@ == stem
        &&& tnew.spec_children().last().spec_value() == value
    } else {
        let j = find_index(told.spec_children(), dirpath[0]);
        if j >= 0 {
            &&& tnew.spec_children() == told.spec_children().update(j, tnew.spec_children()[j])
            &&& is_iwp(
                told.spec_children()[j],
                tnew.spec_children()[j],
                dirpath.subrange(1, dirpath.len() as int),
                stem,
                value,
            )
        } else {
            &&& tnew.spec_children().len() == told.spec_children().len() + 1
            &&& tnew.spec_children().drop_last() == told.spec_children()
            &&& is_fresh_file_chain(tnew.spec_children().last(), dirpath, stem, value)
        }
    }
}

/// Resolves segments `i..n` of `segs` against `node`, read-only.
pub(crate) fn lookup_at<'a, V>(node: &'a Node<V>, segs: &Vec<String>, i: usize, n: usize) -> (r:
    Result<&'a Node<V>, PathError>)
    requires
        i <= n <= segs@.len(),
    ensures
        (match r {
            Ok(c) => Ok::<Node<V>, PathError>(*c),
            Err(e) => Err(e),
        }) == lookup(*node, seg_views(segs@).subrange(i as int, n as int)),
    decreases n - i,
{
    let ghost range = seg_views(segs@).subrange(i as int, n as int);
    if i == n {
        return Ok(node);
    }
    match node {
        Node::File { .. } => Err(PathError::NotADirectory),
        Node::Directory { children, .. } => {
            proof {
                lemma_find_index(children@, segs@[i as int]@);
                assert(range[0] == segs@[i as int]@);
            }
            match find_child_index(children, segs[i].as_str()) {
                Some(j) => {
                    let r = lookup_at(&children[j], segs, i + 1, n);
                    proof {
                        assert(range.subrange(1, range.len() as int) =~= seg_views(
                            segs@,
                        ).subrange(i + 1 as int, n as int));
                    }
                    r
                },
                None => Err(PathError::NotFound),
            }
        },
    }
}

/// Descends the directory segments of `segs` from index `i` on and
/// appends a file named after the last segment.
pub(crate) fn insert_at<V>(node: &mut Node<V>, segs: &Vec<String>, i: usize, value: V)
    requires
        i < segs@.len(),
        dir_check(*old(node), seg_views(segs@).subrange(i as int, segs@.len() - 1)) is None,
    ensures
        is_insert(
            *old(node),
            *final(node),
            seg_views(segs@).subrange(i as int, segs@.len() - 1),
            segs@.last()@,
            value,
        ),
    decreases segs@.len() - i,
{
    let ghost dirpath = seg_views(segs@).subrange(i as int, segs@.len() - 1);
    let n = segs.len();
    if i == n - 1 {
        proof {
            assert(dirpath.len() == 0);
        }
        match node {
            Node::Directory { children, .. } => {
                let name = segs[i].clone();
                children.push(Node::File { name, size: value });
                proof {
                    assert(final(node).spec_children().drop_last() =~= old(
                        node,
                    ).spec_children());
                }
            },
            Node::File { .. } => {
                proof {
                    assert(false);
                }
            },
        }
    } else {
        match node {
            Node::Directory { children, .. } => {
                proof {
                    lemma_find_index(children@, segs@[i as int]@);
                    assert(dirpath[0] == segs@[i as int]@);
                    assert(dirpath.subrange(1, dirpath.len() as int) =~= seg_views(
                        segs@,
                    ).subrange(i + 1 as int, segs@.len() - 1));
                }
                match find_child_index(children, segs[i].as_str()) {
                    Some(j) => {
                        insert_at(&mut children[j], segs, i + 1, value);
                    },
                    None => {
                        proof {
                            assert(false);
                        }
                    },
                }
            },
            Node::File { .. } => {
                proof {
                    assert(false);
                }
            },
        }
    }
}

/// Removes, in place, every child of `children` named `stem`.
pub(crate) fn remove_named<V>(children: &mut Vec<Node<V>>, stem: &str)
    ensures
        final(children)@ == keep_except(old(children)@, stem@),
{
    let ghost orig = old(children)@;
    let ghost mut p: int = 0;
    let mut k: usize = 0;
    while k < children.len()
        invariant
            0 <= p <= orig.len(),
            k as int == keep_except(orig.take(p), stem@).len(),
            children@ == keep_except(orig.take(p), stem@) + orig.skip(p),
        decreases orig.len() - p,
    {
        proof {
            assert(orig.take(p + 1).drop_last() =~= orig.take(p));
            assert(children@[k as int] == orig[p]);
        }
        if str_eq(children[k].get_name().as_str(), stem) {
            children.remove(k);
            proof {
                assert(children@ =~= keep_except(orig.take(p + 1), stem@) + orig.skip(p + 1));
            }
        } else {
            k += 1;
            proof {
                assert(children@ =~= keep_except(orig.take(p + 1), stem@) + orig.skip(p + 1));
            }
        }
        proof {
            p = p + 1;
        }
    }
    proof {
        assert(p == orig.len());
        assert(orig.take(p) =~= orig);
        assert(children@ =~= keep_except(orig, stem@));
    }
}

/// Descends the directory segments of `segs` from index `i` on and
/// removes every child named after the last segment.
pub(crate) fn remove_at<V>(node: &mut Node<V>, segs: &Vec<String>, i: usize)
    requires
        i < segs@.len(),
        dir_check(*old(node), seg_views(segs@).subrange(i as int, segs@.len() - 1)) is None,
    ensures
        is_remove(
            *old(node),
            *final(node),
            seg_views(segs@).subrange(i as int, segs@.len() - 1),
            segs@.last()@,
        ),
    decreases segs@.len() - i,
{
    let ghost dirpath = seg_views(segs@).subrange(i as int, segs@.len() - 1);
    let n = segs.len();
    if i == n - 1 {
        proof {
            assert(dirpath.len() == 0);
        }
        match node {
            Node::Directory { children, .. } => {
                remove_named(children, segs[n - 1].as_str());
            },
            Node::File { .. } => {
                proof {
                    assert(false);
                }
            },
        }
    } else {
        match node {
            Node::Directory { children, .. } => {
                proof {
                    lemma_find_index(children@, segs@[i as int]@);
                    assert(dirpath[0] == segs@[i as int]@);
                    assert(dirpath.subrange(1, dirpath.len() as int) =~= seg_views(
                        segs@,
                    ).subrange(i + 1 as int, segs@.len() - 1));
                }
                match find_child_index(children, segs[i].as_str()) {
                    Some(j) => {
                        remove_at(&mut children[j], segs, i + 1);
                    },
                    None => {
                        proof {
                            assert(false);
                        }
                    },
                }
            },
            Node::File { .. } => {
                proof {
                    assert(false);
                }
            },
        }
    }
}

/// Computes whether the find-or-create walk of `segs` from index `i`
/// would succeed, without changing anything.
pub(crate) fn mkdir_check_at<V>(node: &Node<V>, segs: &Vec<String>, i: usize) -> (r: Option<
    PathError,
>)
    requires
        i <= segs@.len(),
    ensures
        r == mkdir_check(*node, seg_views(segs@).subrange(i as int, segs@.len() as int)),
    decreases segs@.len() - i,
{
    let ghost walk = seg_views(segs@).subrange(i as int, segs@.len() as int);
    if i == segs.len() {
        return None;
    }
    match node {
        Node::File { .. } => Some(PathError::NotADirectory),
        Node::Directory { children, .. } => {
            proof {
                lemma_find_index(children@, segs@[i as int]@);
                assert(walk[0] == segs@[i as int]@);
            }
            match find_child_index(children, segs[i].as_str()) {
                Some(j) => {
                    let r = mkdir_check_at(&children[j], segs, i + 1);
                    proof {
                        assert(walk.subrange(1, walk.len() as int) =~= seg_views(
                            segs@,
                        ).subrange(i + 1 as int, segs@.len() as int));
                    }
                    r
                },
                None => None,
            }
        },
    }
}

/// Walks `segs` from index `i` on, creating a directory for every
/// segment that names no existing child.
pub(crate) fn mkdir_at<V>(node: &mut Node<V>, segs: &Vec<String>, i: usize)
    requires
        i <= segs@.len(),
        mkdir_check(*old(node), seg_views(segs@).subrange(i as int, segs@.len() as int)) is None,
    ensures
        is_mkdir(
            *old(node),
            *final(node),
            seg_views(segs@).subrange(i as int, segs@.len() as int),
        ),
    decreases segs@.len() - i,
{
    let ghost walk = seg_views(segs@).subrange(i as int, segs@.len() as int);
    if i == segs.len() {
        proof {
            assert(walk.len() == 0);
        }
        return ;
    }
    match node {
        Node::Directory { children, .. } => {
            proof {
                lemma_find_index(children@, segs@[i as int]@);
                assert(walk[0] == segs@[i as int]@);
                assert(walk.subrange(1, walk.len() as int) =~= seg_views(segs@).subrange(
                    i + 1 as int,
                    segs@.len() as int,
                ));
            }
            match find_child_index(children, segs[i].as_str()) {
                Some(j) => {
                    mkdir_at(&mut children[j], segs, i + 1);
                },
                None => {
                    let name = segs[i].clone();
                    children.push(Node::Directory { name, children: Vec::new() });
                    let last = children.len() - 1;
                    let ghost fresh = children@[last as int];
                    proof {
                        assert(fresh.spec_children() =~= Seq::<Node<V>>::empty());
                        assert(mkdir_check(
                            fresh,
                            seg_views(segs@).subrange(i + 1 as int, segs@.len() as int),
                        ) is None);
                    }
                    mkdir_at(&mut children[last], segs, i + 1);
                    proof {
                        let rest = seg_views(segs@).subrange(i + 1 as int, segs@.len() as int);
                        let c2 = final(node).spec_children().last();
                        lemma_mkdir_fresh(fresh, c2, rest);
                        assert(seq![walk[0]] + rest =~= walk);
                        assert(final(node).spec_children().drop_last() =~= old(
                            node,
                        ).spec_children());
                    }
                },
            }
        },
        Node::File { .. } => {
            proof {
                assert(false);
            }
        },
    }
}

/// What find-or-create does below a freshly created empty directory: it
/// builds exactly the fresh chain of directories.
proof fn lemma_mkdir_fresh<V>(d: Node<V>, d2: Node<V>, segs: Seq<Seq<char>>)
    requires
        d is Directory,
        d.spec_children() == Seq::<Node<V>>::empty(),
        is_mkdir(d, d2, segs),
    ensures
        is_fresh_dir_chain(d2, seq![d.spec_name()@] + segs),
{
    let whole = seq![d.spec_name()@] + segs;
    assert(whole[0] == d.spec_name()@);
    if segs.len() == 0 {
        assert(d2 == d);
    } else {
        assert(find_index(d.spec_children(), segs[0]) == -1);
        assert(d2.spec_children().len() == 1);
        assert(d2.spec_children().last() == d2.spec_children()[0]);
        assert(is_fresh_dir_chain(d2.spec_children()[0], segs));
        assert(whole.subrange(1, whole.len() as int) =~= segs);
    }
}

/// Computes whether descending or creating the directory segments
/// `i..len-1` of `segs` would succeed, without changing anything.
pub(crate) fn iwp_check_at<V>(node: &Node<V>, segs: &Vec<String>, i: usize) -> (r: Option<
    PathError,
>)
    requires
        i < segs@.len(),
    ensures
        r == iwp_check(*node, seg_views(segs@).subrange(i as int, segs@.len() - 1)),
    decreases segs@.len() - i,
{
    let ghost dirpath = seg_views(segs@).subrange(i as int, segs@.len() - 1);
    let n = segs.len();
    match node {
        Node::File { .. } => Some(PathError::NotADirectory),
        Node::Directory { children, .. } => {
            if i == n - 1 {
                return None;
            }
            proof {
                lemma_find_index(children@, segs@[i as int]@);
                assert(dirpath[0] == segs@[i as int]@);
            }
            match find_child_index(children, segs[i].as_str()) {
                Some(j) => {
                    let r = iwp_check_at(&children[j], segs, i + 1);
                    proof {
                        assert(dirpath.subrange(1, dirpath.len() as int) =~= seg_views(
                            segs@,
                        ).subrange(i + 1 as int, segs@.len() - 1));
                    }
                    r
                },
                None => None,
            }
        },
    }
}

/// Descends the directory segments of `segs` from index `i`, creating
/// missing intermediate directories, and appends a file named after the
/// last segment.
pub(crate) fn insert_with_parents_at<V>(node: &mut Node<V>, segs: &Vec<String>, i: usize, value: V)
    requires
        i < segs@.len(),
        iwp_check(*old(node), seg_views(segs@).subrange(i as int, segs@.len() - 1)) is None,
    ensures
        is_iwp(
            *old(node),
            *final(node),
            seg_views(segs@).subrange(i as int, segs@.len() - 1),
            segs@.last()@,
            value,
        ),
    decreases segs@.len() - i,
{
    let ghost dirpath = seg_views(segs@).subrange(i as int, segs@.len() - 1);
    let n = segs.len();
    if i == n - 1 {
        proof {
            assert(dirpath.len() == 0);
        }
        match node {
            Node::Directory { children, .. } => {
                let name = segs[i].clone();
                children.push(Node::File { name, size: value });
                proof {
                    assert(final(node).spec_children().drop_last() =~= old(
                        node,
                    ).spec_children());
                }
            },
            Node::File { .. } => {
                proof {
                    assert(false);
                }
            },
        }
    } else {
        match node {
            Node::Directory { children, .. } => {
                proof {
                    lemma_find_index(children@, segs@[i as int]@);
                    assert(dirpath[0] == segs@[i as int]@);
                    assert(dirpath.subrange(1, dirpath.len() as int) =~= seg_views(
                        segs@,
                    ).subrange(i + 1 as int, segs@.len() - 1));
                }
                match find_child_index(children, segs[i].as_str()) {
                    Some(j) => {
                        insert_with_parents_at(&mut children[j], segs, i + 1, value);
                    },
                    None => {
                        let name = segs[i].clone();
                        children.push(Node::Directory { name, children: Vec::new() });
                        let last = children.len() - 1;
                        let ghost fresh = children@[last as int];
                        proof {
                            assert(fresh.spec_children() =~= Seq::<Node<V>>::empty());
                            assert(iwp_check(
                                fresh,
                                seg_views(segs@).subrange(i + 1 as int, segs@.len() - 1),
                            ) is None);
                        }
                        insert_with_parents_at(&mut children[last], segs, i + 1, value);
                        proof {
                            let rest = seg_views(segs@).subrange(i + 1 as int, segs@.len() - 1);
                            let c2 = final(node).spec_children().last();
                            lemma_iwp_fresh(fresh, c2, rest, segs@.last()@, value);
                            assert(seq![dirpath[0]] + rest =~= dirpath);
                            assert(final(node).spec_children().drop_last() =~= old(
                                node,
                            ).spec_children());
                        }
                    },
                }
            },
            Node::File { .. } => {
                proof {
                    assert(false);
                }
            },
        }
    }
}

/// What insert-with-parents does below a freshly created empty
/// directory: it builds exactly the fresh chain ending in the new file.
proof fn lemma_iwp_fresh<V>(
    d: Node<V>,
    d2: Node<V>,
    dirpath: Seq<Seq<char>>,
    stem: Seq<char>,
    value: V,
)
    requires
        d is Directory,
        d.spec_children() == Seq::<Node<V>>::empty(),
        is_iwp(d, d2, dirpath, stem, value),
    ensures
        is_fresh_file_chain(d2, seq![d.spec_name()@] + dirpath, stem, value),
{
    let whole = seq![d.spec_name()@] + dirpath;
    assert(whole[0] == d.spec_name()@);
    if dirpath.len() == 0 {
        assert(d2.spec_children().len() == 1);
        assert(d2.spec_children().last() == d2.spec_children()[0]);
    } else {
        assert(find_index(d.spec_children(), dirpath[0]) == -1);
        assert(d2.spec_children().len() == 1);
        assert(d2.spec_children().last() == d2.spec_children()[0]);
        assert(is_fresh_file_chain(d2.spec_children()[0], dirpath, stem, value));
        assert(whole.subrange(1, whole.len() as int) =~= dirpath);
    }
}

} // verus!
