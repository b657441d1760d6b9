//! The owning container: a root directory named `root` with the
//! path-addressed public operations.

use vstd::prelude::*;
use vstd::string::StringExecFns;
use crate::node::{Node, PathError, lookup};
use crate::mutate::{
    dir_check, is_insert, is_remove, is_mkdir, is_iwp, mkdir_check, iwp_check, lookup_at,
    insert_at, remove_at, mkdir_at, mkdir_check_at, iwp_check_at, insert_with_parents_at,
};
use crate::paths::{split_path, seg_views, split_segments};

verus! {

/// A path-addressed hierarchical container owning one root directory.
///
/// Paths are `/`-delimited strings; each segment, empty ones included,
/// is matched literally against child names, starting from the root's
/// children.  The root itself is not a path component.
pub struct FSTreeMap<V> {
    pub root: Node<V>,
}

impl<V> FSTreeMap<V> {
    /// The container's structural invariant: the root is a directory
    /// named `root`.
    pub open spec fn wf(self) -> bool {
        &&& self.root is Directory
        &&& self.root.spec_name()@ == "root"@
    }

    /// An empty container: a root directory with no children.
    pub fn new() -> (r: Self)
        ensures
            r.wf(),
            r.root.spec_children() == Seq::<Node<V>>::empty(),
    {
        FSTreeMap {
            root: Node::Directory { name: String::from_str("root"), children: Vec::new() },
        }
    }

    /// Resolves a path to a borrow of the node it names; `NotFound` if
    /// some segment names no child, `NotADirectory` if a non-terminal
    /// segment resolves to a file.
    pub fn get_node<'a>(&'a self, path: &str) -> (r: Result<&'a Node<V>, PathError>)
        ensures
            (match r {
                Ok(n) => Ok::<Node<V>, PathError>(*n),
                Err(e) => Err(e),
            }) == lookup(self.root, split_path(path@)),
    {
        let segs = split_segments(path);
        let n = segs.len();
        let r = lookup_at(&self.root, &segs, 0, n);
        proof {
            assert(seg_views(segs@).subrange(0, n as int) =~= split_path(path@));
        }
        r
    }

    /// Resolves a path to the value of the file it names; `NotAFile` if
    /// it names a directory, else as `get_node` fails.
    pub fn get_size<'a>(&'a self, path: &str) -> (r: Result<&'a V, PathError>)
        ensures
            (match r {
                Ok(v) => Ok::<V, PathError>(*v),
                Err(e) => Err(e),
            }) == (match lookup(self.root, split_path(path@)) {
                Ok(node) => if node is File {
                    Ok(node.spec_value())
                } else {
                    Err(PathError::NotAFile)
                },
                Err(e) => Err(e),
            }),
    {
        match self.get_node(path) {
            Ok(node) => match node {
                Node::File { size, .. } => Ok(size),
                Node::Directory { .. } => Err(PathError::NotAFile),
            },
            Err(e) => Err(e),
        }
    }

    /// Resolves a path to a borrow of the children of the directory it
    /// names; `NotADirectory` if it names a file, else as `get_node`
    /// fails.
    pub fn get_children<'a>(&'a self, path: &str) -> (r: Result<&'a Vec<Node<V>>, PathError>)
        ensures
            (match r {
                Ok(c) => Ok::<Seq<Node<V>>, PathError>(c@),
                Err(e) => Err(e),
            }) == (match lookup(self.root, split_path(path@)) {
                Ok(node) => if node is Directory {
                    Ok(node.spec_children())
                } else {
                    Err(PathError::NotADirectory)
                },
                Err(e) => Err(e),
            }),
    {
        match self.get_node(path) {
            Ok(node) => match node {
                Node::Directory { children, .. } => Ok(children),
                Node::File { .. } => Err(PathError::NotADirectory),
            },
            Err(e) => Err(e),
        }
    }

    /// Appends a file with `value` under the path's directory part,
    /// named after its last segment.  Every intermediate segment must
    /// already exist as a directory.  A same-named sibling is not
    /// rejected: insertion always appends, and lookups then find the
    /// older child first.  On failure the tree is unchanged.
    pub fn insert(&mut self, path: &str, value: V) -> (r: Result<(), PathError>)
        ensures
            (match r {
                Ok(_) => None::<PathError>,
                Err(e) => Some(e),
            }) == dir_check(old(self).root, split_path(path@).drop_last()),
            r is Ok ==> is_insert(
                old(self).root,
                final(self).root,
                split_path(path@).drop_last(),
                split_path(path@).last(),
                value,
            ),
            r is Err ==> *final(self) == *old(self),
            old(self).wf() && r is Ok ==> final(self).wf(),
    {
        let segs = split_segments(path);
        let n = segs.len();
        proof {
            assert(seg_views(segs@).subrange(0, n - 1) =~= split_path(path@).drop_last());
        }
        let chk: Option<PathError> = match lookup_at(&self.root, &segs, 0, n - 1) {
            Ok(nd) => match nd {
                Node::Directory { .. } => None,
                Node::File { .. } => Some(PathError::NotADirectory),
            },
            Err(e) => Some(e),
        };
        match chk {
            None => {
                insert_at(&mut self.root, &segs, 0, value);
                Ok(())
            },
            Some(e) => Err(e),
        }
    }

    /// Removes, from the directory named by the path's directory part,
    /// every child named after its last segment.  On failure the tree
    /// is unchanged.
    pub fn remove(&mut self, path: &str) -> (r: Result<(), PathError>)
        ensures
            (match r {
                Ok(_) => None::<PathError>,
                Err(e) => Some(e),
            }) == dir_check(old(self).root, split_path(path@).drop_last()),
            r is Ok ==> is_remove(
                old(self).root,
                final(self).root,
                split_path(path@).drop_last(),
                split_path(path@).last(),
            ),
            r is Err ==> *final(self) == *old(self),
            old(self).wf() && r is Ok ==> final(self).wf(),
    {
        let segs = split_segments(path);
        let n = segs.len();
        proof {
            assert(seg_views(segs@).subrange(0, n - 1) =~= split_path(path@).drop_last());
        }
        let chk: Option<PathError> = match lookup_at(&self.root, &segs, 0, n - 1) {
            Ok(nd) => match nd {
                Node::Directory { .. } => None,
                Node::File { .. } => Some(PathError::NotADirectory),
            },
            Err(e) => Some(e),
        };
        match chk {
            None => {
                remove_at(&mut self.root, &segs, 0);
                Ok(())
            },
            Some(e) => Err(e),
        }
    }

    /// Finds or creates a directory for every segment of the path in
    /// turn; re-running it on an existing directory path changes
    /// nothing.  On failure the tree is unchanged.
    pub fn make_directory(&mut self, path: &str) -> (r: Result<(), PathError>)
        ensures
            (match r {
                Ok(_) => None::<PathError>,
                Err(e) => Some(e),
            }) == mkdir_check(old(self).root, split_path(path@)),
            r is Ok ==> is_mkdir(old(self).root, final(self).root, split_path(path@)),
            r is Err ==> *final(self) == *old(self),
            old(self).wf() && r is Ok ==> final(self).wf(),
    {
        let segs = split_segments(path);
        proof {
            assert(seg_views(segs@).subrange(0, segs@.len() as int) =~= split_path(path@));
        }
        let chk = mkdir_check_at(&self.root, &segs, 0);
        match chk {
            None => {
                mkdir_at(&mut self.root, &segs, 0);
                Ok(())
            },
            Some(e) => Err(e),
        }
    }

    /// As `insert`, but every missing intermediate directory along the
    /// path's directory part is created on demand; it never fails for a
    /// missing parent.  On failure the tree is unchanged.
    pub fn insert_with_parents(&mut self, path: &str, value: V) -> (r: Result<(), PathError>)
        ensures
            (match r {
                Ok(_) => None::<PathError>,
                Err(e) => Some(e),
            }) == iwp_check(old(self).root, split_path(path@).drop_last()),
            r is Ok ==> is_iwp(
                old(self).root,
                final(self).root,
                split_path(path@).drop_last(),
                split_path(path@).last(),
                value,
            ),
            r is Err ==> *final(self) == *old(self),
            old(self).wf() && r is Ok ==> final(self).wf(),
    {
        let segs = split_segments(path);
        let n = segs.len();
        proof {
            assert(seg_views(segs@).subrange(0, n - 1) =~= split_path(path@).drop_last());
        }
        let chk = iwp_check_at(&self.root, &segs, 0);
        match chk {
            None => {
                insert_with_parents_at(&mut self.root, &segs, 0, value);
                Ok(())
            },
            Some(e) => Err(e),
        }
    }
}

} // verus!
