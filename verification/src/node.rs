//! The recursive tree node: a directory with owned children, or a file
//! with a payload value, together with its specification model.

use vstd::prelude::*;
use crate::paths::str_eq;

verus! {

/// How a path operation can fail.
///
/// `NotFound` is the recoverable "nothing there" outcome: some segment of
/// the path names no child.  `NotADirectory` is the structural violation
/// of treating a file as a container (descending through it, creating
/// under it, appending to it or removing from it).  `NotAFile` is the
/// converse violation: asking a directory for a file's value.
#[derive(Clone, Copy, Debug, PartialEq, Eq, Structural)]
pub enum PathError {
    NotFound,
    NotADirectory,
    NotAFile,
}

/// One element of the tree: a directory holding an ordered sequence of
/// exclusively owned children, or a file holding one payload value.
pub enum Node<V> {
    Directory { name: String, children: Vec<Node<V>> },
    File { name: String, size: V },
}

impl<V> Node<V> {
    /// The node's name, whichever variant it is.
    pub open spec fn spec_name(self) -> String {
        match self {
            Node::Directory { name, .. } => name,
            Node::File { name, .. } => name,
        }
    }

    /// The node's children; a file has none.
    pub open spec fn spec_children(self) -> Seq<Node<V>> {
        match self {
            Node::Directory { children, .. } => children@,
            Node::File { .. } => Seq::empty(),
        }
    }

    /// The payload of a file node.
    pub open spec fn spec_value(self) -> V
        recommends
            self is File,
    {
        match self {
            Node::File { size, .. } => size,
            Node::Directory { .. } => vstd::pervasive::arbitrary(),
        }
    }
}

/// The index of the first node in `s` whose name reads `name`, or `-1`
/// if there is none.
pub open spec fn find_index<V>(s: Seq<Node<V>>, name: Seq<char>) -> int
    decreases s.len(),
{
    if s.len() == 0 {
        -1
    } else if s[0].spec_name()@ == name {
        0
    } else {
        let r = find_index(s.subrange(1, s.len() as int), name);
        if r == -1 {
            -1
        } else {
            r + 1
        }
    }
}

/// `find_index` returns a bounded index of the first match, or `-1`
/// exactly when nothing matches.
pub proof fn lemma_find_index<V>(s: Seq<Node<V>>, name: Seq<char>)
    ensures
        -1 <= find_index(s, name) < s.len(),
        find_index(s, name) == -1 ==> forall|k: int|
            0 <= k < s.len() ==> (#[trigger] s[k].spec_name())@ != name,
        find_index(s, name) >= 0 ==> s[find_index(s, name)].spec_name()@ == name,
        find_index(s, name) >= 0 ==> forall|k: int|
            0 <= k < find_index(s, name) ==> (#[trigger] s[k].spec_name())@ != name,
    decreases s.len(),
{
    if s.len() > 0 && s[0].spec_name()@ != name {
        let rest = s.subrange(1, s.len() as int);
        lemma_find_index(rest, name);
        assert(forall|k: int| 1 <= k < s.len() ==> s[k] == rest[k - 1]);
    }
}

/// Resolves a sequence of path segments against a node: at each step the
/// current node must be a directory (else `NotADirectory`) holding a
/// child with the segment's name (else `NotFound`); name clashes resolve
/// to the first matching child.
pub open spec fn lookup<V>(t: Node<V>, segs: Seq<Seq<char>>) -> Result<Node<V>, PathError>
    decreases segs.len(),
{
    if segs.len() == 0 {
        Ok(t)
    } else {
        match t {
            Node::File { .. } => Err(PathError::NotADirectory),
            Node::Directory { children, .. } => {
                let j = find_index(children@, segs[0]);
                if j == -1 {
                    Err(PathError::NotFound)
                } else {
                    lookup(children@[j], segs.subrange(1, segs.len() as int))
                }
            },
        }
    }
}

/// The file leaves below a node, in depth-first, left-to-right order,
/// each as its name paired with its value.
pub open spec fn leaves<V>(t: Node<V>) -> Seq<(String, V)>
    decreases t,
{
    match t {
        Node::File { name, size } => seq![(name, size)],
        Node::Directory { children, .. } => leaves_of(children@),
    }
}

/// The concatenated leaves of a sequence of sibling nodes.
pub open spec fn leaves_of<V>(s: Seq<Node<V>>) -> Seq<(String, V)>
    decreases s,
{
    if s.len() == 0 {
        Seq::empty()
    } else {
        leaves(s[0]) + leaves_of(s.subrange(1, s.len() as int))
    }
}

/// The values of the file leaves below a node, in traversal order.
pub open spec fn leaf_values<V>(t: Node<V>) -> Seq<V> {
    leaves(t).map_values(|l: (String, V)| l.1)
}

/// Finds the index of the first child in `children` named `name`.
pub(crate) fn find_child_index<V>(children: &Vec<Node<V>>, name: &str) -> (r: Option<usize>)
    ensures
        match r {
            Some(j) => find_index(children@, name@) == j as int,
            None => find_index(children@, name@) == -1,
        },
{
    proof {
        lemma_find_index(children@, name@);
    }
    let mut k: usize = 0;
    while k < children.len()
        invariant
            k <= children@.len(),
            find_index(children@, name@) == -1 || find_index(children@, name@) >= k,
            -1 <= find_index(children@, name@) < children@.len(),
            find_index(children@, name@) >= 0 ==> children@[find_index(
                children@,
                name@,
            )].spec_name()@ == name@,
            find_index(children@, name@) >= 0 ==> forall|m: int|
                0 <= m < find_index(children@, name@) ==> (#[trigger] children@[m].spec_name())@
                    != name@,
            find_index(children@, name@) == -1 ==> forall|m: int|
                0 <= m < children@.len() ==> (#[trigger] children@[m].spec_name())@ != name@,
            forall|m: int| 0 <= m < k ==> (#[trigger] children@[m].spec_name())@ != name@,
        decreases children@.len() - k,
    {
        if str_eq(children[k].get_name().as_str(), name) {
            return Some(k);
        }
        k += 1;
    }
    None
}

impl<V> Node<V> {
    /// The node's name, whichever variant it is.
    pub fn get_name(&self) -> (r: &String)
        ensures
            *r == self.spec_name(),
    {
        match self {
            Node::Directory { name, .. } => name,
            Node::File { name, .. } => name,
        }
    }

    /// A mutable borrow of the first child with the given name; nothing
    /// if this node is a file or no child matches.  Only the chosen child
    /// can change through the returned borrow; the node's name and its
    /// other children stay as they were.
    pub fn get_mut_child<'a>(&'a mut self, name: &str) -> (r: Option<&'a mut Node<V>>)
        ensures
            match r {
                Some(c) => {
                    let j = find_index(old(self).spec_children(), name@);
                    &&& j >= 0
                    &&& *c == old(self).spec_children()[j]
                    &&& *final(self) is Directory
                    &&& final(self).spec_name() == old(self).spec_name()
                    &&& final(self).spec_children() == old(self).spec_children().update(
                        j,
                        *final(c),
                    )
                },
                None => {
                    &&& find_index(old(self).spec_children(), name@) == -1
                    &&& *final(self) == *old(self)
                },
            },
    {
        match self {
            Node::Directory { children, .. } => {
                proof {
                    lemma_find_index(children@, name@);
                }
                match find_child_index(children, name) {
                    Some(j) => Some(&mut children[j]),
                    None => None,
                }
            },
            Node::File { .. } => None,
        }
    }

    /// Appends a new empty directory child with the given name and
    /// returns a mutable borrow of it.  Directories cannot be created
    /// under a file.
    pub fn make_directory<'a>(&'a mut self, name: &str) -> (r: &'a mut Node<V>)
        requires
            *old(self) is Directory,
        ensures
            *r is Directory,
            r.spec_name()@ == name@,
            r.spec_children() == Seq::<Node<V>>::empty(),
            *final(self) is Directory,
            final(self).spec_name() == old(self).spec_name(),
            final(self).spec_children() == old(self).spec_children().push(*final(r)),
    {
        match self {
            Node::Directory { children, .. } => {
                let new_node = Node::Directory { name: name.to_owned(), children: Vec::new() };
                children.push(new_node);
                let last = children.len() - 1;
                &mut children[last]
            },
            Node::File { .. } => {
                proof {
                    assert(false);
                }
                vstd::pervasive::unreached()
            },
        }
    }

    /// A borrow of the first child with the given name, by a linear scan;
    /// nothing if this node is a file or no child matches.
    pub fn get_child<'a>(&'a self, name: &str) -> (r: Option<&'a Node<V>>)
        ensures
            match r {
                Some(c) => find_index(self.spec_children(), name@) >= 0 && *c
                    == self.spec_children()[find_index(self.spec_children(), name@)],
                None => find_index(self.spec_children(), name@) == -1,
            },
    {
        match self {
            Node::Directory { children, .. } => {
                proof {
                    lemma_find_index(children@, name@);
                }
                match find_child_index(children, name) {
                    Some(j) => Some(&children[j]),
                    None => None,
                }
            },
            Node::File { .. } => None,
        }
    }
}

} // verus!
