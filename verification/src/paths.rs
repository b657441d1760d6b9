//! Splitting a path string into its `/`-separated segments.
//!
//! Splitting follows `str::split('/')`: it never yields an empty result,
//! the empty string splits into one empty segment, and empty segments
//! produced by leading, trailing or doubled separators are kept as
//! literal (empty) names.

use vstd::prelude::*;
use vstd::string::StrSliceExecFns;
use vstd::string::StringExecFns;

verus! {

/// The `/`-separated segments of a path, each as a sequence of characters.
pub open spec fn split_path(s: Seq<char>) -> Seq<Seq<char>>
    decreases s.len(),
{
    if s.len() == 0 {
        seq![Seq::<char>::empty()]
    } else if s.last() == '/' {
        split_path(s.drop_last()).push(Seq::<char>::empty())
    } else {
        let prev = split_path(s.drop_last());
        prev.update(prev.len() - 1, prev.last().push(s.last()))
    }
}

/// Splitting always yields at least one segment.
pub proof fn lemma_split_path_len(s: Seq<char>)
    ensures
        split_path(s).len() >= 1,
    decreases s.len(),
{
    if s.len() > 0 {
        lemma_split_path_len(s.drop_last());
    }
}

/// The views of a sequence of segment strings.
pub open spec fn seg_views(segs: Seq<String>) -> Seq<Seq<char>> {
    segs.map_values(|s: String| s@)
}

/// Character-for-character equality of two string slices.
pub fn str_eq(a: &str, b: &str) -> (r: bool)
    ensures
        r == (a@ == b@),
{
    let na = a.unicode_len();
    let nb = b.unicode_len();
    if na != nb {
        proof {
            assert(a@.len() != b@.len());
        }
        return false;
    }
    let mut i: usize = 0;
    while i < na
        invariant
            i <= na,
            na == a@.len(),
            na == b@.len(),
            forall|k: int| 0 <= k < i ==> a@[k] == b@[k],
        decreases na - i,
    {
        if a.get_char(i) != b.get_char(i) {
            return false;
        }
        i += 1;
    }
    proof {
        assert(a@ =~= b@);
    }
    true
}

/// Splits a path on `/` into its segments, as owned strings.
pub fn split_segments(path: &str) -> (segs: Vec<String>)
    ensures
        seg_views(segs@) == split_path(path@),
        segs@.len() >= 1,
{
    let n = path.unicode_len();
    let mut segs: Vec<String> = Vec::new();
    let mut start: usize = 0;
    let mut i: usize = 0;
    while i < n
        invariant
            i <= n,
            start <= i,
            n == path@.len(),
            seg_views(segs@) == split_path(path@.take(i as int)).drop_last(),
            path@.subrange(start as int, i as int) == split_path(path@.take(i as int)).last(),
        decreases n - i,
    {
        proof {
            lemma_split_path_len(path@.take(i as int));
            lemma_split_path_len(path@.take(i + 1 as int));
            assert(path@.take(i + 1 as int).drop_last() =~= path@.take(i as int));
        }
        let c = path.get_char(i);
        if c == '/' {
            let seg = path.substring_char(start, i);
            segs.push(String::from_str(seg));
            proof {
                let before = split_path(path@.take(i as int));
                let after = split_path(path@.take(i + 1 as int));
                assert(after =~~= before.push(Seq::<char>::empty()));
                assert(seg_views(segs@) =~~= before.drop_last().push(before.last()));
                assert(before.drop_last().push(before.last()) =~~= before);
                assert(after.drop_last() =~~= before);
                assert(path@.subrange(i + 1 as int, i + 1 as int) =~= Seq::<char>::empty());
            }
            start = i + 1;
        } else {
            proof {
                let before = split_path(path@.take(i as int));
                let after = split_path(path@.take(i + 1 as int));
                assert(after =~~= before.update(before.len() - 1, before.last().push(path@[i as int])));
                assert(after.drop_last() =~~= before.drop_last());
                assert(after.last() =~= path@.subrange(start as int, i + 1 as int));
            }
        }
        i += 1;
    }
    proof {
        assert(path@.take(n as int) =~= path@);
        lemma_split_path_len(path@);
    }
    let last = path.substring_char(start, n);
    segs.push(String::from_str(last));
    proof {
        let full = split_path(path@);
        assert(seg_views(segs@) =~~= full.drop_last().push(full.last()));
        assert(full.drop_last().push(full.last()) =~~= full);
    }
    segs
}

} // verus!
