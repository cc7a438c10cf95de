//! Slicing of strings at code-point boundaries.
//!
//! Every position in this module counts code points, never bytes, so the
//! operations are correct for text that holds multi-byte characters.

use vstd::prelude::*;
use vstd::string::StrSliceExecFns;
use vstd::string::StringExecFns;

verus! {

/// `k` trailing code points of `prefix` are the first `k` code points of `label`.
pub open spec fn overlaps(prefix: Seq<char>, label: Seq<char>, k: int) -> bool {
    &&& 0 <= k <= prefix.len()
    &&& k <= label.len()
    &&& prefix.skip(prefix.len() - k) =~= label.take(k)
}

/// `n` is the length of the longest common prefix of `a` and `b`.
pub open spec fn is_common_prefix_len(a: Seq<char>, b: Seq<char>, n: int) -> bool {
    &&& 0 <= n <= a.len()
    &&& n <= b.len()
    &&& forall|i: int| 0 <= i < n ==> a[i] == b[i]
    &&& (n < a.len() && n < b.len() ==> a[n] != b[n])
}

/// The string without its first `from` code points.
pub fn grapheme_slicer_until_end(s: &str, from: usize) -> (r: String)
    requires
        from <= s@.len(),
    ensures
        r@ == s@.skip(from as int),
{
    let n: usize = s.unicode_len();
    let r = String::from_str(s.substring_char(from, n));
    proof {
        assert(s@.subrange(from as int, n as int) =~= s@.skip(from as int));
    }
    r
}

/// The first `until` code points of the string.
pub fn grapheme_slicer_until_point(s: &str, until: usize) -> (r: String)
    requires
        until <= s@.len(),
    ensures
        r@ == s@.take(until as int),
{
    let r = String::from_str(s.substring_char(0, until));
    proof {
        assert(s@.subrange(0, until as int) =~= s@.take(until as int));
    }
    r
}

/// Length, in code points, of the longest common prefix of two strings.
pub fn common_prefix_len(a: &str, b: &str) -> (n: usize)
    ensures
        is_common_prefix_len(a@, b@, n as int),
{
    let la: usize = a.unicode_len();
    let lb: usize = b.unicode_len();
    let mut i: usize = 0;
    while i < la && i < lb
        invariant
            la == a@.len(),
            lb == b@.len(),
            i <= la,
            i <= lb,
            forall|j: int| 0 <= j < i ==> a@[j] == b@[j],
        decreases la - i,
    {
        if a.get_char(i) != b.get_char(i) {
            return i;
        }
        i = i + 1;
    }
    i
}

/// Whether the last `k` code points of `prefix` open `label`.
fn tail_opens(prefix: &str, label: &str, k: usize) -> (r: bool)
    requires
        k <= prefix@.len(),
        k <= label@.len(),
    ensures
        r == overlaps(prefix@, label@, k as int),
{
    let lp: usize = prefix.unicode_len();
    let base: usize = lp - k;
    let mut i: usize = 0;
    while i < k
        invariant
            lp == prefix@.len(),
            base == lp - k,
            k <= label@.len(),
            i <= k,
            forall|j: int| 0 <= j < i ==> prefix@[base + j] == label@[j],
        decreases k - i,
    {
        if prefix.get_char(base + i) != label.get_char(i) {
            proof {
                assert(prefix@.skip(prefix@.len() - k)[i as int] == prefix@[base + i]);
                assert(label@.take(k as int)[i as int] == label@[i as int]);
            }
            return false;
        }
        i = i + 1;
    }
    true
}

/// The overlap between the end of a query and the start of an edge label:
/// the largest `k >= 1` such that the last `k` code points of `prefix` are the
/// first `k` code points of `node`, or `None` when only the empty overlap exists.
pub fn find_common_overlap_of_prefix_with_node(prefix: &str, node: &str) -> (r: Option<usize>)
    ensures
        match r {
            Some(k) => {
                &&& k >= 1
                &&& overlaps(prefix@, node@, k as int)
                &&& forall|j: int| k < j ==> !overlaps(prefix@, node@, j)
            },
            None => forall|j: int| 1 <= j ==> !overlaps(prefix@, node@, j),
        },
{
    let lp: usize = prefix.unicode_len();
    let ln: usize = node.unicode_len();
    let mut k: usize = if lp < ln { lp } else { ln };
    while k >= 1
        invariant
            lp == prefix@.len(),
            ln == node@.len(),
            k <= lp,
            k <= ln,
            forall|j: int| k < j ==> !overlaps(prefix@, node@, j),
        decreases k,
    {
        if tail_opens(prefix, node, k) {
            return Some(k);
        }
        k = k - 1;
    }
    None
}

/// The overlap of `prefix` with `label` as a number: zero when there is none.
pub open spec fn overlap_len(prefix: Seq<char>, label: Seq<char>) -> int {
    if exists|k: int| k >= 1 && overlaps(prefix, label, k) {
        choose|k: int| k >= 1 && overlaps(prefix, label, k) && forall|j: int| k < j ==> !overlaps(prefix, label, j)
    } else {
        0
    }
}

} // verus!
