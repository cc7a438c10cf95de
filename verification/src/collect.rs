//! Collection of the keys and payloads below a node.

use vstd::prelude::*;
use vstd::string::StringExecFns;
use crate::canon::lemma_route;
use crate::canon::lemma_stored_head;
use crate::node::Node;
use crate::node::head_index;
use crate::node::starts_with;
use crate::slicer::find_common_overlap_of_prefix_with_node;
use crate::slicer::grapheme_slicer_until_end;
use crate::slicer::overlap_len;
use crate::slicer::overlaps;

verus! {

/// A key found below a match, with the payload stored under it.
#[derive(Debug)]
pub struct Entry<'a, V> {
    pub key: String,
    pub val: &'a Option<V>,
}

/// The labels of a stack, joined from the bottom up.
pub open spec fn stack_text(stack: Seq<String>) -> Seq<char>
    decreases stack.len(),
{
    if stack.len() == 0 {
        Seq::empty()
    } else {
        stack_text(stack.drop_last()) + stack.last()@
    }
}

/// The part of the label of the matched node that lies beyond its overlap
/// with the end of the query.
pub open spec fn root_fragment(prefix: Seq<char>, label: Seq<char>) -> Seq<char> {
    label.skip(overlap_len(prefix, label))
}

/// What a node puts on the stack of labels.
pub open spec fn fragment(is_root: bool, prefix: Seq<char>, label: Seq<char>) -> Seq<char> {
    if is_root {
        root_fragment(prefix, label)
    } else {
        label
    }
}

/// The entries hold, in order, the given keys and payloads.
pub open spec fn entries_match<V>(entries: Seq<Entry<'_, V>>, expected: Seq<(Seq<char>, Option<V>)>) -> bool {
    &&& entries.len() == expected.len()
    &&& forall|i: int|
        0 <= i < entries.len() ==> (#[trigger] entries[i]).key@ == expected[i].0 && *entries[i].val
            == expected[i].1
}

/// The strings hold, in order, the given keys.
pub open spec fn keys_match<V>(keys: Seq<String>, expected: Seq<(Seq<char>, Option<V>)>) -> bool {
    &&& keys.len() == expected.len()
    &&& forall|i: int| 0 <= i < keys.len() ==> (#[trigger] keys[i])@ == expected[i].0
}

impl<V> Node<V> {
    /// The keys stored in this subtree with their payloads, in depth-first
    /// order, a node before its children and the children in their order.
    /// `path` is the text from the start of the key to the end of this node's
    /// label.
    pub open spec fn collect(&self, path: Seq<char>) -> Seq<(Seq<char>, Option<V>)>
        decreases self, 1nat, 0nat,
    {
        let own = if self.terminal {
            seq![(path, self.value)]
        } else {
            Seq::empty()
        };
        own + self.collect_children(path, self.children@.len())
    }

    /// What the first `upto` children contribute to `collect`.
    pub open spec fn collect_children(&self, path: Seq<char>, upto: nat) -> Seq<(Seq<char>, Option<V>)>
        decreases self, 0nat, upto,
    {
        if upto == 0 || upto > self.children@.len() {
            Seq::empty()
        } else {
            let child = self.children@[upto - 1];
            self.collect_children(path, (upto - 1) as nat) + child.collect(path + child.text@)
        }
    }

    /// The keys below this node with borrowed payloads. The stack of labels
    /// holds the path above this node and is handed back as it came. At the
    /// root of a result the label is entered without its overlap with the end
    /// of the query.
    pub fn get_suffixes<'a>(&'a self, is_root: bool, prefix: &str, collector: &mut Vec<String>) -> (r: Vec<Entry<'a, V>>)
        ensures
            final(collector)@ == old(collector)@,
            entries_match(
                r@,
                self.collect(stack_text(old(collector)@) + fragment(is_root, prefix@, self.text@)),
            ),
        decreases self,
    {
        let ghost stack0 = collector@;
        let piece: String = if is_root {
            match find_common_overlap_of_prefix_with_node(prefix, self.text.as_str()) {
                Some(pos) => {
                    proof {
                        lemma_overlap_len(prefix@, self.text@, pos as int);
                    }
                    grapheme_slicer_until_end(self.text.as_str(), pos)
                },
                None => {
                    proof {
                        assert(self.text@.skip(0) =~= self.text@);
                    }
                    self.text.clone()
                },
            }
        } else {
            self.text.clone()
        };
        collector.push(piece);
        let ghost path = stack_text(collector@);
        proof {
            assert(collector@.drop_last() =~= stack0);
        }
        let mut out: Vec<Entry<'a, V>> = Vec::new();
        if self.terminal {
            let key = join_all(collector);
            out.push(Entry { key, val: &self.value });
        }
        let ghost own = out@;
        let mut i: usize = 0;
        while i < self.children.len()
            invariant
                i <= self.children@.len(),
                collector@ == stack0.push(piece),
                path == stack_text(collector@),
                entries_match(
                    out@,
                    (if self.terminal {
                        seq![(path, self.value)]
                    } else {
                        Seq::empty()
                    }) + self.collect_children(path, i as nat),
                ),
            decreases self.children@.len() - i,
        {
            let ghost done = out@;
            let mut add = self.children[i].get_suffixes(false, prefix, collector);
            let ghost added = add@;
            out.append(&mut add);
            proof {
                assert(out@ =~= done + added);
            }
            i = i + 1;
        }
        collector.pop();
        proof {
            assert(collector@ =~= stack0);
        }
        out
    }

    /// Adds the keys below this node to `emit`, in the order of `collect`.
    pub fn get_string_suffixes(&self, is_root: bool, prefix: &str, collector: &mut Vec<String>, emit: &mut Vec<String>)
        ensures
            final(collector)@ == old(collector)@,
            final(emit)@.len() >= old(emit)@.len(),
            final(emit)@.take(old(emit)@.len() as int) == old(emit)@,
            keys_match(
                final(emit)@.skip(old(emit)@.len() as int),
                self.collect(stack_text(old(collector)@) + fragment(is_root, prefix@, self.text@)),
            ),
    {
        let ghost emit0 = emit@;
        let found = self.get_suffixes(is_root, prefix, collector);
        let mut i: usize = 0;
        while i < found.len()
            invariant
                i <= found@.len(),
                emit@.len() == emit0.len() + i,
                emit@.take(emit0.len() as int) == emit0,
                forall|j: int| 0 <= j < i ==> (#[trigger] emit@[emit0.len() + j])@ == found@[j].key@,
            decreases found@.len() - i,
        {
            let ghost prev = emit@;
            emit.push(found[i].key.clone());
            proof {
                assert(emit@.take(emit0.len() as int) =~= prev.take(emit0.len() as int));
            }
            i = i + 1;
        }
        proof {
            let fresh = emit@.skip(emit0.len() as int);
            assert forall|j: int| 0 <= j < fresh.len() implies (#[trigger] fresh[j])@ == found@[j].key@ by {
                assert(fresh[j] == emit@[emit0.len() + j]);
            }
        }
    }
}

/// The strings of a stack, joined from the bottom up.
pub fn join_all(parts: &Vec<String>) -> (r: String)
    ensures
        r@ == stack_text(parts@),
{
    let mut out = String::new();
    let mut i: usize = 0;
    proof {
        assert(parts@.take(0) =~= Seq::empty());
    }
    while i < parts.len()
        invariant
            i <= parts@.len(),
            out@ == stack_text(parts@.take(i as int)),
        decreases parts@.len() - i,
    {
        proof {
            assert(parts@.take(i as int + 1).drop_last() =~= parts@.take(i as int));
        }
        out.append(parts[i].as_str());
        i = i + 1;
    }
    proof {
        assert(parts@.take(i as int) =~= parts@);
    }
    out
}

/// The largest overlap is the one that `overlap_len` names.
pub proof fn lemma_overlap_len(prefix: Seq<char>, label: Seq<char>, k: int)
    requires
        k >= 1,
        overlaps(prefix, label, k),
        forall|j: int| k < j ==> !overlaps(prefix, label, j),
    ensures
        overlap_len(prefix, label) == k,
{
    let c = choose|c: int|
        c >= 1 && overlaps(prefix, label, c) && forall|j: int| c < j ==> !overlaps(prefix, label, j);
    assert(c >= 1 && overlaps(prefix, label, c) && forall|j: int| c < j ==> !overlaps(prefix, label, j));
    if c < k {
        assert(!overlaps(prefix, label, k));
    } else if k < c {
        assert(!overlaps(prefix, label, c));
    }
}

/// Every entry that `collect` lists is stored: its key goes on from `path`,
/// and the subtree stores the rest of it, read from the end of the root's
/// label, with the listed payload.
pub proof fn lemma_collect_sound<V>(n: Node<V>, path: Seq<char>, idx: int)
    requires
        n.wf(),
        0 <= idx < n.collect(path).len(),
    ensures
        starts_with(n.collect(path)[idx].0, path),
        n.entry(n.text@ + n.collect(path)[idx].0.skip(path.len() as int)) == Some(n.collect(path)[idx].1),
    decreases n, 1nat, 0nat,
{
    if n.terminal && idx == 0 {
        assert(path.take(path.len() as int) =~= path);
        assert(path.skip(path.len() as int) =~= Seq::<char>::empty());
        assert(n.text@ + Seq::<char>::empty() =~= n.text@);
        assert(n.text@.take(n.text@.len() as int) =~= n.text@);
    } else {
        let own: int = if n.terminal { 1 } else { 0 };
        lemma_collect_children_sound(n, path, n.children@.len(), idx - own);
    }
}

/// The same of what the first `upto` children contribute.
pub proof fn lemma_collect_children_sound<V>(n: Node<V>, path: Seq<char>, upto: nat, idx: int)
    requires
        n.wf(),
        upto <= n.children@.len(),
        0 <= idx < n.collect_children(path, upto).len(),
    ensures
        starts_with(n.collect_children(path, upto)[idx].0, path),
        n.entry(n.text@ + n.collect_children(path, upto)[idx].0.skip(path.len() as int)) == Some(
            n.collect_children(path, upto)[idx].1,
        ),
    decreases n, 0nat, upto,
{
    let front = n.collect_children(path, (upto - 1) as nat);
    if idx < front.len() {
        lemma_collect_children_sound(n, path, (upto - 1) as nat, idx);
    } else {
        let child = n.children@[upto - 1];
        assert(child.wf());
        let below = path + child.text@;
        let at = idx - front.len();
        lemma_collect_sound(child, below, at);
        let k = child.collect(below)[at].0;
        let s = k.skip(path.len() as int);
        assert(k.take(path.len() as int) =~= path) by {
            assert forall|x: int| 0 <= x < path.len() implies k.take(path.len() as int)[x] == path[x] by {
                assert(k.take(below.len() as int)[x] == below[x]);
            }
        }
        assert(s =~= child.text@ + k.skip(below.len() as int)) by {
            assert forall|x: int| 0 <= x < child.text@.len() implies s[x] == child.text@[x] by {
                assert(k.take(below.len() as int)[path.len() + x] == below[path.len() + x]);
            }
        }
        lemma_route(n, upto - 1, s);
    }
}

/// Every key that a subtree stores is listed by `collect`, with its payload.
pub proof fn lemma_collect_complete<V>(n: Node<V>, path: Seq<char>, s: Seq<char>)
    requires
        n.wf(),
        n.entry(n.text@ + s) is Some,
    ensures
        exists|idx: int|
            0 <= idx < n.collect(path).len() && #[trigger] n.collect(path)[idx] == (
                path + s,
                n.entry(n.text@ + s)->0,
            ),
    decreases n, 1nat, 0nat,
{
    let key = n.text@ + s;
    let len = n.text@.len() as int;
    assert(key.take(len) =~= n.text@);
    if s.len() == 0 {
        assert(path + s =~= path);
        assert(n.collect(path)[0] == (path, n.value));
    } else {
        assert(key[len] == s[0]);
        assert(key.skip(len) =~= s);
        let j = head_index(n.children@, s[0]);
        let child = n.children@[j];
        assert(child.wf());
        lemma_stored_head(child, s);
        let tail = s.skip(child.text@.len() as int);
        assert(child.text@ + tail =~= s) by {
            assert forall|x: int| 0 <= x < child.text@.len() implies s[x] == child.text@[x] by {
                assert(s.take(child.text@.len() as int)[x] == child.text@[x]);
            }
        }
        let below = path + child.text@;
        lemma_collect_complete(child, below, tail);
        let at = choose|at: int|
            0 <= at < child.collect(below).len() && #[trigger] child.collect(below)[at] == (
                below + tail,
                child.entry(child.text@ + tail)->0,
            );
        assert(below + tail =~= path + s);
        lemma_collect_children_hold(n, path, n.children@.len(), j, at);
        let inner = choose|inner: int|
            0 <= inner < n.collect_children(path, n.children@.len()).len() && #[trigger] n.collect_children(
                path,
                n.children@.len(),
            )[inner] == child.collect(below)[at];
        let own: int = if n.terminal { 1 } else { 0 };
        assert(n.collect(path)[own + inner] == child.collect(below)[at]);
    }
}

/// What a child lists is part of what the children contribute.
pub proof fn lemma_collect_children_hold<V>(n: Node<V>, path: Seq<char>, upto: nat, j: int, at: int)
    requires
        0 <= j < upto <= n.children@.len(),
        0 <= at < n.children@[j].collect(path + n.children@[j].text@).len(),
    ensures
        exists|idx: int|
            0 <= idx < n.collect_children(path, upto).len() && #[trigger] n.collect_children(path, upto)[idx]
                == n.children@[j].collect(path + n.children@[j].text@)[at],
    decreases upto,
{
    let front = n.collect_children(path, (upto - 1) as nat);
    if j == upto - 1 {
        assert(n.collect_children(path, upto)[front.len() + at] == n.children@[j].collect(
            path + n.children@[j].text@,
        )[at]);
    } else {
        lemma_collect_children_hold(n, path, (upto - 1) as nat, j, at);
        let idx = choose|idx: int|
            0 <= idx < front.len() && #[trigger] front[idx] == n.children@[j].collect(
                path + n.children@[j].text@,
            )[at];
        assert(n.collect_children(path, upto)[idx] == front[idx]);
    }
}

/// Every key that the children contribute goes on from `path` with the first
/// code point of the label of one of them.
pub proof fn lemma_child_key_head<V>(n: Node<V>, path: Seq<char>, upto: nat, idx: int)
    requires
        n.wf(),
        upto <= n.children@.len(),
        0 <= idx < n.collect_children(path, upto).len(),
    ensures
        n.collect_children(path, upto)[idx].0.len() > path.len(),
        exists|c: int|
            0 <= c < upto && n.collect_children(path, upto)[idx].0[path.len() as int] == (
            #[trigger] n.children@[c]).text@[0],
    decreases upto,
{
    let front = n.collect_children(path, (upto - 1) as nat);
    if idx < front.len() {
        lemma_child_key_head(n, path, (upto - 1) as nat, idx);
        let c = choose|c: int|
            0 <= c < upto - 1 && front[idx].0[path.len() as int] == (#[trigger] n.children@[c]).text@[0];
        assert(n.children@[c].text@[0] == n.collect_children(path, upto)[idx].0[path.len() as int]);
    } else {
        let child = n.children@[upto - 1];
        assert(child.wf());
        let below = path + child.text@;
        let at = idx - front.len();
        lemma_collect_sound(child, below, at);
        let k = child.collect(below)[at].0;
        assert(k.take(below.len() as int)[path.len() as int] == below[path.len() as int]);
        assert(n.children@[upto - 1].text@[0] == k[path.len() as int]);
    }
}

/// No key is listed twice among what the children contribute.
pub proof fn lemma_collect_children_distinct<V>(n: Node<V>, path: Seq<char>, upto: nat, i: int, j: int)
    requires
        n.wf(),
        upto <= n.children@.len(),
        0 <= i < j < n.collect_children(path, upto).len(),
    ensures
        n.collect_children(path, upto)[i].0 != n.collect_children(path, upto)[j].0,
    decreases n, 0nat, upto,
{
    let front = n.collect_children(path, (upto - 1) as nat);
    let child = n.children@[upto - 1];
    let below = path + child.text@;
    assert(child.wf());
    if j < front.len() {
        lemma_collect_children_distinct(n, path, (upto - 1) as nat, i, j);
    } else if i >= front.len() {
        lemma_collect_distinct(child, below, i - front.len(), j - front.len());
    } else {
        lemma_child_key_head(n, path, (upto - 1) as nat, i);
        let c = choose|c: int|
            0 <= c < upto - 1 && front[i].0[path.len() as int] == (#[trigger] n.children@[c]).text@[0];
        lemma_collect_sound(child, below, j - front.len());
        let k = child.collect(below)[j - front.len()].0;
        assert(k.take(below.len() as int)[path.len() as int] == below[path.len() as int]);
        assert((n.children@[c].text@[0] as int) < (n.children@[upto - 1].text@[0] as int));
    }
}

/// No key is listed twice by `collect`.
pub proof fn lemma_collect_distinct<V>(n: Node<V>, path: Seq<char>, i: int, j: int)
    requires
        n.wf(),
        0 <= i < j < n.collect(path).len(),
    ensures
        n.collect(path)[i].0 != n.collect(path)[j].0,
    decreases n, 1nat, 0nat,
{
    let own: int = if n.terminal { 1 } else { 0 };
    if n.terminal && i == 0 {
        lemma_child_key_head(n, path, n.children@.len(), j - own);
    } else {
        lemma_collect_children_distinct(n, path, n.children@.len(), i - own, j - own);
    }
}

} // verus!
