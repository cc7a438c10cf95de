//! Exact prefix search: the walk of a query through compressed edges.

use vstd::prelude::*;
use vstd::string::StrSliceExecFns;
use crate::charset::is_white_space;
use crate::charset::white_space;
use crate::node::Node;
use crate::node::has_head;
use crate::node::head_index;
use crate::node::find_child;
use crate::node::lemma_head_unique;
use crate::node::starts_with;
use crate::trie::Trie;
use crate::slicer::grapheme_slicer_until_end;

verus! {

/// Two code points agree in an exact search when they are equal or when both
/// are white space.
pub open spec fn chars_agree(a: char, b: char) -> bool {
    a == b || (white_space(a) && white_space(b))
}

/// The first `n` code points of the label and of the query agree pairwise.
pub open spec fn agree_upto(label: Seq<char>, query: Seq<char>, n: int) -> bool {
    forall|i: int| 0 <= i < n ==> chars_agree(#[trigger] label[i], query[i])
}

/// The smaller of two lengths.
pub open spec fn shorter(a: int, b: int) -> int {
    if a <= b {
        a
    } else {
        b
    }
}

impl<V> Node<V> {
    /// The node that an exact search for `prefix` ends at, where `prefix` is
    /// read from the start of this node's label: this node when the query ends
    /// within its label, else what the child that continues the query finds.
    pub open spec fn locate(&self, prefix: Seq<char>) -> Option<Node<V>>
        decreases self,
    {
        let n = self.text@.len() as int;
        if !agree_upto(self.text@, prefix, shorter(n, prefix.len() as int)) {
            None
        } else if prefix.len() <= n {
            Some(*self)
        } else if has_head(self.children@, prefix[n]) {
            self.children@[head_index(self.children@, prefix[n])].locate(prefix.skip(n))
        } else {
            None
        }
    }

    /// Exact prefix search below this node.
    pub fn suffix_root(&self, prefix: &str) -> (r: Option<&Node<V>>)
        requires
            self.wf(),
        ensures
            match r {
                Some(found) => self.locate(prefix@) == Some(*found),
                None => self.locate(prefix@) is None,
            },
        decreases self,
    {
        let label_len: usize = self.text.as_str().unicode_len();
        let query_len: usize = prefix.unicode_len();
        let m: usize = if label_len <= query_len { label_len } else { query_len };
        let mut i: usize = 0;
        while i < m
            invariant
                i <= m,
                m <= self.text@.len(),
                m <= prefix@.len(),
                agree_upto(self.text@, prefix@, i as int),
            decreases m - i,
        {
            let x: char = self.text.as_str().get_char(i);
            let y: char = prefix.get_char(i);
            if x != y && !(is_white_space(x) && is_white_space(y)) {
                proof {
                    assert(!chars_agree(self.text@[i as int], prefix@[i as int]));
                }
                return None;
            }
            i = i + 1;
        }
        if query_len <= label_len {
            return Some(self);
        }
        let c: char = prefix.get_char(label_len);
        proof {
            assert forall|j: int| 0 <= j < self.children@.len() implies
                (#[trigger] self.children@[j]).text@.len() >= 1 by {
                assert(self.children@[j].wf());
            }
        }
        match find_child(&self.children, c) {
            Some(j) => {
                proof {
                    lemma_head_unique(self.children@, c, j as int);
                    assert(self.children@[j as int].wf());
                }
                let rest = grapheme_slicer_until_end(prefix, label_len);
                self.children[j].suffix_root(rest.as_str())
            },
            None => None,
        }
    }
}

/// The node that an exact search ends at is a node of the subtree that was
/// searched, and so the root of a well-formed subtree.
pub proof fn lemma_locate_lies_in<V>(n: Node<V>, prefix: Seq<char>)
    requires
        n.wf(),
        n.locate(prefix) is Some,
    ensures
        n.locate(prefix)->0.lies_in(n),
        n.locate(prefix)->0.wf(),
    decreases n,
{
    let len = n.text@.len() as int;
    if prefix.len() > len {
        let j = head_index(n.children@, prefix[len]);
        let child = n.children@[j];
        assert(child.wf());
        lemma_locate_lies_in(child, prefix.skip(len));
        let found = child.locate(prefix.skip(len))->0;
        assert(found.lies_in(n.children@[j]));
    }
}

/// An exact search for the beginning of a stored key ends at a node.
pub proof fn lemma_locate_finds<V>(n: Node<V>, key: Seq<char>, prefix: Seq<char>)
    requires
        n.wf(),
        n.entry(key) is Some,
        starts_with(key, prefix),
    ensures
        n.locate(prefix) is Some,
    decreases n,
{
    let len = n.text@.len() as int;
    let m = shorter(len, prefix.len() as int);
    assert(agree_upto(n.text@, prefix, m)) by {
        assert forall|i: int| 0 <= i < m implies chars_agree(#[trigger] n.text@[i], prefix[i]) by {
            assert(key.take(len)[i] == n.text@[i]);
            assert(key.take(prefix.len() as int)[i] == prefix[i]);
        }
    }
    if prefix.len() > len {
        assert(key.take(prefix.len() as int)[len] == prefix[len]);
        let j = head_index(n.children@, key[len]);
        let child = n.children@[j];
        assert(child.wf());
        assert(starts_with(key.skip(len), prefix.skip(len))) by {
            assert forall|i: int| 0 <= i < prefix.len() - len implies
                key.skip(len).take(prefix.len() - len)[i]
                == prefix.skip(len)[i] by {
                assert(key.take(prefix.len() as int)[i + len] == prefix[i + len]);
            }
        }
        lemma_locate_finds(child, key.skip(len), prefix.skip(len));
    }
}

/// An exact search in a trie for the beginning of a stored key, the empty
/// one apart, ends at a node of a well-formed subtree.
pub proof fn lemma_trie_locate_finds<V>(t: Trie<V>, key: Seq<char>, prefix: Seq<char>)
    requires
        t.wf(),
        t.entry(key) is Some,
        starts_with(key, prefix),
        prefix.len() >= 1,
    ensures
        t.locate(prefix) is Some,
        t.locate(prefix)->0.wf(),
{
    assert(key.take(prefix.len() as int)[0] == prefix[0]);
    let j = head_index(t.children@, key[0]);
    assert(t.children@[j].wf());
    lemma_locate_finds(t.children@[j], key, prefix);
    lemma_locate_lies_in(t.children@[j], prefix);
}

} // verus!
