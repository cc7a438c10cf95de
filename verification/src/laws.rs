//! What holds of every trie that the operations of this library build.

use vstd::prelude::*;
use crate::node::Node;
use crate::node::char_sum;
use crate::node::sorted_heads;
use crate::node::node_sum;
use crate::node::weight_sum;
use crate::canon::lemma_some_key;
use crate::canon::lemma_stored_head;
use crate::canon::lemma_trie_canonical;
use crate::node::heads_at;
use crate::node::lemma_head_unique;
use crate::trie::Trie;

verus! {

impl<V> Node<V> {
    /// This node is `root` or lies below it.
    pub open spec fn lies_in(&self, root: Node<V>) -> bool
        decreases root,
    {
        *self == root || exists|i: int|
            0 <= i < root.children@.len() && self.lies_in(#[trigger] root.children@[i])
    }
}

/// Every node of a well-formed subtree is the root of a well-formed subtree.
pub proof fn lemma_wf_everywhere<V>(root: Node<V>, n: Node<V>)
    requires
        root.wf(),
        n.lies_in(root),
    ensures
        n.wf(),
    decreases root,
{
    if n != root {
        let i = choose|i: int| 0 <= i < root.children@.len() && n.lies_in(#[trigger] root.children@[i]);
        assert(root.children@[i].wf());
        lemma_wf_everywhere(root.children@[i], n);
    }
}

/// In a well-formed subtree no two siblings begin with the same code point,
/// the weight of every node is the length of its label plus the weights of its
/// children, no node without a key of its own has fewer than two children,
/// only a node with a key of its own has a payload, and no label is empty.
pub proof fn lemma_node_invariants<V>(root: Node<V>, n: Node<V>)
    requires
        root.wf(),
        n.lies_in(root),
    ensures
        sorted_heads(n.children@),
        n.weight == n.text@.len() + weight_sum(n.children@),
        !n.terminal ==> n.children@.len() >= 2,
        !n.terminal ==> n.value is None,
        n.text@.len() >= 1,
{
    lemma_wf_everywhere(root, n);
}

/// The same of the nodes of a well-formed trie, and no two subtrees of the
/// root begin with the same code point.
pub proof fn lemma_trie_invariants<V>(t: Trie<V>, i: int, n: Node<V>)
    requires
        t.wf(),
        0 <= i < t.children@.len(),
        n.lies_in(t.children@[i]),
    ensures
        sorted_heads(t.children@),
        sorted_heads(n.children@),
        n.weight == n.text@.len() + weight_sum(n.children@),
        !n.terminal ==> n.children@.len() >= 2,
        !n.terminal ==> n.value is None,
        n.text@.len() >= 1,
{
    assert(t.children@[i].wf());
    lemma_node_invariants(t.children@[i], n);
}

/// The weight of a well-formed subtree is the number of code points in its
/// labels.
pub proof fn lemma_weight_is_char_total<V>(n: Node<V>)
    requires
        n.wf(),
    ensures
        n.weight == n.char_total(),
    decreases n, 1nat,
{
    lemma_weight_sum_is_char_sum(n.children@);
}

/// The weights of well-formed subtrees add up to the number of code points in
/// their labels.
pub proof fn lemma_weight_sum_is_char_sum<V>(nodes: Seq<Node<V>>)
    requires
        forall|i: int| 0 <= i < nodes.len() ==> (#[trigger] nodes[i]).wf(),
    ensures
        weight_sum(nodes) == char_sum(nodes),
    decreases nodes, 0nat,
{
    if nodes.len() > 0 {
        let front = nodes.drop_last();
        assert forall|i: int| 0 <= i < front.len() implies (#[trigger] front[i]).wf() by {
            assert(nodes[i].wf());
        }
        lemma_weight_sum_is_char_sum(front);
        assert(nodes[nodes.len() - 1].wf());
        lemma_weight_is_char_total(nodes.last());
    }
}

/// The totals of a well-formed trie are what a count over the tree gives: the
/// number of its nodes, and the number of code points in their labels.
pub proof fn lemma_totals_recounted<V>(t: Trie<V>)
    requires
        t.wf(),
    ensures
        t.node_count == node_sum(t.children@),
        t.char_count == char_sum(t.children@),
{
    lemma_weight_sum_is_char_sum(t.children@);
}

/// A well-formed trie that stores no key has no node: when every key that
/// was inserted has been removed, both totals are zero.
pub proof fn lemma_nothing_stored<V>(t: Trie<V>)
    requires
        t.wf(),
        forall|k: Seq<char>| #[trigger] t.entry(k) is None,
    ensures
        t.children@.len() == 0,
        t.node_count == 0,
        t.char_count == 0,
{
    if t.children@.len() > 0 {
        let first = t.children@[0];
        assert(first.wf());
        lemma_some_key(first);
        let w = first.some_key();
        lemma_stored_head(first, w);
        assert(heads_at(t.children@, w[0], 0));
        lemma_head_unique(t.children@, w[0], 0);
        assert(t.entry(w) is None);
    }
}

/// The insertion of a key that the trie did not store, followed by the
/// removal of that key, gives back the trie as it was: the same keys and
/// payloads, in the same tree with the same totals. Only the visit counts
/// may differ.
pub proof fn lemma_insert_then_remove<V>(before: Trie<V>, with: Trie<V>, after: Trie<V>, key: Seq<char>, value: Option<V>)
    requires
        before.wf(),
        after.wf(),
        before.entry(key) is None,
        with.is_insert_of(before, key, value),
        after.is_remove_of(with, key),
    ensures
        forall|k: Seq<char>| #[trigger] after.entry(k) == before.entry(k),
        after.same_content(before),
{
    assert forall|k: Seq<char>| #[trigger] after.entry(k) == before.entry(k) by {
        let via = with.entry(k);
    }
    lemma_trie_canonical(after, before);
}

/// Two different keys may be inserted in either order: the trie stores the
/// same keys with the same payloads, in the same tree with the same weights
/// and totals.
pub proof fn lemma_insert_order<V>(
    start: Trie<V>,
    first_a: Trie<V>,
    a_then_b: Trie<V>,
    first_b: Trie<V>,
    b_then_a: Trie<V>,
    a: Seq<char>,
    va: Option<V>,
    b: Seq<char>,
    vb: Option<V>,
)
    requires
        a != b,
        a_then_b.wf(),
        b_then_a.wf(),
        first_a.is_insert_of(start, a, va),
        a_then_b.is_insert_of(first_a, b, vb),
        first_b.is_insert_of(start, b, vb),
        b_then_a.is_insert_of(first_b, a, va),
    ensures
        forall|k: Seq<char>| #[trigger] a_then_b.entry(k) == b_then_a.entry(k),
        a_then_b.same_content(b_then_a),
{
    assert forall|k: Seq<char>| #[trigger] a_then_b.entry(k) == b_then_a.entry(k) by {
        let x = first_a.entry(k);
        let y = first_b.entry(k);
        let xa = first_a.entry(b);
        let yb = first_b.entry(a);
    }
    lemma_trie_canonical(a_then_b, b_then_a);
}

} // verus!
