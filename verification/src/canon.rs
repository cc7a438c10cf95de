//! The shape of a well-formed trie is a function of what it stores: two
//! well-formed tries with the same keys and payloads are the same tree.

use vstd::prelude::*;
use crate::charset::is_canonical;
use crate::charset::lemma_canonical_unique;
use crate::charset::strictly_increasing;
use crate::node::Node;
use crate::node::has_head;
use crate::node::head_index;
use crate::node::heads_at;
use crate::node::lemma_head_unique;
use crate::node::node_sum;
use crate::node::sorted_heads;
use crate::node::starts_with;
use crate::node::weight_sum;
use crate::trie::Trie;

verus! {

/// The two subtrees store the same keys with the same payloads.
pub open spec fn same_keys<V>(a: Node<V>, b: Node<V>) -> bool {
    forall|k: Seq<char>| #[trigger] a.entry(k) == b.entry(k)
}

/// The first code points of the labels of a sequence of nodes.
pub open spec fn heads_of<V>(nodes: Seq<Node<V>>) -> Seq<char> {
    Seq::new(nodes.len(), |i: int| nodes[i].text@[0])
}

impl<V> Node<V> {
    /// The two subtrees have the same shape and hold the same labels, flags,
    /// payloads and weights, node by node. The visit counts may differ.
    pub open spec fn same_content(&self, other: Node<V>) -> bool
        decreases self,
    {
        &&& self.text@ == other.text@
        &&& self.terminal == other.terminal
        &&& self.value == other.value
        &&& self.weight == other.weight
        &&& self.children@.len() == other.children@.len()
        &&& forall|i: int|
            0 <= i < self.children@.len() ==> (#[trigger] self.children@[i]).same_content(other.children@[i])
    }

    /// A key that a well-formed subtree stores: the labels down to the first
    /// node at which a key ends, along the first children.
    pub open spec fn some_key(&self) -> Seq<char>
        decreases self,
    {
        if self.terminal || self.children@.len() == 0 {
            self.text@
        } else {
            self.text@ + self.children@[0].some_key()
        }
    }
}

impl<V> Trie<V> {
    /// The two tries have the same totals and the same subtrees, node by
    /// node. The visit counts may differ.
    pub open spec fn same_content(&self, other: Trie<V>) -> bool {
        &&& self.node_count == other.node_count
        &&& self.char_count == other.char_count
        &&& self.children@.len() == other.children@.len()
        &&& forall|i: int|
            0 <= i < self.children@.len() ==> (#[trigger] self.children@[i]).same_content(other.children@[i])
    }
}

/// Under a key that goes on with the label of a child, a node stores what
/// that child stores under the rest of the key.
pub proof fn lemma_route<V>(n: Node<V>, i: int, w: Seq<char>)
    requires
        sorted_heads(n.children@),
        0 <= i < n.children@.len(),
        n.children@[i].text@.len() >= 1,
        w.len() >= 1,
        w[0] == n.children@[i].text@[0],
    ensures
        n.entry(n.text@ + w) == n.children@[i].entry(w),
{
    let key = n.text@ + w;
    let len = n.text@.len() as int;
    assert(key.take(len) =~= n.text@);
    assert(key[len] == w[0]);
    assert(key.skip(len) =~= w);
    assert(heads_at(n.children@, w[0], i));
    lemma_head_unique(n.children@, w[0], i);
}

/// A key that a subtree stores begins with the label of its root.
pub proof fn lemma_stored_head<V>(n: Node<V>, k: Seq<char>)
    requires
        n.entry(k) is Some,
        n.text@.len() >= 1,
    ensures
        starts_with(k, n.text@),
        k.len() >= 1,
        k[0] == n.text@[0],
{
    assert(k.take(n.text@.len() as int)[0] == n.text@[0]);
}

/// Every well-formed subtree stores a key.
pub proof fn lemma_some_key<V>(n: Node<V>)
    requires
        n.wf(),
    ensures
        n.entry(n.some_key()) is Some,
    decreases n,
{
    if n.terminal {
        assert(n.text@.take(n.text@.len() as int) =~= n.text@);
    } else {
        let first = n.children@[0];
        assert(first.wf());
        lemma_some_key(first);
        lemma_stored_head(first, first.some_key());
        lemma_route(n, 0, first.some_key());
    }
}

/// Of two well-formed subtrees that store the same, neither has the shorter
/// label.
pub proof fn lemma_label_not_shorter<V>(a: Node<V>, b: Node<V>)
    requires
        a.wf(),
        b.wf(),
        same_keys(a, b),
    ensures
        a.text@.len() >= b.text@.len(),
{
    let n = a.text@.len() as int;
    if n < b.text@.len() {
        if a.terminal {
            assert(a.text@.take(n) =~= a.text@);
            assert(a.entry(a.text@) is Some);
            assert(a.entry(a.text@) == b.entry(a.text@));
        } else {
            let c0 = a.children@[0];
            let c1 = a.children@[1];
            assert(c0.wf());
            assert(c1.wf());
            lemma_some_key(c0);
            lemma_some_key(c1);
            let w0 = c0.some_key();
            let w1 = c1.some_key();
            lemma_stored_head(c0, w0);
            lemma_stored_head(c1, w1);
            lemma_route(a, 0, w0);
            lemma_route(a, 1, w1);
            let k0 = a.text@ + w0;
            let k1 = a.text@ + w1;
            assert(a.entry(k0) == b.entry(k0));
            assert(a.entry(k1) == b.entry(k1));
            assert(k0.take(b.text@.len() as int)[n] == b.text@[n]);
            assert(k1.take(b.text@.len() as int)[n] == b.text@[n]);
            assert(k0[n] == w0[0]);
            assert(k1[n] == w1[0]);
            assert((c0.text@[0] as int) < (c1.text@[0] as int));
        }
    }
}

/// Two well-formed subtrees that store the same have the same label, and a
/// key ends at the root of both or of neither, with the same payload.
pub proof fn lemma_same_root<V>(a: Node<V>, b: Node<V>)
    requires
        a.wf(),
        b.wf(),
        same_keys(a, b),
    ensures
        a.text@ == b.text@,
        a.terminal == b.terminal,
        a.value == b.value,
{
    lemma_label_not_shorter(a, b);
    assert(same_keys(b, a)) by {
        assert forall|k: Seq<char>| #[trigger] b.entry(k) == a.entry(k) by {
            assert(a.entry(k) == b.entry(k));
        }
    }
    lemma_label_not_shorter(b, a);
    lemma_some_key(a);
    let w = a.some_key();
    assert(a.entry(w) == b.entry(w));
    let n = a.text@.len() as int;
    assert(a.text@ =~= b.text@) by {
        assert(w.take(n) =~= a.text@);
        assert(w.take(n) =~= b.text@);
    }
    assert(a.text@.take(n) =~= a.text@);
    assert(a.entry(a.text@) == b.entry(a.text@));
}

/// Sequences of nodes whose heads rise and cover each other have the same
/// heads at the same places.
pub proof fn lemma_same_heads<V>(xs: Seq<Node<V>>, ys: Seq<Node<V>>)
    requires
        sorted_heads(xs),
        sorted_heads(ys),
        forall|i: int| 0 <= i < xs.len() ==> (#[trigger] xs[i]).text@.len() >= 1,
        forall|i: int| 0 <= i < ys.len() ==> (#[trigger] ys[i]).text@.len() >= 1,
        forall|i: int| 0 <= i < xs.len() ==> has_head(ys, (#[trigger] xs[i]).text@[0]),
        forall|i: int| 0 <= i < ys.len() ==> has_head(xs, (#[trigger] ys[i]).text@[0]),
    ensures
        xs.len() == ys.len(),
        forall|i: int| 0 <= i < xs.len() ==> (#[trigger] xs[i]).text@[0] == ys[i].text@[0],
{
    let hx = heads_of(xs);
    let hy = heads_of(ys);
    assert(strictly_increasing(hx)) by {
        assert forall|i: int, j: int| 0 <= i < j < hx.len() implies
            (#[trigger] hx[i] as int) < (#[trigger] hx[j] as int) by {
            assert((xs[i].text@[0] as int) < (xs[j].text@[0] as int));
        }
    }
    assert(strictly_increasing(hy)) by {
        assert forall|i: int, j: int| 0 <= i < j < hy.len() implies
            (#[trigger] hy[i] as int) < (#[trigger] hy[j] as int) by {
            assert((ys[i].text@[0] as int) < (ys[j].text@[0] as int));
        }
    }
    assert forall|c: char| hx.contains(c) <==> hy.contains(c) by {
        if hx.contains(c) {
            let i = choose|i: int| 0 <= i < hx.len() && hx[i] == c;
            assert(has_head(ys, xs[i].text@[0]));
            let j = head_index(ys, c);
            assert(heads_at(ys, c, j));
            assert(hy[j] == c);
        }
        if hy.contains(c) {
            let i = choose|i: int| 0 <= i < hy.len() && hy[i] == c;
            assert(has_head(xs, ys[i].text@[0]));
            let j = head_index(xs, c);
            assert(heads_at(xs, c, j));
            assert(hx[j] == c);
        }
    }
    assert(is_canonical(hx, hx)) by {
        assert forall|t: int| 0 <= t < hx.len() implies hx.contains(#[trigger] hx[t]) by {}
    }
    assert(is_canonical(hy, hy)) by {
        assert forall|t: int| 0 <= t < hy.len() implies hy.contains(#[trigger] hy[t]) by {}
    }
    lemma_canonical_unique(hx, hy, hx, hy);
    assert forall|i: int| 0 <= i < xs.len() implies (#[trigger] xs[i]).text@[0] == ys[i].text@[0] by {
        assert(hx[i] == hy[i]);
    }
}

/// Sequences of nodes with the same weights at the same places weigh the
/// same.
pub proof fn lemma_same_weights<V>(xs: Seq<Node<V>>, ys: Seq<Node<V>>)
    requires
        xs.len() == ys.len(),
        forall|i: int| 0 <= i < xs.len() ==> (#[trigger] xs[i]).weight == ys[i].weight,
    ensures
        weight_sum(xs) == weight_sum(ys),
    decreases xs.len(),
{
    if xs.len() > 0 {
        assert(xs[xs.len() - 1].weight == ys[xs.len() - 1].weight);
        assert forall|i: int| 0 <= i < xs.drop_last().len() implies (#[trigger] xs.drop_last()[i]).weight
            == ys.drop_last()[i].weight by {
            assert(xs[i].weight == ys[i].weight);
        }
        lemma_same_weights(xs.drop_last(), ys.drop_last());
    }
}

/// Sequences of subtrees with as many nodes at the same places hold as many
/// nodes.
pub proof fn lemma_same_node_counts<V>(xs: Seq<Node<V>>, ys: Seq<Node<V>>)
    requires
        xs.len() == ys.len(),
        forall|i: int| 0 <= i < xs.len() ==> (#[trigger] xs[i]).nodes() == ys[i].nodes(),
    ensures
        node_sum(xs) == node_sum(ys),
    decreases xs.len(),
{
    if xs.len() > 0 {
        assert(xs[xs.len() - 1].nodes() == ys[xs.len() - 1].nodes());
        assert forall|i: int| 0 <= i < xs.drop_last().len() implies (#[trigger] xs.drop_last()[i]).nodes()
            == ys.drop_last()[i].nodes() by {
            assert(xs[i].nodes() == ys[i].nodes());
        }
        lemma_same_node_counts(xs.drop_last(), ys.drop_last());
    }
}

/// A subtree with the shape, labels, flags and weights of a well-formed one
/// is well formed, and holds as many nodes.
pub proof fn lemma_same_shape_wf<V>(a: Node<V>, b: Node<V>)
    requires
        a.same_shape(b),
        b.wf(),
    ensures
        a.wf(),
        a.nodes() == b.nodes(),
    decreases a,
{
    let xs = a.children@;
    let ys = b.children@;
    assert forall|i: int| 0 <= i < xs.len() implies (#[trigger] xs[i]).wf() && xs[i].nodes() == ys[i].nodes()
        && xs[i].weight == ys[i].weight && xs[i].text@ == ys[i].text@ by {
        assert(xs[i].same_shape(ys[i]));
        assert(ys[i].wf());
        lemma_same_shape_wf(xs[i], ys[i]);
    }
    lemma_same_weights(xs, ys);
    lemma_same_node_counts(xs, ys);
    assert forall|i: int, j: int| 0 <= i < j < xs.len() implies ((#[trigger] xs[i]).text@[0] as int) < ((
    #[trigger] xs[j]).text@[0] as int) by {
        assert(xs[i].text@ == ys[i].text@);
        assert(xs[j].text@ == ys[j].text@);
        assert((ys[i].text@[0] as int) < (ys[j].text@[0] as int));
    }
}

/// The same of a sequence of subtrees: they are well formed, rise by their
/// heads, weigh as much and hold as many nodes.
pub proof fn lemma_same_shapes_wf<V>(xs: Seq<Node<V>>, ys: Seq<Node<V>>)
    requires
        xs.len() == ys.len(),
        forall|i: int| 0 <= i < xs.len() ==> (#[trigger] xs[i]).same_shape(ys[i]),
        forall|i: int| 0 <= i < ys.len() ==> (#[trigger] ys[i]).wf(),
        sorted_heads(ys),
    ensures
        forall|i: int| 0 <= i < xs.len() ==> (#[trigger] xs[i]).wf(),
        sorted_heads(xs),
        weight_sum(xs) == weight_sum(ys),
        node_sum(xs) == node_sum(ys),
{
    assert forall|i: int| 0 <= i < xs.len() implies (#[trigger] xs[i]).wf() && xs[i].nodes() == ys[i].nodes()
        && xs[i].weight == ys[i].weight && xs[i].text@ == ys[i].text@ by {
        assert(xs[i].same_shape(ys[i]));
        assert(ys[i].wf());
        lemma_same_shape_wf(xs[i], ys[i]);
    }
    lemma_same_weights(xs, ys);
    lemma_same_node_counts(xs, ys);
    assert forall|i: int, j: int| 0 <= i < j < xs.len() implies ((#[trigger] xs[i]).text@[0] as int) < ((
    #[trigger] xs[j]).text@[0] as int) by {
        assert(xs[i].text@ == ys[i].text@);
        assert(xs[j].text@ == ys[j].text@);
        assert((ys[i].text@[0] as int) < (ys[j].text@[0] as int));
    }
}

/// Where two well-formed subtrees store the same, each child of the one has
/// its head among the children of the other.
pub proof fn lemma_heads_covered<V>(a: Node<V>, b: Node<V>, i: int)
    requires
        a.wf(),
        b.wf(),
        same_keys(a, b),
        0 <= i < a.children@.len(),
    ensures
        has_head(b.children@, a.children@[i].text@[0]),
{
    lemma_same_root(a, b);
    let child = a.children@[i];
    assert(child.wf());
    lemma_some_key(child);
    let w = child.some_key();
    lemma_stored_head(child, w);
    lemma_route(a, i, w);
    let k = a.text@ + w;
    assert(a.entry(k) == b.entry(k));
    assert(k[a.text@.len() as int] == w[0]);
}

/// Two well-formed subtrees that store the same keys with the same payloads
/// are the same tree, and hold as many nodes.
pub proof fn lemma_canonical<V>(a: Node<V>, b: Node<V>)
    requires
        a.wf(),
        b.wf(),
        same_keys(a, b),
    ensures
        a.same_content(b),
        a.nodes() == b.nodes(),
    decreases a,
{
    lemma_same_root(a, b);
    let xs = a.children@;
    let ys = b.children@;
    assert(same_keys(b, a)) by {
        assert forall|k: Seq<char>| #[trigger] b.entry(k) == a.entry(k) by {
            assert(a.entry(k) == b.entry(k));
        }
    }
    assert forall|i: int| 0 <= i < xs.len() implies has_head(ys, (#[trigger] xs[i]).text@[0]) by {
        lemma_heads_covered(a, b, i);
    }
    assert forall|i: int| 0 <= i < ys.len() implies has_head(xs, (#[trigger] ys[i]).text@[0]) by {
        lemma_heads_covered(b, a, i);
    }
    assert forall|i: int| 0 <= i < xs.len() implies (#[trigger] xs[i]).text@.len() >= 1 by {
        assert(xs[i].wf());
    }
    assert forall|i: int| 0 <= i < ys.len() implies (#[trigger] ys[i]).text@.len() >= 1 by {
        assert(ys[i].wf());
    }
    lemma_same_heads(xs, ys);
    assert forall|i: int| 0 <= i < xs.len() implies (#[trigger] xs[i]).same_content(ys[i]) && xs[i].nodes()
        == ys[i].nodes() && xs[i].weight == ys[i].weight by {
        let x = xs[i];
        let y = ys[i];
        assert(x.wf());
        assert(y.wf());
        assert(x.text@[0] == y.text@[0]);
        assert forall|k: Seq<char>| #[trigger] x.entry(k) == y.entry(k) by {
            if k.len() >= 1 && k[0] == x.text@[0] {
                lemma_route(a, i, k);
                lemma_route(b, i, k);
                assert(a.entry(a.text@ + k) == b.entry(a.text@ + k));
            } else {
                if x.entry(k) is Some {
                    lemma_stored_head(x, k);
                }
                if y.entry(k) is Some {
                    lemma_stored_head(y, k);
                }
            }
        }
        lemma_canonical(x, y);
    }
    lemma_same_weights(xs, ys);
    lemma_same_node_counts(xs, ys);
}

/// Two well-formed tries that store the same keys with the same payloads are
/// the same tree, with the same totals: the shape of a trie does not depend
/// on the order in which its keys came, nor on keys that came and went.
pub proof fn lemma_trie_canonical<V>(s: Trie<V>, t: Trie<V>)
    requires
        s.wf(),
        t.wf(),
        forall|k: Seq<char>| #[trigger] s.entry(k) == t.entry(k),
    ensures
        s.same_content(t),
{
    let xs = s.children@;
    let ys = t.children@;
    assert forall|i: int| 0 <= i < xs.len() implies (#[trigger] xs[i]).text@.len() >= 1 by {
        assert(xs[i].wf());
    }
    assert forall|i: int| 0 <= i < ys.len() implies (#[trigger] ys[i]).text@.len() >= 1 by {
        assert(ys[i].wf());
    }
    assert forall|i: int| 0 <= i < xs.len() implies has_head(ys, (#[trigger] xs[i]).text@[0]) by {
        let x = xs[i];
        assert(x.wf());
        lemma_some_key(x);
        let w = x.some_key();
        lemma_stored_head(x, w);
        assert(heads_at(xs, w[0], i));
        lemma_head_unique(xs, w[0], i);
        assert(s.entry(w) == t.entry(w));
    }
    assert forall|i: int| 0 <= i < ys.len() implies has_head(xs, (#[trigger] ys[i]).text@[0]) by {
        let y = ys[i];
        assert(y.wf());
        lemma_some_key(y);
        let w = y.some_key();
        lemma_stored_head(y, w);
        assert(heads_at(ys, w[0], i));
        lemma_head_unique(ys, w[0], i);
        assert(s.entry(w) == t.entry(w));
    }
    lemma_same_heads(xs, ys);
    assert forall|i: int| 0 <= i < xs.len() implies (#[trigger] xs[i]).same_content(ys[i]) && xs[i].nodes()
        == ys[i].nodes() && xs[i].weight == ys[i].weight by {
        let x = xs[i];
        let y = ys[i];
        assert(x.wf());
        assert(y.wf());
        assert(x.text@[0] == y.text@[0]);
        assert forall|k: Seq<char>| #[trigger] x.entry(k) == y.entry(k) by {
            if k.len() >= 1 && k[0] == x.text@[0] {
                assert(heads_at(xs, k[0], i));
                lemma_head_unique(xs, k[0], i);
                assert(heads_at(ys, k[0], i));
                lemma_head_unique(ys, k[0], i);
                assert(s.entry(k) == t.entry(k));
            } else {
                if x.entry(k) is Some {
                    lemma_stored_head(x, k);
                }
                if y.entry(k) is Some {
                    lemma_stored_head(y, k);
                }
            }
        }
        lemma_canonical(x, y);
    }
    lemma_same_weights(xs, ys);
    lemma_same_node_counts(xs, ys);
}

} // verus!
