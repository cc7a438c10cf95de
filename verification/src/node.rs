//! The vertex of the trie and the abstract model that its contracts speak of.

use vstd::prelude::*;
use vstd::string::StrSliceExecFns;
use vstd::string::StringExecFns;

verus! {

/// One edge-compressed vertex: the label of the edge that enters it, whether a
/// key ends here, the payload of that key, the subtrees below, and the number
/// of code points stored in the whole subtree.
#[derive(Debug)]
pub struct Node<V> {
    pub text: String,
    pub terminal: bool,
    pub children: Vec<Node<V>>,
    pub value: Option<V>,
    pub visit_count: u64,
    pub weight: usize,
}

/// `label` opens `key`.
pub open spec fn starts_with(key: Seq<char>, label: Seq<char>) -> bool {
    label.len() <= key.len() && key.take(label.len() as int) =~= label
}

/// The sum of the `weight` fields of a sequence of nodes.
pub open spec fn weight_sum<V>(nodes: Seq<Node<V>>) -> nat
    decreases nodes.len(),
{
    if nodes.len() == 0 {
        0
    } else {
        weight_sum(nodes.drop_last()) + nodes.last().weight as nat
    }
}

/// The number of nodes in a sequence of subtrees.
pub open spec fn node_sum<V>(nodes: Seq<Node<V>>) -> nat
    decreases nodes, 0nat,
{
    if nodes.len() == 0 {
        0
    } else {
        node_sum(nodes.drop_last()) + nodes.last().nodes()
    }
}

/// The number of code points in the labels of a sequence of subtrees.
pub open spec fn char_sum<V>(nodes: Seq<Node<V>>) -> nat
    decreases nodes, 0nat,
{
    if nodes.len() == 0 {
        0
    } else {
        char_sum(nodes.drop_last()) + nodes.last().char_total()
    }
}

/// No two nodes of the sequence have labels with the same first code point.
pub open spec fn sorted_heads<V>(nodes: Seq<Node<V>>) -> bool {
    forall|i: int, j: int|
        0 <= i < j < nodes.len() ==> ((#[trigger] nodes[i]).text@[0] as int) < ((#[trigger] nodes[j]).text@[0] as int)
}

/// The node at index `i` has a label that begins with `c`.
pub open spec fn heads_at<V>(nodes: Seq<Node<V>>, c: char, i: int) -> bool {
    0 <= i < nodes.len() && nodes[i].text@.len() >= 1 && nodes[i].text@[0] == c
}

/// Some node of the sequence has a label that begins with `c`.
pub open spec fn has_head<V>(nodes: Seq<Node<V>>, c: char) -> bool {
    exists|i: int| heads_at(nodes, c, i)
}

/// The index of a node whose label begins with `c`.
pub open spec fn head_index<V>(nodes: Seq<Node<V>>, c: char) -> int {
    choose|i: int| heads_at(nodes, c, i)
}

/// The payload that a key holds after an insertion: the one it had, if it had
/// one, and the new one otherwise.
pub open spec fn stored_after<V>(prev: Option<Option<V>>, value: Option<V>) -> Option<V> {
    match prev {
        Some(Some(v)) => Some(v),
        _ => value,
    }
}

impl<V> Node<V> {
    /// The number of nodes in this subtree, this node included.
    pub open spec fn nodes(&self) -> nat
        decreases self, 1nat,
    {
        1 + node_sum(self.children@)
    }

    /// The number of code points in the labels of this subtree, counted anew.
    pub open spec fn char_total(&self) -> nat
        decreases self, 1nat,
    {
        self.text@.len() + char_sum(self.children@)
    }

    /// The structural invariant of a subtree.
    pub open spec fn wf(&self) -> bool
        decreases self,
    {
        &&& self.text@.len() >= 1
        &&& self.weight == self.text@.len() + weight_sum(self.children@)
        &&& (self.terminal || self.value is None)
        &&& (self.terminal || self.children@.len() >= 2)
        &&& sorted_heads(self.children@)
        &&& forall|i: int| 0 <= i < self.children@.len() ==> (#[trigger] self.children@[i]).wf()
    }

    /// The two subtrees have the same shape and hold the same labels, flags,
    /// payloads, weights and visit counts, node by node.
    pub open spec fn same_tree(&self, other: Node<V>) -> bool
        decreases self,
    {
        &&& self.text@ == other.text@
        &&& self.terminal == other.terminal
        &&& self.value == other.value
        &&& self.weight == other.weight
        &&& self.visit_count == other.visit_count
        &&& self.children@.len() == other.children@.len()
        &&& forall|i: int|
            0 <= i < self.children@.len() ==> (#[trigger] self.children@[i]).same_tree(other.children@[i])
    }

    /// The two subtrees have the same shape and hold the same labels, flags,
    /// weights and visit counts, node by node, and a payload in the same
    /// places.
    pub open spec fn same_shape(&self, other: Node<V>) -> bool
        decreases self,
    {
        &&& self.text@ == other.text@
        &&& self.terminal == other.terminal
        &&& (self.value is Some <==> other.value is Some)
        &&& self.weight == other.weight
        &&& self.visit_count == other.visit_count
        &&& self.children@.len() == other.children@.len()
        &&& forall|i: int|
            0 <= i < self.children@.len() ==> (#[trigger] self.children@[i]).same_shape(other.children@[i])
    }

    /// A node that stores nothing: what is left of a leaf when its key is removed.
    pub open spec fn dead(&self) -> bool {
        &&& self.text@.len() >= 1
        &&& self.weight == self.text@.len()
        &&& !self.terminal
        &&& self.value is None
        &&& self.children@.len() == 0
    }

    /// What the subtree stores under `key`, where `key` is read from the start
    /// of this node's label: `None` when the key is not stored, `Some(v)` when it
    /// is, with payload `v`.
    pub open spec fn entry(&self, key: Seq<char>) -> Option<Option<V>>
        decreases self,
    {
        let n = self.text@.len() as int;
        if !starts_with(key, self.text@) {
            None
        } else if key.len() == n {
            if self.terminal {
                Some(self.value)
            } else {
                None
            }
        } else if has_head(self.children@, key[n]) {
            self.children@[head_index(self.children@, key[n])].entry(key.skip(n))
        } else {
            None
        }
    }

    /// A childless node with the given label.
    pub fn new(string: &str, is_terminal: bool, value: Option<V>) -> (r: Self)
        ensures
            r.text@ == string@,
            r.terminal == is_terminal,
            r.value == value,
            r.children@.len() == 0,
            r.visit_count == 0,
            r.weight == string@.len(),
            r.wf() <==> string@.len() >= 1 && (is_terminal || value is None) && is_terminal,
    {
        let r = Node {
            text: String::from_str(string),
            terminal: is_terminal,
            children: Vec::new(),
            value,
            visit_count: 0,
            weight: string.unicode_len(),
        };
        proof {
            assert(r.children@ =~= Seq::empty());
        }
        r
    }

    /// The number of times a search has passed through this node.
    pub fn visit_count(&self) -> (r: u64)
        ensures
            r == self.visit_count,
    {
        self.visit_count
    }

    /// The sum of the weights of the children.
    pub fn char_weight_of_children(&self) -> (r: usize)
        requires
            weight_sum(self.children@) <= usize::MAX,
        ensures
            r == weight_sum(self.children@),
    {
        let mut total: usize = 0;
        let mut i: usize = 0;
        while i < self.children.len()
            invariant
                i <= self.children@.len(),
                total == weight_sum(self.children@.take(i as int)),
                weight_sum(self.children@) <= usize::MAX,
            decreases self.children@.len() - i,
        {
            proof {
                lemma_weight_sum_take(self.children@, i as int + 1);
                lemma_weight_sum_mono(self.children@, i as int + 1);
            }
            total = total + self.children[i].weight;
            i = i + 1;
        }
        proof {
            assert(self.children@.take(i as int) =~= self.children@);
        }
        total
    }
}

impl<V: Clone> Clone for Node<V> {
    /// A copy of the subtree, node by node, with each payload cloned.
    fn clone(&self) -> (r: Self)
        ensures
            r.same_shape(*self),
            self.wf() ==> r.wf(),
        decreases self,
    {
        let mut children: Vec<Node<V>> = Vec::new();
        let mut i: usize = 0;
        while i < self.children.len()
            invariant
                i <= self.children@.len(),
                children@.len() == i,
                forall|j: int| 0 <= j < i ==> (#[trigger] children@[j]).same_shape(self.children@[j]),
            decreases self.children@.len() - i,
        {
            let child = self.children[i].clone();
            children.push(child);
            i = i + 1;
        }
        let r = Node {
            text: self.text.clone(),
            terminal: self.terminal,
            children,
            value: self.value.clone(),
            visit_count: self.visit_count,
            weight: self.weight,
        };
        proof {
            if self.wf() {
                crate::canon::lemma_same_shape_wf(r, *self);
            }
        }
        r
    }
}

/// The index of the child whose label begins with `c`, if there is one.
pub fn find_child<V>(children: &Vec<Node<V>>, c: char) -> (r: Option<usize>)
    requires
        forall|i: int| 0 <= i < children@.len() ==> (#[trigger] children@[i]).text@.len() >= 1,
    ensures
        match r {
            Some(i) => heads_at(children@, c, i as int),
            None => !has_head(children@, c),
        },
{
    let mut i: usize = 0;
    while i < children.len()
        invariant
            i <= children@.len(),
            forall|i: int| 0 <= i < children@.len() ==> (#[trigger] children@[i]).text@.len() >= 1,
            forall|j: int| 0 <= j < i ==> !heads_at(children@, c, j),
        decreases children@.len() - i,
    {
        if children[i].text.as_str().get_char(0) == c {
            return Some(i);
        }
        i = i + 1;
    }
    None
}

/// The place at which a node whose label begins with `c` keeps the children
/// in rising order: behind every child that begins with a smaller code point.
pub fn find_slot<V>(children: &Vec<Node<V>>, c: char) -> (r: usize)
    requires
        forall|i: int| 0 <= i < children@.len() ==> (#[trigger] children@[i]).text@.len() >= 1,
    ensures
        r <= children@.len(),
        forall|t: int| 0 <= t < r ==> ((#[trigger] children@[t]).text@[0] as int) < (c as int),
        r < children@.len() ==> (children@[r as int].text@[0] as int) >= (c as int),
{
    let mut i: usize = 0;
    while i < children.len()
        invariant
            i <= children@.len(),
            forall|i: int| 0 <= i < children@.len() ==> (#[trigger] children@[i]).text@.len() >= 1,
            forall|t: int| 0 <= t < i ==> ((#[trigger] children@[t]).text@[0] as int) < (c as int),
        decreases children@.len() - i,
    {
        if children[i].text.as_str().get_char(0) >= c {
            return i;
        }
        i = i + 1;
    }
    i
}

/// Adding a node at the end adds its weight.
pub proof fn lemma_weight_sum_push<V>(s: Seq<Node<V>>, x: Node<V>)
    ensures
        weight_sum(s.push(x)) == weight_sum(s) + x.weight,
{
    assert(s.push(x).drop_last() =~= s);
}

/// The sum over the first `n` nodes grows by the weight of the `n`-th.
pub proof fn lemma_weight_sum_take<V>(s: Seq<Node<V>>, n: int)
    requires
        1 <= n <= s.len(),
    ensures
        weight_sum(s.take(n)) == weight_sum(s.take(n - 1)) + s[n - 1].weight,
{
    assert(s.take(n).drop_last() =~= s.take(n - 1));
}

/// The sum over a prefix is no more than the sum over the whole.
pub proof fn lemma_weight_sum_mono<V>(s: Seq<Node<V>>, n: int)
    requires
        0 <= n <= s.len(),
    ensures
        weight_sum(s.take(n)) <= weight_sum(s),
    decreases s.len(),
{
    if n == s.len() {
        assert(s.take(n) =~= s);
    } else {
        lemma_weight_sum_mono(s.drop_last(), n);
        assert(s.drop_last().take(n) =~= s.take(n));
    }
}

/// No node weighs more than the whole sequence.
pub proof fn lemma_weight_sum_member<V>(s: Seq<Node<V>>, i: int)
    requires
        0 <= i < s.len(),
    ensures
        s[i].weight <= weight_sum(s),
    decreases s.len(),
{
    if i < s.len() - 1 {
        lemma_weight_sum_member(s.drop_last(), i);
    }
}

/// Replacing one node changes the sum by the difference of the two weights.
pub proof fn lemma_weight_sum_update<V>(s: Seq<Node<V>>, i: int, x: Node<V>)
    requires
        0 <= i < s.len(),
    ensures
        weight_sum(s.update(i, x)) + s[i].weight == weight_sum(s) + x.weight,
    decreases s.len(),
{
    if i == s.len() - 1 {
        assert(s.update(i, x).drop_last() =~= s.drop_last());
    } else {
        lemma_weight_sum_update(s.drop_last(), i, x);
        assert(s.update(i, x).drop_last() =~= s.drop_last().update(i, x));
    }
}

/// Taking one node out lowers the sum by its weight.
pub proof fn lemma_weight_sum_remove<V>(s: Seq<Node<V>>, i: int)
    requires
        0 <= i < s.len(),
    ensures
        weight_sum(s.remove(i)) + s[i].weight == weight_sum(s),
    decreases s.len(),
{
    if i == s.len() - 1 {
        assert(s.remove(i) =~= s.drop_last());
    } else {
        lemma_weight_sum_remove(s.drop_last(), i);
        assert(s.remove(i).drop_last() =~= s.drop_last().remove(i));
        assert(s.remove(i).last() == s.last());
    }
}

/// Every subtree has the same shape and content as itself.
pub proof fn lemma_same_tree_refl<V>(n: Node<V>)
    ensures
        n.same_tree(n),
    decreases n,
{
    assert forall|i: int| 0 <= i < n.children@.len() implies (#[trigger] n.children@[i]).same_tree(
        n.children@[i],
    ) by {
        lemma_same_tree_refl(n.children@[i]);
    }
}

/// No subtree holds more nodes than the whole sequence.
pub proof fn lemma_node_sum_member<V>(s: Seq<Node<V>>, i: int)
    requires
        0 <= i < s.len(),
    ensures
        s[i].nodes() <= node_sum(s),
    decreases s.len(),
{
    if i < s.len() - 1 {
        lemma_node_sum_member(s.drop_last(), i);
    }
}

/// Every subtree holds a node, so a sequence holds at least as many nodes as
/// it has members.
pub proof fn lemma_node_sum_at_least<V>(s: Seq<Node<V>>)
    ensures
        node_sum(s) >= s.len(),
    decreases s.len(),
{
    if s.len() > 0 {
        lemma_node_sum_at_least(s.drop_last());
        assert(s.last().nodes() >= 1);
    }
}

/// Adding a subtree at the end adds its nodes.
pub proof fn lemma_node_sum_push<V>(s: Seq<Node<V>>, x: Node<V>)
    ensures
        node_sum(s.push(x)) == node_sum(s) + x.nodes(),
{
    assert(s.push(x).drop_last() =~= s);
}

/// Replacing one subtree changes the count by the difference of the two.
pub proof fn lemma_node_sum_update<V>(s: Seq<Node<V>>, i: int, x: Node<V>)
    requires
        0 <= i < s.len(),
    ensures
        node_sum(s.update(i, x)) + s[i].nodes() == node_sum(s) + x.nodes(),
    decreases s.len(),
{
    if i == s.len() - 1 {
        assert(s.update(i, x).drop_last() =~= s.drop_last());
    } else {
        lemma_node_sum_update(s.drop_last(), i, x);
        assert(s.update(i, x).drop_last() =~= s.drop_last().update(i, x));
    }
}

/// Taking one subtree out lowers the count by its nodes.
pub proof fn lemma_node_sum_remove<V>(s: Seq<Node<V>>, i: int)
    requires
        0 <= i < s.len(),
    ensures
        node_sum(s.remove(i)) + s[i].nodes() == node_sum(s),
    decreases s.len(),
{
    if i == s.len() - 1 {
        assert(s.remove(i) =~= s.drop_last());
    } else {
        lemma_node_sum_remove(s.drop_last(), i);
        assert(s.remove(i).drop_last() =~= s.drop_last().remove(i));
        assert(s.remove(i).last() == s.last());
    }
}

/// Among rising heads, the node that begins with `c` is the one that
/// `head_index` names.
pub proof fn lemma_head_unique<V>(nodes: Seq<Node<V>>, c: char, i: int)
    requires
        sorted_heads(nodes),
        heads_at(nodes, c, i),
    ensures
        has_head(nodes, c),
        head_index(nodes, c) == i,
{
    let j = head_index(nodes, c);
    assert(heads_at(nodes, c, j));
    if j < i {
        assert((nodes[j].text@[0] as int) < (nodes[i].text@[0] as int));
    } else if i < j {
        assert((nodes[i].text@[0] as int) < (nodes[j].text@[0] as int));
    }
}

/// A node put at its slot keeps the heads in rising order.
pub proof fn lemma_slot_keeps_order<V>(before: Seq<Node<V>>, x: Node<V>, at: int)
    requires
        sorted_heads(before),
        0 <= at <= before.len(),
        x.text@.len() >= 1,
        forall|t: int| 0 <= t < before.len() ==> (#[trigger] before[t]).text@.len() >= 1,
        forall|t: int| 0 <= t < at ==> ((#[trigger] before[t]).text@[0] as int) < (x.text@[0] as int),
        at < before.len() ==> (before[at].text@[0] as int) >= (x.text@[0] as int),
        !has_head(before, x.text@[0]),
    ensures
        sorted_heads(before.insert(at, x)),
{
    let after = before.insert(at, x);
    assert forall|a: int, b: int| 0 <= a < b < after.len() implies
        ((#[trigger] after[a]).text@[0] as int) < ((
    #[trigger] after[b]).text@[0] as int) by {
        let a0 = if a < at { a } else { a - 1 };
        let b0 = if b < at { b } else { b - 1 };
        if a == at {
            assert(!heads_at(before, x.text@[0], at));
            if b0 > at {
                assert((before[at].text@[0] as int) < (before[b0].text@[0] as int));
            }
        } else if b == at {
            assert((before[a0].text@[0] as int) < (x.text@[0] as int));
        } else {
            assert((before[a0].text@[0] as int) < (before[b0].text@[0] as int));
        }
    }
}

/// A node put at its slot leaves every other head where a search finds the
/// node that it found before.
pub proof fn lemma_slot_routes<V>(before: Seq<Node<V>>, x: Node<V>, at: int, d: char)
    requires
        sorted_heads(before),
        sorted_heads(before.insert(at, x)),
        0 <= at <= before.len(),
        x.text@.len() >= 1,
        x.text@[0] != d,
    ensures
        has_head(before.insert(at, x), d) == has_head(before, d),
        has_head(before, d) ==> before.insert(at, x)[head_index(before.insert(at, x), d)] == before[head_index(
            before,
            d,
        )],
{
    let after = before.insert(at, x);
    if has_head(before, d) {
        let j = head_index(before, d);
        let j1 = if j < at { j } else { j + 1 };
        assert(after[j1] == before[j]);
        assert(heads_at(after, d, j1));
        lemma_head_unique(after, d, j1);
    } else if has_head(after, d) {
        let j = head_index(after, d);
        let j0 = if j < at { j } else { j - 1 };
        assert(heads_at(before, d, j0));
    }
}

/// A terminal leaf stores its own label and nothing else.
pub proof fn lemma_leaf_entry<V>(leaf: Node<V>, key: Seq<char>)
    requires
        leaf.children@.len() == 0,
    ensures
        leaf.entry(key) == if key == leaf.text@ && leaf.terminal {
            Some(leaf.value)
        } else {
            None
        },
{
    if starts_with(key, leaf.text@) && key.len() == leaf.text@.len() {
        assert(key.take(key.len() as int) =~= key);
    }
    if key == leaf.text@ {
        assert(key.take(key.len() as int) =~= key);
    }
    assert(!has_head(leaf.children@, arbitrary::<char>())) ;
}

/// A node cut in two after `p` code points: the lower part stores, under a key
/// without its first `p` code points, what the whole stored under the key.
pub proof fn lemma_tail_entry<V>(whole: Node<V>, tail: Node<V>, p: int, key: Seq<char>)
    requires
        0 <= p < whole.text@.len(),
        tail.text@ =~= whole.text@.skip(p),
        tail.terminal == whole.terminal,
        tail.value == whole.value,
        tail.children@ == whole.children@,
        starts_with(key, whole.text@.take(p)),
    ensures
        tail.entry(key.skip(p)) == whole.entry(key),
{
    let label = whole.text@;
    let n = label.len() as int;
    let rest = key.skip(p);
    assert(whole.text@.take(p).len() == p);
    if starts_with(key, label) {
        assert(rest.take(n - p) =~= tail.text@) by {
            assert forall|i: int| 0 <= i < n - p implies rest.take(n - p)[i] == tail.text@[i] by {
                assert(key.take(n)[i + p] == label[i + p]);
            }
        }
        assert(starts_with(rest, tail.text@));
        if key.len() > n {
            assert(rest[n - p] == key[n]);
            assert(rest.skip(n - p) =~= key.skip(n));
        }
    } else {
        if starts_with(rest, tail.text@) {
            assert(key.take(n) =~= label) by {
                assert forall|i: int| 0 <= i < n implies key.take(n)[i] == label[i] by {
                    if i < p {
                        assert(key.take(p)[i] == label.take(p)[i]);
                    } else {
                        assert(rest.take(n - p)[i - p] == tail.text@[i - p]);
                    }
                }
            }
            assert(false);
        }
    }
}

} // verus!
