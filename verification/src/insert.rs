//! Insertion of a key below a node, with the split of an edge where the key
//! leaves it.

use vstd::prelude::*;
use vstd::string::StrSliceExecFns;
use vstd::string::StringExecFns;
use crate::node::Node;
use crate::node::starts_with;
use crate::node::weight_sum;
use crate::node::node_sum;
use crate::node::sorted_heads;
use crate::node::heads_at;
use crate::node::has_head;
use crate::node::head_index;
use crate::node::stored_after;
use crate::node::find_child;
use crate::node::find_slot;
use crate::node::lemma_slot_keeps_order;
use crate::node::lemma_slot_routes;
use crate::node::lemma_weight_sum_remove;
use crate::node::lemma_node_sum_remove;
use crate::node::lemma_weight_sum_push;
use crate::node::lemma_weight_sum_update;
use crate::node::lemma_node_sum_push;
use crate::node::lemma_node_sum_update;
use crate::node::lemma_head_unique;
use crate::node::lemma_leaf_entry;
use crate::node::lemma_tail_entry;
use crate::slicer::common_prefix_len;
use crate::slicer::is_common_prefix_len;
use crate::slicer::grapheme_slicer_until_end;
use crate::slicer::grapheme_slicer_until_point;

verus! {

/// What a subtree stores after the insertion of `key` with `value`, given what
/// it stored before.
pub open spec fn entry_after_insert<V>(
    before: Option<Option<V>>,
    at_key: Option<Option<V>>,
    same_key: bool,
    value: Option<V>,
) -> Option<Option<V>> {
    if same_key {
        Some(stored_after(at_key, value))
    } else {
        before
    }
}

/// What a node stores after an edge was split where the key leaves it.
pub proof fn lemma_split_stores<V>(
    before: Node<V>,
    after: Node<V>,
    tail: Node<V>,
    leaf: Node<V>,
    p: int,
    key: Seq<char>,
    value: Option<V>,
    it: int,
)
    requires
        0 < p < before.text@.len(),
        p < key.len(),
        is_common_prefix_len(before.text@, key, p),
        after.text@ == before.text@.take(p),
        !after.terminal,
        after.children@.len() == 2,
        it == 0 || it == 1,
        after.children@[it] == tail,
        after.children@[1 - it] == leaf,
        sorted_heads(after.children@),
        tail.text@ == before.text@.skip(p),
        tail.terminal == before.terminal,
        tail.value == before.value,
        tail.children@ == before.children@,
        leaf.text@ == key.skip(p),
        leaf.terminal,
        leaf.value == value,
        leaf.children@.len() == 0,
    ensures
        forall|k: Seq<char>| #[trigger]
            after.entry(k) == entry_after_insert(before.entry(k), before.entry(key), k == key, value),
{
    let kids = after.children@;
    let il = 1 - it;
    assert(tail.text@[0] == before.text@[p]);
    assert(leaf.text@[0] == key[p]);
    assert forall|k: Seq<char>| #[trigger]
        after.entry(k) == entry_after_insert(before.entry(k), before.entry(key), k == key, value) by {
        let head = after.text@;
        if starts_with(k, head) {
            if k.len() > p {
                if k[p] == before.text@[p] {
                    lemma_head_unique(kids, k[p], it);
                    lemma_tail_entry(before, tail, p, k);
                } else if k[p] == key[p] {
                    lemma_head_unique(kids, k[p], il);
                    lemma_leaf_entry(leaf, k.skip(p));
                    if k.skip(p) == key.skip(p) {
                        assert(k =~= key) by {
                            assert(k.len() == key.len());
                            assert forall|i: int| 0 <= i < k.len() implies k[i] == key[i] by {
                                if i < p {
                                    assert(k.take(p)[i] == head[i]);
                                } else {
                                    assert(k.skip(p)[i - p] == key.skip(p)[i - p]);
                                }
                            }
                        }
                    }
                    assert(!starts_with(k, before.text@)) by {
                        if starts_with(k, before.text@) {
                            assert(k.take(before.text@.len() as int)[p] == before.text@[p]);
                        }
                    }
                } else {
                    assert(!has_head(kids, k[p]));
                    assert(!starts_with(k, before.text@)) by {
                        if starts_with(k, before.text@) {
                            assert(k.take(before.text@.len() as int)[p] == before.text@[p]);
                        }
                    }
                }
            }
        } else {
            if starts_with(k, before.text@) {
                assert(k.take(p) =~= head) by {
                    assert forall|i: int| 0 <= i < p implies k.take(p)[i] == head[i] by {
                        assert(k.take(before.text@.len() as int)[i] == before.text@[i]);
                    }
                }
            }
            if k == key {
                assert(k.take(p) =~= head);
            }
        }
    }
}

/// What a node stores after the key was inserted below one of its children.
pub proof fn lemma_child_stores<V>(before: Node<V>, after: Node<V>, i: int, p: int, key: Seq<char>, value: Option<V>)
    requires
        before.wf(),
        p == before.text@.len(),
        p < key.len(),
        starts_with(key, before.text@),
        heads_at(before.children@, key[p], i),
        after.text@ == before.text@,
        after.terminal == before.terminal,
        after.value == before.value,
        after.children@.len() == before.children@.len(),
        forall|j: int| 0 <= j < after.children@.len() && j != i ==> after.children@[j] == before.children@[j],
        sorted_heads(after.children@),
        after.children@[i].text@.len() >= 1,
        after.children@[i].text@[0] == before.children@[i].text@[0],
        forall|k: Seq<char>| #[trigger]
            after.children@[i].entry(k) == entry_after_insert(
                before.children@[i].entry(k),
                before.children@[i].entry(key.skip(p)),
                k == key.skip(p),
                value,
            ),
    ensures
        forall|k: Seq<char>| #[trigger]
            after.entry(k) == entry_after_insert(before.entry(k), before.entry(key), k == key, value),
{
    let kids = after.children@;
    let kids_before = before.children@;
    let c = key[p];
    lemma_head_unique(kids_before, c, i);
    assert(before.entry(key) == kids_before[i].entry(key.skip(p)));
    assert forall|j: int| 0 <= j < kids.len() implies
        (#[trigger] kids[j]).text@.len() >= 1 && kids[j].text@[0]
        == kids_before[j].text@[0] by {
        assert(kids_before[j].wf());
    }
    assert forall|k: Seq<char>| #[trigger]
        after.entry(k) == entry_after_insert(before.entry(k), before.entry(key), k == key, value) by {
        if starts_with(k, before.text@) && k.len() > p {
            let d = k[p];
            if has_head(kids_before, d) {
                let j = head_index(kids_before, d);
                assert(heads_at(kids, d, j));
                lemma_head_unique(kids, d, j);
                if j == i {
                    assert(after.entry(k) == kids[i].entry(k.skip(p)));
                    assert(before.entry(k) == kids_before[i].entry(k.skip(p)));
                    if k.skip(p) == key.skip(p) {
                        assert(k =~= key) by {
                            assert(k.len() == key.len());
                            assert forall|x: int| 0 <= x < k.len() implies k[x] == key[x] by {
                                if x < p {
                                    assert(k.take(p)[x] == before.text@[x]);
                                    assert(key.take(p)[x] == before.text@[x]);
                                } else {
                                    assert(k.skip(p)[x - p] == key.skip(p)[x - p]);
                                }
                            }
                        }
                    }
                } else {
                    assert(k != key);
                    assert(kids[j] == kids_before[j]);
                    assert(after.entry(k) == kids[j].entry(k.skip(p)));
                }
            } else {
                if has_head(kids, d) {
                    let j = head_index(kids, d);
                    assert(heads_at(kids_before, d, j));
                }
                assert(k != key);
                assert(after.entry(k) is None);
            }
        } else {
            assert(k != key);
            assert(after.entry(k) == before.entry(k));
        }
    }
}

/// What a node stores after the rest of the key became a new child.
pub proof fn lemma_leaf_stores<V>(
    before: Node<V>,
    after: Node<V>,
    leaf: Node<V>,
    at: int,
    p: int,
    key: Seq<char>,
    value: Option<V>,
)
    requires
        before.wf(),
        p == before.text@.len(),
        p < key.len(),
        starts_with(key, before.text@),
        !has_head(before.children@, key[p]),
        after.text@ == before.text@,
        after.terminal == before.terminal,
        after.value == before.value,
        0 <= at <= before.children@.len(),
        after.children@ == before.children@.insert(at, leaf),
        sorted_heads(after.children@),
        leaf.text@ == key.skip(p),
        leaf.terminal,
        leaf.value == value,
        leaf.children@.len() == 0,
    ensures
        forall|k: Seq<char>| #[trigger]
            after.entry(k) == entry_after_insert(before.entry(k), before.entry(key), k == key, value),
{
    let kids = after.children@;
    let kids_before = before.children@;
    let c = key[p];
    assert(leaf.text@[0] == c);
    assert(before.entry(key) is None);
    assert forall|k: Seq<char>| #[trigger]
        after.entry(k) == entry_after_insert(before.entry(k), before.entry(key), k == key, value) by {
        if starts_with(k, before.text@) && k.len() > p {
            let d = k[p];
            if d == c {
                lemma_head_unique(kids, d, at);
                lemma_leaf_entry(leaf, k.skip(p));
                if k.skip(p) == key.skip(p) {
                    assert(k =~= key) by {
                        assert(k.len() == key.len());
                        assert forall|x: int| 0 <= x < k.len() implies k[x] == key[x] by {
                            if x < p {
                                assert(k.take(p)[x] == before.text@[x]);
                                assert(key.take(p)[x] == before.text@[x]);
                            } else {
                                assert(k.skip(p)[x - p] == key.skip(p)[x - p]);
                            }
                        }
                    }
                }
            } else {
                assert(k != key);
                lemma_slot_routes(kids_before, leaf, at, d);
            }
        }
    }
}

/// What a node stores after an edge was split where the key ends.
pub proof fn lemma_prefix_stores<V>(before: Node<V>, after: Node<V>, tail: Node<V>, p: int, key: Seq<char>, value: Option<V>)
    requires
        0 < p < before.text@.len(),
        p == key.len(),
        is_common_prefix_len(before.text@, key, p),
        after.text@ == key,
        after.terminal,
        after.value == value,
        after.children@.len() == 1,
        after.children@[0] == tail,
        sorted_heads(after.children@),
        tail.text@ == before.text@.skip(p),
        tail.terminal == before.terminal,
        tail.value == before.value,
        tail.children@ == before.children@,
    ensures
        forall|k: Seq<char>| #[trigger]
            after.entry(k) == entry_after_insert(before.entry(k), before.entry(key), k == key, value),
{
    let kids = after.children@;
    assert(tail.text@[0] == before.text@[p]);
    assert(after.text@ =~= before.text@.take(p));
    assert(!starts_with(key, before.text@));
    assert forall|k: Seq<char>| #[trigger]
        after.entry(k) == entry_after_insert(before.entry(k), before.entry(key), k == key, value) by {
        let head = after.text@;
        if starts_with(k, head) {
            if k.len() > p {
                if k[p] == before.text@[p] {
                    lemma_head_unique(kids, k[p], 0);
                    lemma_tail_entry(before, tail, p, k);
                } else {
                    assert(!has_head(kids, k[p]));
                    assert(!starts_with(k, before.text@)) by {
                        if starts_with(k, before.text@) {
                            assert(k.take(before.text@.len() as int)[p] == before.text@[p]);
                        }
                    }
                }
            } else {
                assert(k.take(k.len() as int) =~= k);
            }
        } else {
            if starts_with(k, before.text@) {
                assert(k.take(p) =~= head) by {
                    assert forall|i: int| 0 <= i < p implies k.take(p)[i] == head[i] by {
                        assert(k.take(before.text@.len() as int)[i] == before.text@[i]);
                    }
                }
            }
            if k == key {
                assert(k.take(p) =~= head);
            }
        }
    }
}

/// All that an insertion below a node brings about: the subtree is well
/// formed and begins as it did, it stores what it stored and the key, with the
/// payload that the key had or else the new one, and the two totals have
/// moved by as many nodes and code points as the subtree has gained.
pub open spec fn insert_done<V>(
    before: Node<V>,
    after: Node<V>,
    key: Seq<char>,
    value: Option<V>,
    nodes_before: u32,
    nodes_after: u32,
    chars_before: u32,
    chars_after: u32,
) -> bool {
    &&& after.wf()
    &&& after.text@[0] == before.text@[0]
    &&& forall|k: Seq<char>| #[trigger]
        after.entry(k) == entry_after_insert(before.entry(k), before.entry(key), k == key, value)
    &&& nodes_after - nodes_before == after.nodes() - before.nodes()
    &&& chars_after - chars_before == after.weight - before.weight
    &&& before.nodes() <= after.nodes() <= before.nodes() + 2
    &&& before.weight <= after.weight <= before.weight + key.len()
    &&& after.visit_count == before.visit_count
}

impl<V> Node<V> {
    /// Stores `text` in this subtree. The label of this node and `text` begin
    /// with the same code point. A key that was stored with a payload keeps it.
    pub fn insert(&mut self, text: &str, value: Option<V>, node_count: &mut u32, char_count: &mut u32)
        requires
            old(self).wf(),
            text@.len() >= 1,
            text@[0] == old(self).text@[0],
            *old(node_count) + 2 <= u32::MAX,
            *old(char_count) + text@.len() <= u32::MAX,
            old(self).weight + text@.len() <= usize::MAX,
        ensures
            insert_done(
                *old(self),
                *final(self),
                text@,
                value,
                *old(node_count),
                *final(node_count),
                *old(char_count),
                *final(char_count),
            ),
        decreases *old(self), 1nat,
    {
        let label_len: usize = self.text.as_str().unicode_len();
        let text_len: usize = text.unicode_len();
        let p: usize = common_prefix_len(self.text.as_str(), text);
        if p < label_len && p < text_len {
            self.split_edge(text, value, node_count, char_count, p);
        } else if p == label_len && p < text_len {
            self.insert_below(text, value, node_count, char_count);
        } else if p < label_len {
            self.split_at_end(text, value, node_count, p);
        } else {
            let ghost before = *self;
            let ghost key = text@;
            self.terminal = true;
            if self.value.is_none() {
                self.value = value;
            }
            proof {
                assert(key =~= before.text@);
                assert(key.take(key.len() as int) =~= key);
                assert(self.wf());
                assert forall|k: Seq<char>| #[trigger]
                    self.entry(k) == entry_after_insert(
                        before.entry(k),
                        before.entry(key),
                        k == key,
                        value,
                    ) by {
                    if starts_with(k, before.text@) && k.len() == key.len() {
                        assert(k.take(k.len() as int) =~= k);
                    }
                }
            }
        }
    }

    /// The key leaves the label after `p` code points: the node keeps the
    /// common part, and the rest of the label and the rest of the key become
    /// its two children.
    fn split_edge(&mut self, text: &str, value: Option<V>, node_count: &mut u32, char_count: &mut u32, p: usize)
        requires
            old(self).wf(),
            text@.len() >= 1,
            text@[0] == old(self).text@[0],
            *old(node_count) + 2 <= u32::MAX,
            *old(char_count) + text@.len() <= u32::MAX,
            old(self).weight + text@.len() <= usize::MAX,
            is_common_prefix_len(old(self).text@, text@, p as int),
            p < old(self).text@.len(),
            p < text@.len(),
        ensures
            insert_done(
                *old(self),
                *final(self),
                text@,
                value,
                *old(node_count),
                *final(node_count),
                *old(char_count),
                *final(char_count),
            ),
    {
        let ghost before = *self;
        let ghost key = text@;
        let text_len: usize = text.unicode_len();
        let tail_text = grapheme_slicer_until_end(self.text.as_str(), p);
        let head_text = grapheme_slicer_until_point(text, p);
        let rest = grapheme_slicer_until_end(text, p);
        let mut lower: Vec<Node<V>> = Vec::new();
        std::mem::swap(&mut lower, &mut self.children);
        let held = self.value.take();
        let tail = Node {
            text: tail_text,
            terminal: self.terminal,
            children: lower,
            value: held,
            visit_count: self.visit_count,
            weight: self.weight - p,
        };
        let leaf = Node {
            text: rest,
            terminal: true,
            children: Vec::new(),
            value,
            visit_count: self.visit_count,
            weight: text_len - p,
        };
        let ghost tail_snap = tail;
        let ghost leaf_snap = leaf;
        let tail_first: bool = self.text.as_str().get_char(p) < text.get_char(p);
        let ghost it: int = if tail_first { 0 } else { 1 };
        let ghost il: int = 1 - it;
        proof {
            assert(self.children@ =~= Seq::empty());
            assert(leaf.children@ =~= Seq::empty());
            assert(weight_sum(leaf.children@) == 0);
            assert(node_sum(leaf.children@) == 0);
            assert(tail.wf());
            assert(leaf.wf());
            assert(tail.nodes() == before.nodes());
            assert(leaf.nodes() == 1);
            lemma_weight_sum_push(self.children@, tail);
            lemma_weight_sum_push(self.children@.push(tail), leaf);
            lemma_node_sum_push(self.children@, tail);
            lemma_node_sum_push(self.children@.push(tail), leaf);
            lemma_weight_sum_push(self.children@, leaf);
            lemma_weight_sum_push(self.children@.push(leaf), tail);
            lemma_node_sum_push(self.children@, leaf);
            lemma_node_sum_push(self.children@.push(leaf), tail);
        }
        if tail_first {
            self.children.push(tail);
            self.children.push(leaf);
        } else {
            self.children.push(leaf);
            self.children.push(tail);
        }
        self.text = head_text;
        self.terminal = false;
        self.weight = self.weight + (text_len - p);
        *node_count = *node_count + 2;
        *char_count = *char_count + ((text_len - p) as u32);
        proof {
            let kids = self.children@;
            assert(kids.len() == 2);
            assert(kids[it] == tail_snap);
            assert(kids[il] == leaf_snap);
            assert(tail_snap.text@[0] == before.text@[p as int]);
            assert(leaf_snap.text@[0] == key[p as int]);
            assert(self.text@ =~= before.text@.take(p as int));
            assert(self.wf());
            lemma_split_stores(before, *self, tail_snap, leaf_snap, p as int, key, value, it);
        }
    }

    /// The key goes on behind the label: it is stored below the child that
    /// begins with its next code point, or becomes a new child.
    fn insert_below(&mut self, text: &str, value: Option<V>, node_count: &mut u32, char_count: &mut u32)
        requires
            old(self).wf(),
            text@.len() >= 1,
            text@[0] == old(self).text@[0],
            *old(node_count) + 2 <= u32::MAX,
            *old(char_count) + text@.len() <= u32::MAX,
            old(self).weight + text@.len() <= usize::MAX,
            is_common_prefix_len(old(self).text@, text@, old(self).text@.len() as int),
            old(self).text@.len() < text@.len(),
        ensures
            insert_done(
                *old(self),
                *final(self),
                text@,
                value,
                *old(node_count),
                *final(node_count),
                *old(char_count),
                *final(char_count),
            ),
        decreases *old(self), 0nat,
    {
        let ghost before = *self;
        let ghost key = text@;
        let label_len: usize = self.text.as_str().unicode_len();
        let text_len: usize = text.unicode_len();
        let p: usize = label_len;
        let rest = grapheme_slicer_until_end(text, p);
        let c: char = text.get_char(p);
        proof {
            assert forall|j: int| 0 <= j < self.children@.len() implies
                (#[trigger] self.children@[j]).text@.len() >= 1 by {
                assert(self.children@[j].wf());
            }
        }
        let found = find_child(&self.children, c);
        match found {
            Some(i) => {
                let ghost kids_before = self.children@;
                proof {
                    crate::node::lemma_weight_sum_member(self.children@, i as int);
                }
                let w0: usize = self.children[i].weight;
                self.children[i].insert(rest.as_str(), value, node_count, char_count);
                let w1: usize = self.children[i].weight;
                self.weight = self.weight + (w1 - w0);
                proof {
                    let kids = self.children@;
                    let grown = kids[i as int];
                    assert(kids =~= kids_before.update(i as int, grown));
                    lemma_weight_sum_update(kids_before, i as int, grown);
                    lemma_node_sum_update(kids_before, i as int, grown);
                    assert(sorted_heads(kids)) by {
                        assert forall|a: int, b: int| 0 <= a < b < kids.len() implies
                            ((#[trigger] kids[a]).text@[0] as int) < ((#[trigger] kids[b]).text@[0] as int) by {
                            assert((kids_before[a].text@[0] as int) < (kids_before[b].text@[0] as int));
                        }
                    }
                    assert forall|j: int| 0 <= j < kids.len() implies (#[trigger] kids[j]).wf() by {
                        if j != i {
                            assert(kids_before[j].wf());
                        }
                    }
                    assert(self.wf());
                    assert(starts_with(key, before.text@));
                    lemma_head_unique(kids_before, c, i as int);
                    assert(before.entry(key) == kids_before[i as int].entry(key.skip(p as int)));
                    lemma_child_stores(before, *self, i as int, p as int, key, value);
                }
            },
            None => {
                let slot = find_slot(&self.children, c);
                let leaf = Node {
                    text: rest,
                    terminal: true,
                    children: Vec::new(),
                    value,
                    visit_count: self.visit_count,
                    weight: text_len - p,
                };
                let ghost leaf_snap = leaf;
                let ghost kids_before = self.children@;
                let ghost at = slot as int;
                proof {
                    assert(leaf.children@ =~= Seq::empty());
                    assert(weight_sum(leaf.children@) == 0);
                    assert(node_sum(leaf.children@) == 0);
                    assert(leaf.wf());
                }
                self.children.insert(slot, leaf);
                self.weight = self.weight + (text_len - p);
                *node_count = *node_count + 1;
                *char_count = *char_count + ((text_len - p) as u32);
                proof {
                    let kids = self.children@;
                    assert(kids =~= kids_before.insert(at, leaf_snap));
                    assert(kids.remove(at) =~= kids_before);
                    lemma_weight_sum_remove(kids, at);
                    lemma_node_sum_remove(kids, at);
                    lemma_slot_keeps_order(kids_before, leaf_snap, at);
                    assert forall|j: int| 0 <= j < kids.len() implies (#[trigger] kids[j]).wf() by {
                        if j != at {
                            let j0 = if j < at { j } else { j - 1 };
                            assert(kids_before[j0].wf());
                        }
                    }
                    assert(self.wf());
                    assert(starts_with(key, before.text@));
                    assert(before.entry(key) is None);
                    lemma_leaf_stores(before, *self, leaf_snap, at, p as int, key, value);
                }
            },
        }
    }

    /// The key ends within the label after `p` code points: the node keeps
    /// the key as its label and stores it, and the rest of the label becomes
    /// its only child.
    fn split_at_end(&mut self, text: &str, value: Option<V>, node_count: &mut u32, p: usize)
        requires
            old(self).wf(),
            text@.len() >= 1,
            text@[0] == old(self).text@[0],
            *old(node_count) + 2 <= u32::MAX,
            is_common_prefix_len(old(self).text@, text@, p as int),
            p < old(self).text@.len(),
            p == text@.len(),
        ensures
            insert_done(
                *old(self),
                *final(self),
                text@,
                value,
                *old(node_count),
                *final(node_count),
                0,
                0,
            ),
    {
        let ghost before = *self;
        let ghost key = text@;
        let tail_text = grapheme_slicer_until_end(self.text.as_str(), p);
        let head_text = String::from_str(text);
        let mut lower: Vec<Node<V>> = Vec::new();
        std::mem::swap(&mut lower, &mut self.children);
        let held = self.value.take();
        let tail = Node {
            text: tail_text,
            terminal: self.terminal,
            children: lower,
            value: held,
            visit_count: self.visit_count,
            weight: self.weight - p,
        };
        let ghost tail_snap = tail;
        proof {
            assert(self.children@ =~= Seq::empty());
            assert(tail.wf());
            assert(tail.nodes() == before.nodes());
            lemma_weight_sum_push(self.children@, tail);
            lemma_node_sum_push(self.children@, tail);
        }
        self.children.push(tail);
        self.text = head_text;
        self.terminal = true;
        self.value = value;
        *node_count = *node_count + 1;
        proof {
            let kids = self.children@;
            assert(kids.len() == 1);
            assert(kids[0] == tail_snap);
            assert(self.text@ =~= key) by {
                assert forall|i: int| 0 <= i < p implies self.text@[i] == key[i] by {}
            }
            assert(self.wf());
            assert(!starts_with(key, before.text@));
            lemma_prefix_stores(before, *self, tail_snap, p as int, key, value);
        }
    }
}

} // verus!
