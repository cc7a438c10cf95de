//! Removal of a key below a node, with the merge of an edge that is left with
//! a single continuation.

use vstd::prelude::*;
use vstd::string::StrSliceExecFns;
use vstd::string::StringExecFns;
use crate::node::Node;
use crate::node::starts_with;
use crate::node::weight_sum;
use crate::node::node_sum;
use crate::node::sorted_heads;
use crate::node::heads_at;
use crate::node::has_head;
use crate::node::head_index;
use crate::node::find_child;
use crate::node::lemma_weight_sum_update;
use crate::node::lemma_weight_sum_remove;
use crate::node::lemma_weight_sum_member;
use crate::node::lemma_node_sum_update;
use crate::node::lemma_node_sum_remove;
use crate::node::lemma_head_unique;
use crate::node::lemma_leaf_entry;
use crate::node::lemma_tail_entry;
use crate::node::lemma_same_tree_refl;
use crate::slicer::common_prefix_len;
use crate::slicer::is_common_prefix_len;
use crate::slicer::grapheme_slicer_until_end;

verus! {

/// What a subtree stores after the removal of a key, given what it stored
/// before.
pub open spec fn entry_after_remove<V>(before: Option<Option<V>>, same_key: bool) -> Option<Option<V>> {
    if same_key {
        None
    } else {
        before
    }
}

/// Taking a dead child out of a node changes nothing that the node stores.
pub proof fn lemma_reap<V>(with: Node<V>, without: Node<V>, i: int)
    requires
        without.text@ == with.text@,
        without.terminal == with.terminal,
        without.value == with.value,
        0 <= i < with.children@.len(),
        without.children@ == with.children@.remove(i),
        with.children@[i].dead(),
        sorted_heads(with.children@),
        forall|j: int| 0 <= j < with.children@.len() ==> (#[trigger] with.children@[j]).text@.len() >= 1,
    ensures
        sorted_heads(without.children@),
        forall|k: Seq<char>| #[trigger] without.entry(k) == with.entry(k),
{
    let a = with.children@;
    let b = without.children@;
    assert forall|x: int, y: int| 0 <= x < y < b.len() implies
        ((#[trigger] b[x]).text@[0] as int) < ((#[trigger] b[y]).text@[0] as int) by {
        let x0 = if x < i { x } else { x + 1 };
        let y0 = if y < i { y } else { y + 1 };
        assert((a[x0].text@[0] as int) < (a[y0].text@[0] as int));
    }
    assert forall|k: Seq<char>| #[trigger] without.entry(k) == with.entry(k) by {
        let n = with.text@.len() as int;
        if starts_with(k, with.text@) && k.len() > n {
            let d = k[n];
            if has_head(a, d) {
                let j = head_index(a, d);
                if j == i {
                    lemma_leaf_entry(a[i], k.skip(n));
                    if has_head(b, d) {
                        let y = head_index(b, d);
                        let y0 = if y < i { y } else { y + 1 };
                        assert(heads_at(a, d, y0));
                        lemma_head_unique(a, d, y0);
                    }
                } else {
                    let j1 = if j < i { j } else { j - 1 };
                    assert(b[j1] == a[j]);
                    assert(heads_at(b, d, j1));
                    lemma_head_unique(b, d, j1);
                }
            } else {
                if has_head(b, d) {
                    let y = head_index(b, d);
                    let y0 = if y < i { y } else { y + 1 };
                    assert(heads_at(a, d, y0));
                }
            }
        }
    }
}

/// What a node stores after the key was removed below one of its children.
pub proof fn lemma_child_drops<V>(before: Node<V>, after: Node<V>, i: int, p: int, key: Seq<char>)
    requires
        before.wf(),
        p == before.text@.len(),
        p < key.len(),
        starts_with(key, before.text@),
        heads_at(before.children@, key[p], i),
        after.text@ == before.text@,
        after.terminal == before.terminal,
        after.value == before.value,
        after.children@.len() == before.children@.len(),
        forall|j: int| 0 <= j < after.children@.len() && j != i ==> after.children@[j] == before.children@[j],
        sorted_heads(after.children@),
        after.children@[i].text@.len() >= 1,
        after.children@[i].text@[0] == before.children@[i].text@[0],
        forall|k: Seq<char>| #[trigger]
            after.children@[i].entry(k) == entry_after_remove(before.children@[i].entry(k), k == key.skip(p)),
    ensures
        forall|k: Seq<char>| #[trigger] after.entry(k) == entry_after_remove(before.entry(k), k == key),
{
    let kids = after.children@;
    let kids_before = before.children@;
    lemma_head_unique(kids_before, key[p], i);
    assert forall|j: int| 0 <= j < kids.len() implies
        (#[trigger] kids[j]).text@.len() >= 1 && kids[j].text@[0]
        == kids_before[j].text@[0] by {
        assert(kids_before[j].wf());
    }
    assert forall|k: Seq<char>| #[trigger] after.entry(k) == entry_after_remove(before.entry(k), k == key) by {
        if starts_with(k, before.text@) && k.len() > p {
            let d = k[p];
            if has_head(kids_before, d) {
                let j = head_index(kids_before, d);
                assert(heads_at(kids, d, j));
                lemma_head_unique(kids, d, j);
                if j == i {
                    assert(after.entry(k) == kids[i].entry(k.skip(p)));
                    assert(before.entry(k) == kids_before[i].entry(k.skip(p)));
                    if k.skip(p) == key.skip(p) {
                        assert(k =~= key) by {
                            assert(k.len() == key.len());
                            assert forall|x: int| 0 <= x < k.len() implies k[x] == key[x] by {
                                if x < p {
                                    assert(k.take(p)[x] == before.text@[x]);
                                    assert(key.take(p)[x] == before.text@[x]);
                                } else {
                                    assert(k.skip(p)[x - p] == key.skip(p)[x - p]);
                                }
                            }
                        }
                    }
                } else {
                    assert(k != key);
                    assert(kids[j] == kids_before[j]);
                    assert(after.entry(k) == kids[j].entry(k.skip(p)));
                }
            } else {
                if has_head(kids, d) {
                    let j = head_index(kids, d);
                    assert(heads_at(kids_before, d, j));
                }
                assert(k != key);
                assert(after.entry(k) is None);
            }
        } else {
            assert(k != key);
            assert(after.entry(k) == before.entry(k));
        }
    }
}

/// All that a removal below a node brings about: the subtree is well formed,
/// or dead where it was a leaf that stored the key alone; it begins as it did;
/// it stores what it stored, but for the key; the two totals have moved by as
/// many nodes and code points as the subtree has lost; and where the key was
/// not stored, the subtree is as it was.
pub open spec fn remove_done<V>(
    before: Node<V>,
    after: Node<V>,
    key: Seq<char>,
    nodes_before: u32,
    nodes_after: u32,
    chars_before: u32,
    chars_after: u32,
) -> bool {
    &&& after.wf() || after.dead()
    &&& after.dead() <==> before.children@.len() == 0 && key == before.text@
    &&& after.text@.len() >= 1
    &&& after.text@[0] == before.text@[0]
    &&& forall|k: Seq<char>| #[trigger] after.entry(k) == entry_after_remove(before.entry(k), k == key)
    &&& nodes_before - nodes_after == before.nodes() - after.nodes()
    &&& chars_before - chars_after == before.weight - after.weight
    &&& after.nodes() <= before.nodes()
    &&& after.weight <= before.weight
    &&& after.visit_count == before.visit_count
    &&& (before.entry(key) is None ==> after.same_tree(before) && after.nodes() == before.nodes())
}

impl<V> Node<V> {
    /// Joins a node that stores no key of its own with its only child: the
    /// labels are concatenated and the child's content moves up.
    pub fn merge_only_child(&mut self, node_count: &mut u32)
        requires
            old(self).text@.len() >= 1,
            old(self).weight == old(self).text@.len() + weight_sum(old(self).children@),
            !old(self).terminal,
            old(self).value is None,
            old(self).children@.len() == 1,
            old(self).children@[0].wf(),
            *old(node_count) >= 1,
        ensures
            final(self).wf(),
            final(self).text@ == old(self).text@ + old(self).children@[0].text@,
            final(self).weight == old(self).weight,
            final(self).nodes() == old(self).nodes() - 1,
            *final(node_count) == *old(node_count) - 1,
            final(self).visit_count == old(self).visit_count,
            forall|k: Seq<char>| #[trigger] final(self).entry(k) == old(self).entry(k),
    {
        let ghost before = *self;
        let ghost n = self.text@.len() as int;
        proof {
            assert(before.children@.drop_last() =~= Seq::empty());
            assert(weight_sum(before.children@.drop_last()) == 0);
            assert(node_sum(before.children@.drop_last()) == 0);
            assert(weight_sum(before.children@) == before.children@[0].weight);
            assert(node_sum(before.children@) == before.children@[0].nodes());
        }
        let child = self.children.pop().unwrap();
        let Node { text, terminal, children, value, visit_count: _, weight: _ } = child;
        self.text.append(text.as_str());
        self.terminal = terminal;
        self.value = value;
        self.children = children;
        *node_count = *node_count - 1;
        proof {
            let only = before.children@[0];
            assert(self.text@.skip(n) =~= only.text@);
            assert(self.text@.take(n) =~= before.text@);
            assert(self.wf());
            assert forall|k: Seq<char>| #[trigger] self.entry(k) == before.entry(k) by {
                if starts_with(k, before.text@) {
                    lemma_tail_entry(*self, only, n, k);
                    if k.len() > n {
                        if k[n] == only.text@[0] {
                            lemma_head_unique(before.children@, k[n], 0);
                        } else {
                            assert(!has_head(before.children@, k[n]));
                            assert(!starts_with(k.skip(n), only.text@)) by {
                                if starts_with(k.skip(n), only.text@) {
                                    assert(k.skip(n).take(only.text@.len() as int)[0] == only.text@[0]);
                                }
                            }
                        }
                    } else {
                        assert(!starts_with(k.skip(n), only.text@));
                    }
                } else {
                    if starts_with(k, self.text@) {
                        assert(k.take(n) =~= before.text@) by {
                            assert forall|x: int| 0 <= x < n implies k.take(n)[x] == before.text@[x] by {
                                assert(k.take(self.text@.len() as int)[x] == self.text@[x]);
                            }
                        }
                    }
                }
            }
        }
    }

    /// Removes `text` from this subtree, where `text` is read from the start of
    /// this node's label. A key that is not stored leaves the subtree as it
    /// was. A leaf whose key is removed is left dead, for its parent to drop.
    pub fn remove(&mut self, text: &str, node_count: &mut u32, char_count: &mut u32)
        requires
            old(self).wf(),
            *old(node_count) >= old(self).nodes(),
            *old(char_count) >= old(self).weight,
        ensures
            remove_done(
                *old(self),
                *final(self),
                text@,
                *old(node_count),
                *final(node_count),
                *old(char_count),
                *final(char_count),
            ),
        decreases *old(self), 1nat,
    {
        let ghost before = *self;
        let ghost key = text@;
        let label_len: usize = self.text.as_str().unicode_len();
        let text_len: usize = text.unicode_len();
        let p: usize = common_prefix_len(self.text.as_str(), text);
        if p < label_len {
            proof {
                assert(!starts_with(key, before.text@)) by {
                    if starts_with(key, before.text@) {
                        assert(key.take(label_len as int)[p as int] == before.text@[p as int]);
                    }
                }
                assert(!before.dead());
                lemma_same_tree_refl(before);
            }
        } else if p == text_len {
            proof {
                assert(starts_with(key, before.text@));
                assert(key.take(key.len() as int) =~= key);
                assert(key =~= before.text@);
            }
            if self.terminal {
                self.remove_here(node_count);
            } else {
                proof {
                    lemma_same_tree_refl(before);
                }
            }
        } else {
            self.remove_below(text, node_count, char_count);
        }
    }

    /// The key ends at this node: the node stores it no longer, and goes on
    /// with its only child, if it has just one.
    fn remove_here(&mut self, node_count: &mut u32)
        requires
            old(self).wf(),
            *old(node_count) >= old(self).nodes(),
            old(self).terminal,
        ensures
            remove_done(*old(self), *final(self), old(self).text@, *old(node_count), *final(node_count), 0, 0),
    {
        let ghost before = *self;
        let ghost key = self.text@;
        proof {
            assert(key.take(key.len() as int) =~= key);
        }
        self.terminal = false;
        self.value = None;
        proof {
            assert forall|k: Seq<char>| #[trigger]
                self.entry(k) == entry_after_remove(before.entry(k), k == key) by {
                if starts_with(k, before.text@) && k.len() == key.len() {
                    assert(k.take(k.len() as int) =~= k);
                }
            }
        }
        if self.children.len() == 1 {
            let ghost mid = *self;
            proof {
                assert(mid.children@[0].wf());
                assert(before.nodes() >= 2) by {
                    crate::node::lemma_node_sum_at_least(before.children@);
                }
            }
            self.merge_only_child(node_count);
            proof {
                assert(self.text@[0] == before.text@[0]);
            }
        } else {
            proof {
                if self.children@.len() == 0 {
                    assert(self.children@ =~= Seq::empty());
                    assert(self.dead());
                } else {
                    assert(self.wf());
                }
            }
        }
    }

    /// The key goes on behind the label: it is removed below the child that
    /// begins with its next code point. A child that is left dead is
    /// dropped, and a node that then stores no key and has one child goes on
    /// with that child.
    fn remove_below(&mut self, text: &str, node_count: &mut u32, char_count: &mut u32)
        requires
            old(self).wf(),
            *old(node_count) >= old(self).nodes(),
            *old(char_count) >= old(self).weight,
            is_common_prefix_len(old(self).text@, text@, old(self).text@.len() as int),
            old(self).text@.len() < text@.len(),
        ensures
            remove_done(
                *old(self),
                *final(self),
                text@,
                *old(node_count),
                *final(node_count),
                *old(char_count),
                *final(char_count),
            ),
        decreases *old(self), 0nat,
    {
        let ghost before = *self;
        let ghost key = text@;
        let p: usize = self.text.as_str().unicode_len();
        proof {
            assert(starts_with(key, before.text@));
        }
        let c: char = text.get_char(p);
        proof {
            assert forall|j: int| 0 <= j < self.children@.len() implies
                (#[trigger] self.children@[j]).text@.len() >= 1 by {
                assert(self.children@[j].wf());
            }
        }
        let found = find_child(&self.children, c);
        match found {
            None => {
                proof {
                    assert(before.entry(key) is None);
                    lemma_same_tree_refl(before);
                }
            },
            Some(i) => {
                let rest = grapheme_slicer_until_end(text, p);
                let ghost kids_before = self.children@;
                proof {
                    lemma_weight_sum_member(kids_before, i as int);
                    crate::node::lemma_node_sum_member(kids_before, i as int);
                    assert(kids_before[i as int].wf());
                    lemma_head_unique(kids_before, c, i as int);
                    assert(before.entry(key) == kids_before[i as int].entry(key.skip(p as int)));
                }
                let w0: usize = self.children[i].weight;
                self.children[i].remove(rest.as_str(), node_count, char_count);
                let w1: usize = self.children[i].weight;
                self.weight = self.weight - (w0 - w1);
                let ghost mid = *self;
                proof {
                    let kids = self.children@;
                    let shrunk = kids[i as int];
                    assert(kids =~= kids_before.update(i as int, shrunk));
                    lemma_weight_sum_update(kids_before, i as int, shrunk);
                    lemma_node_sum_update(kids_before, i as int, shrunk);
                    lemma_weight_sum_member(kids, i as int);
                    assert(sorted_heads(kids)) by {
                        assert forall|a: int, b: int| 0 <= a < b < kids.len() implies
                            ((#[trigger] kids[a]).text@[0] as int) < ((#[trigger] kids[b]).text@[0] as int) by {
                            assert((kids_before[a].text@[0] as int) < (kids_before[b].text@[0] as int));
                        }
                    }
                    assert forall|j: int| 0 <= j < kids.len() implies
                        (#[trigger] kids[j]).text@.len() >= 1 by {
                        if j != i {
                            assert(kids_before[j].wf());
                        }
                    }
                    assert forall|j: int| 0 <= j < kids.len() && j != i implies (#[trigger] kids[j]).wf() by {
                        assert(kids_before[j].wf());
                    }
lemma_child_drops(before, mid, i as int, p as int, key);
                }
                if !self.children[i].terminal && self.children[i].children.len() == 0 {
                    proof {
                        assert(self.children@[i as int].dead());
                        lemma_weight_sum_remove(self.children@, i as int);
                        lemma_node_sum_remove(self.children@, i as int);
                        assert(self.children@[i as int].children@ =~= Seq::empty());
                        assert(node_sum(self.children@[i as int].children@) == 0);
                    }
                    let gone = self.children.remove(i);
                    *node_count = *node_count - 1;
                    *char_count = *char_count - (gone.weight as u32);
                    self.weight = self.weight - gone.weight;
                    let ghost reaped = *self;
                    proof {
                        lemma_reap(mid, reaped, i as int);
                        let kids = self.children@;
                        assert forall|j: int| 0 <= j < kids.len() implies (#[trigger] kids[j]).wf() by {
                            let j0 = if j < i { j } else { j + 1 };
                            assert(mid.children@[j0].wf());
                        }
                    }
                    if !self.terminal && self.children.len() == 1 {
                        proof {
                            assert(before.nodes() >= 3) by {
                                crate::node::lemma_node_sum_at_least(before.children@);
                            }
                        }
                        self.merge_only_child(node_count);
                        proof {
                            assert(self.text@[0] == before.text@[0]);
                        }
                    } else {
                        proof {
                            assert(self.wf());
                        }
                    }
                } else {
                    proof {
                        assert(self.children@[i as int].wf());
                        assert(self.wf());
                        if before.entry(key) is None {
                            assert forall|j: int| 0 <= j < self.children@.len() implies
                                (#[trigger] self.children@[j]).same_tree(before.children@[j]) by {
                                if j != i {
                                    lemma_same_tree_refl(before.children@[j]);
                                }
                            }
                        }
                    }
                }
            },
        }
    }
}

} // verus!
