//! The root of the trie: the subtrees by first code point, and the totals of
//! nodes and code points.

use vstd::prelude::*;
use vstd::string::StrSliceExecFns;
use crate::charset::CharacterSet;
use crate::charset::MatchingOptions;
use crate::charset::tag_text;
use crate::collect::Entry;
use crate::collect::lemma_collect_distinct;
use crate::search::lemma_locate_lies_in;
use crate::collect::entries_match;
use crate::collect::keys_match;
use crate::collect::root_fragment;
use crate::collect::stack_text;
use crate::insert::entry_after_insert;
use crate::node::Node;
use crate::node::weight_sum;
use crate::node::node_sum;
use crate::node::sorted_heads;
use crate::node::heads_at;
use crate::node::has_head;
use crate::node::head_index;
use crate::node::find_child;
use crate::node::find_slot;
use crate::node::lemma_slot_keeps_order;
use crate::node::lemma_slot_routes;
use crate::node::lemma_weight_sum_update;
use crate::node::lemma_weight_sum_remove;
use crate::node::lemma_weight_sum_member;
use crate::node::lemma_node_sum_update;
use crate::node::lemma_node_sum_remove;
use crate::node::lemma_node_sum_member;
use crate::node::lemma_head_unique;
use crate::node::lemma_same_tree_refl;
use crate::remove::entry_after_remove;

verus! {

/// A compressed prefix tree from text keys to optional payloads.
#[derive(Debug)]
pub struct Trie<V> {
    pub children: Vec<Node<V>>,
    pub node_count: u32,
    pub char_count: u32,
}

impl<V: Clone> Clone for Trie<V> {
    /// A copy of the trie, node by node, with each payload cloned.
    fn clone(&self) -> (r: Self)
        ensures
            r.node_count == self.node_count,
            r.char_count == self.char_count,
            r.children@.len() == self.children@.len(),
            forall|j: int|
                0 <= j < r.children@.len() ==> (#[trigger] r.children@[j]).same_shape(self.children@[j]),
            self.wf() ==> r.wf(),
    {
        let mut children: Vec<Node<V>> = Vec::new();
        let mut i: usize = 0;
        while i < self.children.len()
            invariant
                i <= self.children@.len(),
                children@.len() == i,
                forall|j: int| 0 <= j < i ==> (#[trigger] children@[j]).same_shape(self.children@[j]),
            decreases self.children@.len() - i,
        {
            let child = self.children[i].clone();
            children.push(child);
            i = i + 1;
        }
        proof {
            if self.wf() {
                crate::canon::lemma_same_shapes_wf(children@, self.children@);
            }
        }
        Trie { children, node_count: self.node_count, char_count: self.char_count }
    }
}

impl<V> Trie<V> {
    /// The structural invariant of the trie: every subtree is well formed, no
    /// two of them begin with the same code point, and the two totals are what
    /// a count over the tree gives.
    pub open spec fn wf(&self) -> bool {
        &&& sorted_heads(self.children@)
        &&& forall|i: int| 0 <= i < self.children@.len() ==> (#[trigger] self.children@[i]).wf()
        &&& self.node_count == node_sum(self.children@)
        &&& self.char_count == weight_sum(self.children@)
    }

    /// What the trie stores under `key`: `None` when the key is not stored,
    /// `Some(v)` when it is, with payload `v`.
    pub open spec fn entry(&self, key: Seq<char>) -> Option<Option<V>> {
        if key.len() > 0 && has_head(self.children@, key[0]) {
            self.children@[head_index(self.children@, key[0])].entry(key)
        } else {
            None
        }
    }

    /// The node that an exact search for `prefix` ends at.
    pub open spec fn locate(&self, prefix: Seq<char>) -> Option<Node<V>> {
        if prefix.len() > 0 && has_head(self.children@, prefix[0]) {
            self.children@[head_index(self.children@, prefix[0])].locate(prefix)
        } else {
            None
        }
    }

    /// The node that a search for `prefix` under `rules` ends at: what the
    /// subtree that begins with the first code point of `prefix` finds for the
    /// tagged query.
    pub open spec fn fuzzy(&self, prefix: Seq<char>, rules: Seq<(char, CharacterSet)>) -> Option<Node<V>> {
        if prefix.len() > 0 && has_head(self.children@, prefix[0]) {
            self.children@[head_index(self.children@, prefix[0])].fuzzy(tag_text(rules, prefix), rules)
        } else {
            None
        }
    }

    /// This trie stores what `before` stored and, unless `key` is empty, `key`
    /// as well: with the payload that it had in `before`, if it had one, and
    /// with `value` otherwise.
    pub open spec fn is_insert_of(&self, before: Trie<V>, key: Seq<char>, value: Option<V>) -> bool {
        forall|k: Seq<char>| #[trigger]
            self.entry(k) == entry_after_insert(
                before.entry(k),
                before.entry(key),
                key.len() > 0 && k == key,
                value,
            )
    }

    /// This trie stores what `before` stored, but for `key`.
    pub open spec fn is_remove_of(&self, before: Trie<V>, key: Seq<char>) -> bool {
        forall|k: Seq<char>| #[trigger] self.entry(k) == entry_after_remove(before.entry(k), k == key)
    }

    /// The two tries have the same totals and the same subtrees, node by node.
    pub open spec fn same_trie(&self, other: Trie<V>) -> bool {
        &&& self.node_count == other.node_count
        &&& self.char_count == other.char_count
        &&& self.children@.len() == other.children@.len()
        &&& forall|i: int|
            0 <= i < self.children@.len() ==> (#[trigger] self.children@[i]).same_tree(other.children@[i])
    }

    /// The empty trie.
    pub fn new() -> (r: Trie<V>)
        ensures
            r.wf(),
            r.children@.len() == 0,
            r.node_count == 0,
            r.char_count == 0,
            forall|k: Seq<char>| #[trigger] r.entry(k) is None,
    {
        let r = Trie { children: Vec::new(), node_count: 0, char_count: 0 };
        proof {
            assert(r.children@ =~= Seq::empty());
        }
        r
    }

    /// Stores `text` with the given payload. The empty key is not stored. A
    /// key that was stored with a payload keeps it.
    pub fn insert(&mut self, text: &str, optional_associated_value: Option<V>)
        requires
            old(self).wf(),
            old(self).node_count + 2 <= u32::MAX,
            old(self).char_count + text@.len() <= u32::MAX,
        ensures
            final(self).wf(),
            text@.len() == 0 ==> final(self).same_trie(*old(self)),
            final(self).is_insert_of(*old(self), text@, optional_associated_value),
    {
        let ghost before = *self;
        let ghost key = text@;
        let n: usize = text.unicode_len();
        if n == 0 {
            proof {
                assert forall|i: int| 0 <= i < self.children@.len() implies
                    (#[trigger] self.children@[i]).same_tree(before.children@[i]) by {
                    lemma_same_tree_refl(before.children@[i]);
                }
            }
            return ;
        }
        let c: char = text.get_char(0);
        proof {
            assert forall|j: int| 0 <= j < self.children@.len() implies
                (#[trigger] self.children@[j]).text@.len() >= 1 by {
                assert(self.children@[j].wf());
            }
        }
        match find_child(&self.children, c) {
            Some(i) => {
                let ghost kids_before = self.children@;
                proof {
                    lemma_weight_sum_member(kids_before, i as int);
                    lemma_head_unique(kids_before, c, i as int);
                    assert(kids_before[i as int].wf());
                }
                let mut nodes: u32 = self.node_count;
                let mut chars: u32 = self.char_count;
                self.children[i].insert(text, optional_associated_value, &mut nodes, &mut chars);
                self.node_count = nodes;
                self.char_count = chars;
                proof {
                    let kids = self.children@;
                    let grown = kids[i as int];
                    assert(kids =~= kids_before.update(i as int, grown));
                    lemma_weight_sum_update(kids_before, i as int, grown);
                    lemma_node_sum_update(kids_before, i as int, grown);
                    assert(sorted_heads(kids)) by {
                        assert forall|a: int, b: int| 0 <= a < b < kids.len() implies
                            ((#[trigger] kids[a]).text@[0] as int) < ((#[trigger] kids[b]).text@[0] as int) by {
                            assert((kids_before[a].text@[0] as int) < (kids_before[b].text@[0] as int));
                        }
                    }
                    assert forall|j: int| 0 <= j < kids.len() implies (#[trigger] kids[j]).wf() by {
                        if j != i {
                            assert(kids_before[j].wf());
                        }
                    }
                    assert forall|k: Seq<char>| #[trigger]
                        self.entry(k) == entry_after_insert(
                            before.entry(k),
                            before.entry(key),
                            k == key,
                            optional_associated_value,
                        ) by {
                        if k.len() > 0 {
                            let d = k[0];
                            if has_head(kids_before, d) {
                                let j = head_index(kids_before, d);
                                assert(heads_at(kids, d, j));
                                lemma_head_unique(kids, d, j);
                                if j != i {
                                    assert(kids[j] == kids_before[j]);
                                }
                            } else if has_head(kids, d) {
                                let j = head_index(kids, d);
                                assert(heads_at(kids_before, d, j));
                            }
                        }
                    }
                }
            },
            None => {
                let slot = find_slot(&self.children, c);
                let leaf = Node::new(text, true, optional_associated_value);
                let ghost leaf_snap = leaf;
                let ghost kids_before = self.children@;
                let ghost at = slot as int;
                proof {
                    assert(leaf.children@ =~= Seq::empty());
                    assert(node_sum(leaf.children@) == 0);
                }
                self.children.insert(slot, leaf);
                self.node_count = self.node_count + 1;
                self.char_count = self.char_count + (n as u32);
                proof {
                    let kids = self.children@;
                    assert(kids =~= kids_before.insert(at, leaf_snap));
                    assert(kids.remove(at) =~= kids_before);
                    lemma_weight_sum_remove(kids, at);
                    lemma_node_sum_remove(kids, at);
                    lemma_slot_keeps_order(kids_before, leaf_snap, at);
                    assert forall|j: int| 0 <= j < kids.len() implies (#[trigger] kids[j]).wf() by {
                        if j != at {
                            let j0 = if j < at { j } else { j - 1 };
                            assert(kids_before[j0].wf());
                        }
                    }
                    assert(before.entry(key) is None);
                    assert forall|k: Seq<char>| #[trigger]
                        self.entry(k) == entry_after_insert(
                            before.entry(k),
                            before.entry(key),
                            k == key,
                            optional_associated_value,
                        ) by {
                        if k.len() > 0 {
                            let d = k[0];
                            if d == c {
                                lemma_head_unique(kids, d, at);
                                crate::node::lemma_leaf_entry(leaf_snap, k);
                            } else {
                                lemma_slot_routes(kids_before, leaf_snap, at, d);
                            }
                        }
                    }
                }
            },
        }
    }

    /// Removes `text`. The empty key, and a key that is not stored, leave the
    /// trie as it was.
    pub fn remove(&mut self, text: &str)
        requires
            old(self).wf(),
        ensures
            final(self).wf(),
            old(self).entry(text@) is None ==> final(self).same_trie(*old(self)),
            final(self).is_remove_of(*old(self), text@),
    {
        let ghost before = *self;
        let ghost key = text@;
        proof {
            assert forall|i: int| 0 <= i < self.children@.len() implies
                (#[trigger] self.children@[i]).same_tree(before.children@[i]) by {
                lemma_same_tree_refl(before.children@[i]);
            }
        }
        let n: usize = text.unicode_len();
        if n == 0 {
            return ;
        }
        let c: char = text.get_char(0);
        proof {
            assert forall|j: int| 0 <= j < self.children@.len() implies
                (#[trigger] self.children@[j]).text@.len() >= 1 by {
                assert(self.children@[j].wf());
            }
        }
        match find_child(&self.children, c) {
            None => {},
            Some(i) => {
                let ghost kids_before = self.children@;
                proof {
                    lemma_weight_sum_member(kids_before, i as int);
                    lemma_node_sum_member(kids_before, i as int);
                    lemma_head_unique(kids_before, c, i as int);
                    assert(kids_before[i as int].wf());
                }
                let mut nodes: u32 = self.node_count;
                let mut chars: u32 = self.char_count;
                self.children[i].remove(text, &mut nodes, &mut chars);
                self.node_count = nodes;
                self.char_count = chars;
                let ghost mid = *self;
                proof {
                    let kids = self.children@;
                    let shrunk = kids[i as int];
                    assert(kids =~= kids_before.update(i as int, shrunk));
                    lemma_weight_sum_update(kids_before, i as int, shrunk);
                    lemma_node_sum_update(kids_before, i as int, shrunk);
                    lemma_weight_sum_member(kids, i as int);
                    assert(sorted_heads(kids)) by {
                        assert forall|a: int, b: int| 0 <= a < b < kids.len() implies
                            ((#[trigger] kids[a]).text@[0] as int) < ((#[trigger] kids[b]).text@[0] as int) by {
                            assert((kids_before[a].text@[0] as int) < (kids_before[b].text@[0] as int));
                        }
                    }
                    assert forall|j: int| 0 <= j < kids.len() && j != i implies (#[trigger] kids[j]).wf() by {
                        assert(kids_before[j].wf());
                    }
                    assert forall|k: Seq<char>| #[trigger]
                        mid.entry(k) == entry_after_remove(before.entry(k), k == key) by {
                        if k.len() > 0 {
                            let d = k[0];
                            if has_head(kids_before, d) {
                                let j = head_index(kids_before, d);
                                assert(heads_at(kids, d, j));
                                lemma_head_unique(kids, d, j);
                                if j != i {
                                    assert(kids[j] == kids_before[j]);
                                }
                            } else if has_head(kids, d) {
                                let j = head_index(kids, d);
                                assert(heads_at(kids_before, d, j));
                            }
                        }
                    }
                }
                if !self.children[i].terminal && self.children[i].children.len() == 0 {
                    proof {
                        assert(self.children@[i as int].dead());
                        lemma_weight_sum_remove(self.children@, i as int);
                        lemma_node_sum_remove(self.children@, i as int);
                        assert(self.children@[i as int].children@ =~= Seq::empty());
                        assert(node_sum(self.children@[i as int].children@) == 0);
                    }
                    let gone = self.children.remove(i);
                    self.node_count = self.node_count - 1;
                    self.char_count = self.char_count - (gone.weight as u32);
                    proof {
                        let a = mid.children@;
                        let b = self.children@;
                        assert forall|x: int, y: int| 0 <= x < y < b.len() implies
                            ((#[trigger] b[x]).text@[0] as int) < ((#[trigger] b[y]).text@[0] as int) by {
                            let x0 = if x < i { x } else { x + 1 };
                            let y0 = if y < i { y } else { y + 1 };
                            assert((a[x0].text@[0] as int) < (a[y0].text@[0] as int));
                        }
                        assert forall|j: int| 0 <= j < b.len() implies (#[trigger] b[j]).wf() by {
                            let j0 = if j < i { j } else { j + 1 };
                            assert(a[j0].wf());
                        }
                        assert forall|k: Seq<char>| #[trigger] self.entry(k) == mid.entry(k) by {
                            if k.len() > 0 {
                                let d = k[0];
                                if has_head(a, d) {
                                    let j = head_index(a, d);
                                    if j == i {
                                        crate::node::lemma_leaf_entry(a[i as int], k);
                                        if has_head(b, d) {
                                            let y = head_index(b, d);
                                            let y0 = if y < i { y } else { y + 1 };
                                            assert(heads_at(a, d, y0));
                                            lemma_head_unique(a, d, y0);
                                        }
                                    } else {
                                        let j1 = if j < i { j } else { j - 1 };
                                        assert(b[j1] == a[j]);
                                        assert(heads_at(b, d, j1));
                                        lemma_head_unique(b, d, j1);
                                    }
                                } else if has_head(b, d) {
                                    let y = head_index(b, d);
                                    let y0 = if y < i { y } else { y + 1 };
                                    assert(heads_at(a, d, y0));
                                }
                            }
                        }
                    }
                } else {
                    proof {
                        assert(self.children@[i as int].wf());
                        if before.entry(key) is None {
                            assert forall|j: int| 0 <= j < self.children@.len() implies
                                (#[trigger] self.children@[j]).same_tree(before.children@[j]) by {
                                if j != i {
                                    lemma_same_tree_refl(before.children@[j]);
                                }
                            }
                        }
                    }
                }
            },
        }
    }

    /// The root of the subtree that an exact search for `prefix` ends at.
    /// The empty prefix matches nothing.
    pub fn suffix_tree(&self, prefix: &str) -> (r: Option<&Node<V>>)
        requires
            self.wf(),
        ensures
            match r {
                Some(found) => self.locate(prefix@) == Some(*found),
                None => self.locate(prefix@) is None,
            },
    {
        if prefix.unicode_len() == 0 {
            return None;
        }
        let c: char = prefix.get_char(0);
        proof {
            assert forall|j: int| 0 <= j < self.children@.len() implies
                (#[trigger] self.children@[j]).text@.len() >= 1 by {
                assert(self.children@[j].wf());
            }
        }
        match find_child(&self.children, c) {
            Some(i) => {
                proof {
                    lemma_head_unique(self.children@, c, i as int);
                    assert(self.children@[i as int].wf());
                }
                self.children[i].suffix_root(prefix)
            },
            None => None,
        }
    }

    /// The keys below the match of an exact search for `prefix`, each without
    /// the part that the query covers, in depth-first order.
    pub fn get_string_suffixes(&self, prefix: &str) -> (r: Vec<String>)
        requires
            self.wf(),
        ensures
            match self.locate(prefix@) {
                Some(found) => keys_match(r@, found.collect(root_fragment(prefix@, found.text@))),
                None => r@.len() == 0,
            },
            forall|i: int, j: int| 0 <= i < j < r@.len() ==> (#[trigger] r@[i])@ != (#[trigger] r@[j])@,
    {
        let mut coll: Vec<String> = Vec::new();
        let mut emit: Vec<String> = Vec::new();
        proof {
            assert(stack_text(coll@) =~= Seq::empty());
        }
        match self.suffix_tree(prefix) {
            Some(t) => {
                t.get_string_suffixes(true, prefix, &mut coll, &mut emit);
                proof {
                    assert(Seq::<char>::empty() + root_fragment(prefix@, t.text@) =~= root_fragment(prefix@, t.text@));
                    assert(emit@.skip(0) =~= emit@);
                    let j = head_index(self.children@, prefix@[0]);
                    assert(self.children@[j].wf());
                    lemma_locate_lies_in(self.children@[j], prefix@);
                    assert forall|a: int, b: int| 0 <= a < b < emit@.len() implies
                        (#[trigger] emit@[a])@ != (#[trigger] emit@[b])@ by {
                        lemma_collect_distinct(*t, root_fragment(prefix@, t.text@), a, b);
                    }
                }
            },
            None => {},
        }
        emit
    }

    /// The keys below the match of an exact search for `prefix`, with their
    /// payloads, or `None` when nothing matches.
    pub fn get_suffixes_values(&self, prefix: &str) -> (r: Option<Vec<Entry<'_, V>>>)
        requires
            self.wf(),
        ensures
            match self.locate(prefix@) {
                Some(found) => r is Some && entries_match(
                    r->0@,
                    found.collect(root_fragment(prefix@, found.text@)),
                ),
                None => r is None,
            },
    {
        let mut coll: Vec<String> = Vec::new();
        proof {
            assert(stack_text(coll@) =~= Seq::empty());
        }
        match self.suffix_tree(prefix) {
            Some(t) => {
                let found = t.get_suffixes(true, prefix, &mut coll);
                proof {
                    assert(Seq::<char>::empty() + root_fragment(prefix@, t.text@) =~= root_fragment(prefix@, t.text@));
                }
                Some(found)
            },
            None => None,
        }
    }

    /// The root of the subtree that a search for `prefix` under the given
    /// options ends at. The empty prefix matches nothing.
    pub fn suffix_tree_with_matching_options(&self, prefix: &str, options: &MatchingOptions) -> (r: Option<
        &Node<V>,
    >)
        requires
            self.wf(),
        ensures
            match r {
                Some(found) => self.fuzzy(prefix@, options.treatments@) == Some(*found),
                None => self.fuzzy(prefix@, options.treatments@) is None,
            },
    {
        if prefix.unicode_len() == 0 {
            return None;
        }
        let c: char = prefix.get_char(0);
        proof {
            assert forall|j: int| 0 <= j < self.children@.len() implies
                (#[trigger] self.children@[j]).text@.len() >= 1 by {
                assert(self.children@[j].wf());
            }
        }
        match find_child(&self.children, c) {
            Some(i) => {
                proof {
                    lemma_head_unique(self.children@, c, i as int);
                    assert(self.children@[i as int].wf());
                }
                let tagged = options.tag(prefix);
                self.children[i].suffix_tree_with_options(tagged.chars.as_slice(), options)
            },
            None => None,
        }
    }

    /// The keys below the match of a search for `prefix` under the given
    /// options, with their payloads, or `None` when nothing matches.
    pub fn get_suffixes_with_matching_options(&self, prefix: &str, options: &MatchingOptions) -> (r: Option<
        Vec<Entry<'_, V>>,
    >)
        requires
            self.wf(),
        ensures
            match self.fuzzy(prefix@, options.treatments@) {
                Some(found) => r is Some && entries_match(
                    r->0@,
                    found.collect(root_fragment(prefix@, found.text@)),
                ),
                None => r is None,
            },
    {
        let mut coll: Vec<String> = Vec::new();
        proof {
            assert(stack_text(coll@) =~= Seq::empty());
        }
        match self.suffix_tree_with_matching_options(prefix, options) {
            Some(t) => {
                let found = t.get_suffixes(true, prefix, &mut coll);
                proof {
                    assert(Seq::<char>::empty() + root_fragment(prefix@, t.text@) =~= root_fragment(prefix@, t.text@));
                }
                Some(found)
            },
            None => None,
        }
    }
}

} // verus!
