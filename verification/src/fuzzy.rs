//! Prefix search under equivalence rules: the walk of a tagged query through
//! tagged edge labels, with a choice among the children that may continue it.

use vstd::prelude::*;
use vstd::slice::slice_subrange;
use vstd::string::StrSliceExecFns;
use crate::charset::CharacterSet;
use crate::charset::MatchingOptions;
use crate::charset::find_rule;
use crate::charset::is_trigger;
use crate::charset::normalized_text;
use crate::charset::tag_text;
use crate::node::Node;
use crate::node::find_child;
use crate::node::has_head;
use crate::node::head_index;
use crate::node::lemma_head_unique;
use crate::tagged::Offset;
use crate::tagged::Tagged;
use crate::tagged::lemma_tagged_offsets;
use crate::tagged::tags_agree;

verus! {

/// `n` is the length of the longest common prefix of two tagged texts, as
/// tags agree.
pub open spec fn is_tagged_common_len(a: Seq<(Tagged, Offset)>, b: Seq<(Tagged, Offset)>, n: int) -> bool {
    &&& 0 <= n <= a.len()
    &&& n <= b.len()
    &&& forall|i: int| 0 <= i < n ==> tags_agree((#[trigger] a[i]).0, b[i].0)
    &&& (n < a.len() && n < b.len() ==> !tags_agree(a[n].0, b[n].0))
}

/// The length of the longest common prefix of two tagged texts.
pub open spec fn tagged_common_len(a: Seq<(Tagged, Offset)>, b: Seq<(Tagged, Offset)>) -> int {
    choose|n: int| is_tagged_common_len(a, b, n)
}

/// `i` is the place of a node of weight `w` in a sequence ranked by falling
/// weight: behind every node that weighs as much or more.
pub open spec fn is_rank_position<V>(ranked: Seq<Node<V>>, w: usize, i: int) -> bool {
    &&& 0 <= i <= ranked.len()
    &&& forall|j: int| 0 <= j < i ==> (#[trigger] ranked[j]).weight >= w
    &&& (i < ranked.len() ==> ranked[i].weight < w)
}

/// The place of a node of weight `w` in a ranked sequence.
pub open spec fn rank_position<V>(ranked: Seq<Node<V>>, w: usize) -> int {
    choose|i: int| is_rank_position(ranked, w, i)
}

/// The ranked sequence with one more node at its place.
pub open spec fn ranked_insert<V>(ranked: Seq<Node<V>>, found: Node<V>) -> Seq<Node<V>> {
    ranked.insert(rank_position(ranked, found.weight), found)
}

/// The weights do not rise along the sequence.
pub open spec fn falling<V>(ranked: Seq<Node<V>>) -> bool {
    forall|i: int, j: int| 0 <= i < j < ranked.len() ==> (#[trigger] ranked[i]).weight >= (#[trigger] ranked[j]).weight
}

/// Every sequence has a place for a node of weight `w`.
pub proof fn lemma_rank_position<V>(ranked: Seq<Node<V>>, w: usize)
    ensures
        is_rank_position(ranked, w, rank_position(ranked, w)),
    decreases ranked.len(),
{
    if ranked.len() == 0 {
        assert(is_rank_position(ranked, w, 0));
    } else {
        let front = ranked.drop_last();
        lemma_rank_position(front, w);
        let i = rank_position(front, w);
        if i < front.len() {
            assert(is_rank_position(ranked, w, i)) by {
                assert forall|j: int| 0 <= j < i implies (#[trigger] ranked[j]).weight >= w by {
                    assert(front[j].weight >= w);
                }
                assert(ranked[i] == front[i]);
            }
        } else if ranked.last().weight < w {
            assert(is_rank_position(ranked, w, i)) by {
                assert forall|j: int| 0 <= j < i implies (#[trigger] ranked[j]).weight >= w by {
                    assert(front[j].weight >= w);
                }
            }
        } else {
            assert(is_rank_position(ranked, w, i + 1)) by {
                assert forall|j: int| 0 <= j < i + 1 implies (#[trigger] ranked[j]).weight >= w by {
                    if j < i {
                        assert(front[j].weight >= w);
                    }
                }
            }
        }
    }
}

/// A node put at its place leaves the weights falling.
pub proof fn lemma_ranked_insert_falling<V>(ranked: Seq<Node<V>>, found: Node<V>)
    requires
        falling(ranked),
    ensures
        falling(ranked_insert(ranked, found)),
{
    lemma_rank_position(ranked, found.weight);
    let at = rank_position(ranked, found.weight);
    let after = ranked_insert(ranked, found);
    assert forall|i: int, j: int| 0 <= i < j < after.len() implies (#[trigger] after[i]).weight >= (
    #[trigger] after[j]).weight by {
        let i0 = if i < at { i } else { i - 1 };
        let j0 = if j < at { j } else { j - 1 };
        if i == at {
            if j0 > at {
                assert(ranked[at].weight >= ranked[j0].weight);
            }
        } else if j == at {
            assert(ranked[i0].weight >= found.weight);
        } else {
            assert(ranked[i0].weight >= ranked[j0].weight);
        }
    }
}

/// The first node of a sequence, if it has one.
pub open spec fn first_of<V>(ranked: Seq<Node<V>>) -> Option<Node<V>> {
    if ranked.len() > 0 {
        Some(ranked[0])
    } else {
        None
    }
}

/// The heavier of two results; of two that weigh the same, the first.
pub open spec fn heavier<V>(a: Option<Node<V>>, b: Option<Node<V>>) -> Option<Node<V>> {
    match (a, b) {
        (Some(x), Some(y)) => if x.weight >= y.weight {
            Some(x)
        } else {
            Some(y)
        },
        (Some(x), None) => Some(x),
        (None, _) => b,
    }
}

/// The references point to the given nodes, in order.
pub open spec fn refs_match<V>(refs: Seq<&Node<V>>, nodes: Seq<Node<V>>) -> bool {
    &&& refs.len() == nodes.len()
    &&& forall|i: int| 0 <= i < refs.len() ==> *(#[trigger] refs[i]) == nodes[i]
}

impl<V> Node<V> {
    /// The node that a search under `rules` ends at, where `query` is read
    /// from the start of this node's label. When the query ends within the
    /// label, that is this node. Otherwise the search goes on with the rest
    /// of the query in the children that may continue it and in the child
    /// that continues it exactly, and the heaviest result counts.
    pub open spec fn fuzzy(&self, query: Seq<(Tagged, Offset)>, rules: Seq<(char, CharacterSet)>) -> Option<
        Node<V>,
    >
        decreases self, 1nat, 0nat,
    {
        let label = tag_text(rules, self.text@);
        let taken = tagged_common_len(query, label);
        if !is_tagged_common_len(query, label, taken) {
            None
        } else if taken == query.len() {
            Some(*self)
        } else {
            let rest = query.skip(taken);
            let key = if taken < label.len() {
                self.text@[label[taken].1 as int]
            } else {
                query[taken].0.written()
            };
            let ranked = self.fuzzy_children(rest, rules, self.children@.len());
            let exact = if has_head(self.children@, key) {
                self.children@[head_index(self.children@, key)].fuzzy(rest, rules)
            } else {
                None
            };
            heavier(first_of(ranked), exact)
        }
    }

    /// The results of the search in those of the first `upto` children whose
    /// label begins with the first code point of the query or with a trigger
    /// of the rules, ranked by falling weight, the earlier child first among
    /// equals.
    pub open spec fn fuzzy_children(
        &self,
        query: Seq<(Tagged, Offset)>,
        rules: Seq<(char, CharacterSet)>,
        upto: nat,
    ) -> Seq<Node<V>>
        decreases self, 0nat, upto,
    {
        if upto == 0 || upto > self.children@.len() || query.len() == 0 {
            Seq::empty()
        } else {
            let before = self.fuzzy_children(query, rules, (upto - 1) as nat);
            let child = self.children@[upto - 1];
            if child.text@[0] == query[0].0.written() || is_trigger(rules, child.text@[0]) {
                match child.fuzzy(query, rules) {
                    Some(found) => ranked_insert(before, found),
                    None => before,
                }
            } else {
                before
            }
        }
    }

    /// The results of the search in the children come by falling weight.
    pub proof fn lemma_fuzzy_children_falling(
        &self,
        query: Seq<(Tagged, Offset)>,
        rules: Seq<(char, CharacterSet)>,
        upto: nat,
    )
        ensures
            falling(self.fuzzy_children(query, rules, upto)),
        decreases upto,
    {
        if !(upto == 0 || upto > self.children@.len() || query.len() == 0) {
            self.lemma_fuzzy_children_falling(query, rules, (upto - 1) as nat);
            let before = self.fuzzy_children(query, rules, (upto - 1) as nat);
            let child = self.children@[upto - 1];
            if child.fuzzy(query, rules) is Some {
                lemma_ranked_insert_falling(before, child.fuzzy(query, rules)->0);
            }
        }
    }

    /// The results of the search in the children that may continue the
    /// query, ranked by falling weight.
    pub fn match_on_treated_suffix_trees(&self, prefix: &[(Tagged, Offset)], options: &MatchingOptions) -> (r:
        Vec<&Node<V>>)
        requires
            self.wf(),
        ensures
            refs_match(r@, self.fuzzy_children(prefix@, options.treatments@, self.children@.len() as nat)),
            forall|i: int, j: int| 0 <= i < j < r@.len() ==> (#[trigger] r@[i]).weight >= (#[trigger] r@[j]).weight,
        decreases self, 0nat, 0nat,
    {
        let mut out: Vec<&Node<V>> = Vec::new();
        proof {
            self.lemma_fuzzy_children_falling(prefix@, options.treatments@, self.children@.len() as nat);
        }
        if prefix.len() == 0 {
            return out;
        }
        let first: char = prefix[0].0.char();
        let mut i: usize = 0;
        while i < self.children.len()
            invariant
                self.wf(),
                i <= self.children@.len(),
                prefix@.len() > 0,
                first == prefix@[0].0.written(),
                refs_match(out@, self.fuzzy_children(prefix@, options.treatments@, i as nat)),
            decreases self.children@.len() - i,
        {
            proof {
                assert(self.children@[i as int].wf());
            }
            let child: &Node<V> = &self.children[i];
            let head: char = child.text.as_str().get_char(0);
            let ghost before = out@;
            if head == first || find_rule(&options.treatments, head).is_some() {
                match child.suffix_tree_with_options(prefix, options) {
                    Some(found) => {
                        let at = rank_of(&out, found.weight);
                        out.insert(at, found);
                        proof {
                            let ranked = self.fuzzy_children(prefix@, options.treatments@, i as nat);
                            let next = ranked_insert(ranked, *found);
                            assert(out@ =~= before.insert(at as int, found));
                            assert forall|j: int| 0 <= j < out@.len() implies
                                *(#[trigger] out@[j]) == next[j] by {
                                if j < at {
                                    assert(*before[j] == ranked[j]);
                                } else if j > at {
                                    assert(*before[j - 1] == ranked[j - 1]);
                                }
                            }
                        }
                    },
                    None => {},
                }
            }
            i = i + 1;
        }
        out
    }

    /// Prefix search under equivalence rules below this node.
    pub fn suffix_tree_with_options(&self, prefix: &[(Tagged, Offset)], options: &MatchingOptions) -> (r: Option<
        &Node<V>,
    >)
        requires
            self.wf(),
        ensures
            match r {
                Some(found) => self.fuzzy(prefix@, options.treatments@) == Some(*found),
                None => self.fuzzy(prefix@, options.treatments@) is None,
            },
        decreases self, 1nat, 0nat,
    {
        let label_len: usize = self.text.as_str().unicode_len();
        let self_tagged = options.tag(self.text.as_str());
        let taken: usize = common_tagged_len(prefix, self_tagged.chars.as_slice());
        if taken == prefix.len() {
            return Some(self);
        }
        let rest = slice_subrange(prefix, taken, prefix.len());
        proof {
            lemma_tagged_offsets(normalized_text(options.treatments@, self.text@));
            assert(rest@ =~= prefix@.skip(taken as int));
        }
        let key: char = if taken < self_tagged.chars.len() {
            let at: usize = self_tagged.chars[taken].1;
            self.text.as_str().get_char(at)
        } else {
            prefix[taken].0.char()
        };
        let ranked = self.match_on_treated_suffix_trees(rest, options);
        let best: Option<&Node<V>> = if ranked.len() > 0 {
            Some(ranked[0])
        } else {
            None
        };
        proof {
            assert forall|j: int| 0 <= j < self.children@.len() implies
                (#[trigger] self.children@[j]).text@.len() >= 1 by {
                assert(self.children@[j].wf());
            }
        }
        let exact: Option<&Node<V>> = match find_child(&self.children, key) {
            Some(j) => {
                proof {
                    lemma_head_unique(self.children@, key, j as int);
                    assert(self.children@[j as int].wf());
                }
                self.children[j].suffix_tree_with_options(rest, options)
            },
            None => None,
        };
        match (best, exact) {
            (Some(x), Some(y)) => {
                if x.weight >= y.weight {
                    Some(x)
                } else {
                    Some(y)
                }
            },
            (Some(x), None) => Some(x),
            (None, other) => other,
        }
    }
}

/// The place of a node of weight `w` in a sequence ranked by falling weight.
pub fn rank_of<V>(ranked: &Vec<&Node<V>>, w: usize) -> (r: usize)
    ensures
        r <= ranked@.len(),
        forall|nodes: Seq<Node<V>>| refs_match(ranked@, nodes) ==> #[trigger] rank_position(nodes, w) == r,
{
    let mut i: usize = 0;
    while i < ranked.len() && ranked[i].weight >= w
        invariant
            i <= ranked@.len(),
            forall|j: int| 0 <= j < i ==> (#[trigger] ranked@[j]).weight >= w,
        decreases ranked@.len() - i,
    {
        i = i + 1;
    }
    proof {
        assert forall|nodes: Seq<Node<V>>| refs_match(ranked@, nodes) implies
            #[trigger] rank_position(nodes, w)
            == i by {
            assert forall|j: int| 0 <= j < i implies (#[trigger] nodes[j]).weight >= w by {
                assert(*ranked@[j] == nodes[j]);
            }
            if i < ranked@.len() {
                assert(*ranked@[i as int] == nodes[i as int]);
            }
            assert(is_rank_position(nodes, w, i as int));
            let k = rank_position(nodes, w);
            assert(is_rank_position(nodes, w, k));
            if k < i {
                assert(nodes[k].weight >= w);
            } else if i < k {
                assert(nodes[i as int].weight >= w);
            }
        }
    }
    i
}

/// The length of the longest common prefix of two tagged texts.
pub fn common_tagged_len(a: &[(Tagged, Offset)], b: &[(Tagged, Offset)]) -> (n: usize)
    ensures
        is_tagged_common_len(a@, b@, n as int),
        n == tagged_common_len(a@, b@),
{
    let mut i: usize = 0;
    while i < a.len() && i < b.len() && a[i].0 == b[i].0
        invariant
            i <= a@.len(),
            i <= b@.len(),
            forall|j: int| 0 <= j < i ==> tags_agree((#[trigger] a@[j]).0, b@[j].0),
        decreases a@.len() - i,
    {
        i = i + 1;
    }
    proof {
        assert(is_tagged_common_len(a@, b@, i as int));
        let k = tagged_common_len(a@, b@);
        assert(is_tagged_common_len(a@, b@, k));
        if k < i {
            assert(tags_agree(a@[k].0, b@[k].0));
        } else if i < k {
            assert(tags_agree(a@[i as int].0, b@[i as int].0));
        }
    }
    i
}

/// The node that a search under equivalence rules ends at is a node of the
/// subtree that was searched, and so the root of a well-formed subtree.
pub proof fn lemma_fuzzy_lies_in<V>(n: Node<V>, query: Seq<(Tagged, Offset)>, rules: Seq<(char, CharacterSet)>)
    requires
        n.wf(),
        n.fuzzy(query, rules) is Some,
    ensures
        n.fuzzy(query, rules)->0.lies_in(n),
        n.fuzzy(query, rules)->0.wf(),
    decreases n, 1nat, 0nat,
{
    let label = tag_text(rules, n.text@);
    let taken = tagged_common_len(query, label);
    let found = n.fuzzy(query, rules)->0;
    if taken != query.len() {
        let rest = query.skip(taken);
        let key = if taken < label.len() {
            n.text@[label[taken].1 as int]
        } else {
            query[taken].0.written()
        };
        let ranked = n.fuzzy_children(rest, rules, n.children@.len());
        if ranked.len() > 0 && found == ranked[0] {
            lemma_fuzzy_children_lie_in(n, rest, rules, n.children@.len(), 0);
        } else {
            let j = head_index(n.children@, key);
            let child = n.children@[j];
            assert(child.wf());
            lemma_fuzzy_lies_in(child, rest, rules);
            assert(found.lies_in(n.children@[j]));
        }
    }
    crate::laws::lemma_wf_everywhere(n, found);
}

/// The same of every result of the search in the children.
pub proof fn lemma_fuzzy_children_lie_in<V>(
    n: Node<V>,
    query: Seq<(Tagged, Offset)>,
    rules: Seq<(char, CharacterSet)>,
    upto: nat,
    idx: int,
)
    requires
        n.wf(),
        upto <= n.children@.len(),
        0 <= idx < n.fuzzy_children(query, rules, upto).len(),
    ensures
        n.fuzzy_children(query, rules, upto)[idx].lies_in(n),
    decreases n, 0nat, upto,
{
    let before = n.fuzzy_children(query, rules, (upto - 1) as nat);
    let child = n.children@[upto - 1];
    let all = n.fuzzy_children(query, rules, upto);
    assert(child.wf());
    if (child.text@[0] == query[0].0.written() || is_trigger(rules, child.text@[0])) && child.fuzzy(query, rules)
        is Some {
        let found = child.fuzzy(query, rules)->0;
        lemma_rank_position(before, found.weight);
        let at = rank_position(before, found.weight);
        if idx == at {
            lemma_fuzzy_lies_in(child, query, rules);
            assert(all[idx].lies_in(n.children@[upto - 1]));
        } else {
            let old_idx = if idx < at { idx } else { idx - 1 };
            assert(all[idx] == before[old_idx]);
            lemma_fuzzy_children_lie_in(n, query, rules, (upto - 1) as nat, old_idx);
        }
    } else {
        lemma_fuzzy_children_lie_in(n, query, rules, (upto - 1) as nat, idx);
    }
}

} // verus!
