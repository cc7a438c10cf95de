//! Equivalence rules for code points and the normalization of text under
//! them.

use std::collections::hash_map::DefaultHasher;
use std::hash::Hash;
use std::hash::Hasher;
use vstd::prelude::*;
use vstd::string::StrSliceExecFns;
use crate::tagged::NormalizedChar;
use crate::tagged::Offset;
use crate::tagged::Tagged;
use crate::tagged::TaggedString;
use crate::tagged::tagged_of;

verus! {

/// Whether a code point has the Unicode property `White_Space`, as
/// `char::is_whitespace` reports it.
pub uninterp spec fn white_space(c: char) -> bool;

/// The first code point of the upper-case form of a code point, as
/// `char::to_uppercase` yields it.
pub uninterp spec fn upper_case(c: char) -> char;

/// The hash of a sequence of code points under `DefaultHasher::new()`.
pub uninterp spec fn class_hash(members: Seq<char>) -> u64;

/// Calls `char::is_whitespace`. The result is a function of the code point
/// alone; the library knows it only under the name `white_space`.
#[verifier::external_body]
pub(crate) fn is_white_space(c: char) -> (r: bool)
    ensures
        r == white_space(c),
{
    c.is_whitespace()
}

/// Calls `char::to_uppercase` and takes the first code point of what it
/// yields, or the code point itself where it yields nothing. The result is a
/// function of the code point alone; the library knows it only under the name
/// `upper_case`.
#[verifier::external_body]
pub(crate) fn to_upper_case(c: char) -> (r: char)
    ensures
        r == upper_case(c),
{
    c.to_uppercase().next().unwrap_or(c)
}

/// Feeds the code points to a `DefaultHasher` made by `DefaultHasher::new()`,
/// as `Hash` for a `Vec<char>` does, and returns what `finish` gives. The
/// hasher starts from fixed keys, so the result is a function of the
/// sequence; the library knows it only under the name `class_hash`.
#[verifier::external_body]
pub(crate) fn hash_members(members: &Vec<char>) -> (h: u64)
    ensures
        h == class_hash(members@),
{
    let mut s = DefaultHasher::new();
    members.hash(&mut s);
    s.finish()
}

/// An equivalence class of code points.
#[derive(Debug, Clone)]
pub enum CharacterSet {
    /// White space is dropped.
    WhiteSpaces,
    /// The line feed is dropped.
    NewLines,
    /// White space and the line feed are dropped.
    WhiteSpacesAndNewLines,
    /// Letters are compared in upper case.
    CapitalizedLetters,
    /// The listed code points are interchangeable.
    Custom(Vec<char>),
}

/// The code points of the sequence rise strictly.
pub open spec fn strictly_increasing(s: Seq<char>) -> bool {
    forall|i: int, j: int| 0 <= i < j < s.len() ==> (#[trigger] s[i] as int) < (#[trigger] s[j] as int)
}

/// `out` lists the code points of `members` once each, in rising order.
pub open spec fn is_canonical(members: Seq<char>, out: Seq<char>) -> bool {
    &&& strictly_increasing(out)
    &&& forall|t: int| 0 <= t < out.len() ==> members.contains(#[trigger] out[t])
    &&& forall|t: int| 0 <= t < members.len() ==> out.contains(#[trigger] members[t])
}

/// The code points of `members` once each, in rising order.
pub open spec fn canonical(members: Seq<char>) -> Seq<char> {
    choose|out: Seq<char>| is_canonical(members, out)
}

/// Two rising sequences with the same code points are the same sequence.
pub proof fn lemma_canonical_unique(m1: Seq<char>, m2: Seq<char>, a: Seq<char>, b: Seq<char>)
    requires
        is_canonical(m1, a),
        is_canonical(m2, b),
        forall|c: char| m1.contains(c) <==> m2.contains(c),
    ensures
        a == b,
    decreases a.len(),
{
    if a.len() == 0 {
        if b.len() > 0 {
            assert(m2.contains(b[0]));
            assert(m1.contains(b[0]));
            let t = choose|t: int| 0 <= t < m1.len() && m1[t] == b[0];
            assert(a.contains(m1[t]));
        }
        assert(a =~= b);
    } else if b.len() == 0 {
        assert(m1.contains(a[0]));
        assert(m2.contains(a[0]));
        let t = choose|t: int| 0 <= t < m2.len() && m2[t] == a[0];
        assert(b.contains(m2[t]));
    } else {
        let x = a.last();
        let y = b.last();
        assert(b.contains(x)) by {
            assert(m1.contains(a[a.len() - 1]));
            let t = choose|t: int| 0 <= t < m2.len() && m2[t] == x;
            assert(b.contains(m2[t]));
        }
        assert(a.contains(y)) by {
            assert(m2.contains(b[b.len() - 1]));
            let t = choose|t: int| 0 <= t < m1.len() && m1[t] == y;
            assert(a.contains(m1[t]));
        }
        let ix = choose|i: int| 0 <= i < b.len() && b[i] == x;
        let iy = choose|i: int| 0 <= i < a.len() && a[i] == y;
        if ix < b.len() - 1 {
            assert((b[ix] as int) < (b[b.len() - 1] as int));
        }
        if iy < a.len() - 1 {
            assert((a[iy] as int) < (a[a.len() - 1] as int));
        }
        assert(x == y);
        let a0 = a.drop_last();
        let b0 = b.drop_last();
        assert(strictly_increasing(a0)) by {
            assert forall|i: int, j: int| 0 <= i < j < a0.len() implies
                (#[trigger] a0[i] as int) < (#[trigger] a0[j] as int) by {
                assert((a[i] as int) < (a[j] as int));
            }
        }
        assert(strictly_increasing(b0)) by {
            assert forall|i: int, j: int| 0 <= i < j < b0.len() implies
                (#[trigger] b0[i] as int) < (#[trigger] b0[j] as int) by {
                assert((b[i] as int) < (b[j] as int));
            }
        }
        assert forall|t: int| 0 <= t < a0.len() implies b0.contains(#[trigger] a0[t]) by {
            assert(m1.contains(a[t]));
            let u = choose|u: int| 0 <= u < m2.len() && m2[u] == a[t];
            assert(b.contains(m2[u]));
            let w = choose|w: int| 0 <= w < b.len() && b[w] == a[t];
            assert((a[t] as int) < (a[a.len() - 1] as int));
            assert(w < b.len() - 1);
            assert(b0[w] == a0[t]);
        }
        assert forall|t: int| 0 <= t < b0.len() implies a0.contains(#[trigger] b0[t]) by {
            assert(m2.contains(b[t]));
            let u = choose|u: int| 0 <= u < m1.len() && m1[u] == b[t];
            assert(a.contains(m1[u]));
            let w = choose|w: int| 0 <= w < a.len() && a[w] == b[t];
            assert((b[t] as int) < (b[b.len() - 1] as int));
            assert(w < a.len() - 1);
            assert(a0[w] == b0[t]);
        }
        lemma_canonical_unique(a0, b0, a0, b0);
        assert(a =~= a0.push(x));
        assert(b =~= b0.push(y));
    }
}

/// `p` is the place of `x` in a rising sequence: behind every smaller code
/// point and before every other.
pub open spec fn is_slot(s: Seq<char>, x: char, p: int) -> bool {
    &&& 0 <= p <= s.len()
    &&& forall|t: int| 0 <= t < p ==> (#[trigger] s[t] as int) < (x as int)
    &&& forall|t: int| p <= t < s.len() ==> (#[trigger] s[t] as int) >= (x as int)
}

/// Every rising sequence has a place for every code point.
pub proof fn lemma_slot_exists(s: Seq<char>, x: char)
    requires
        strictly_increasing(s),
    ensures
        exists|p: int| is_slot(s, x, p),
    decreases s.len(),
{
    if s.len() == 0 {
        assert(is_slot(s, x, 0));
    } else {
        let front = s.drop_last();
        assert(strictly_increasing(front)) by {
            assert forall|i: int, j: int| 0 <= i < j < front.len() implies (#[trigger] front[i] as int) < (
            #[trigger] front[j] as int) by {
                assert((s[i] as int) < (s[j] as int));
            }
        }
        lemma_slot_exists(front, x);
        let p = choose|p: int| is_slot(front, x, p);
        if p < front.len() {
            assert(is_slot(s, x, p)) by {
                assert forall|t: int| 0 <= t < p implies (#[trigger] s[t] as int) < (x as int) by {
                    assert((front[t] as int) < (x as int));
                }
                assert forall|t: int| p <= t < s.len() implies (#[trigger] s[t] as int) >= (x as int) by {
                    if t < front.len() {
                        assert((front[t] as int) >= (x as int));
                    } else {
                        assert((front[p] as int) >= (x as int));
                        assert((s[p] as int) < (s[t] as int));
                    }
                }
            }
        } else if (s.last() as int) < (x as int) {
            assert(is_slot(s, x, p + 1)) by {
                assert forall|t: int| 0 <= t < p + 1 implies (#[trigger] s[t] as int) < (x as int) by {
                    if t < p {
                        assert((front[t] as int) < (x as int));
                    }
                }
            }
        } else {
            assert(is_slot(s, x, p)) by {
                assert forall|t: int| 0 <= t < p implies (#[trigger] s[t] as int) < (x as int) by {
                    assert((front[t] as int) < (x as int));
                }
            }
        }
    }
}

/// Every sequence of code points has a rising list of its members.
pub proof fn lemma_canonical_exists(members: Seq<char>)
    ensures
        is_canonical(members, canonical(members)),
    decreases members.len(),
{
    if members.len() == 0 {
        assert(is_canonical(members, Seq::<char>::empty()));
    } else {
        let front = members.drop_last();
        let x = members.last();
        lemma_canonical_exists(front);
        let out0 = canonical(front);
        assert forall|c: char| front.contains(c) implies members.contains(c) by {
            let u = choose|u: int| 0 <= u < front.len() && front[u] == c;
            assert(members[u] == c);
        }
        if out0.contains(x) {
            assert(is_canonical(members, out0)) by {
                assert forall|t: int| 0 <= t < members.len() implies out0.contains(#[trigger] members[t]) by {
                    if t < front.len() {
                        assert(out0.contains(front[t]));
                    }
                }
                assert forall|t: int| 0 <= t < out0.len() implies members.contains(#[trigger] out0[t]) by {
                    assert(front.contains(out0[t]));
                }
            }
        } else {
            lemma_slot_exists(out0, x);
            let p = choose|p: int| is_slot(out0, x, p);
            let out = out0.insert(p, x);
            assert(is_canonical(members, out)) by {
                assert forall|a: int, b: int| 0 <= a < b < out.len() implies (#[trigger] out[a] as int) < (
                #[trigger] out[b] as int) by {
                    let a0 = if a < p { a } else { a - 1 };
                    let b0 = if b < p { b } else { b - 1 };
                    if a == p {
                        assert((out0[b0] as int) >= (x as int));
                        assert(out0.contains(out0[b0]));
                    } else if b == p {
                        assert((out0[a0] as int) < (x as int));
                    } else {
                        assert((out0[a0] as int) < (out0[b0] as int));
                    }
                }
                assert forall|t: int| 0 <= t < out.len() implies members.contains(#[trigger] out[t]) by {
                    if t == p {
                        assert(members[members.len() - 1] == x);
                    } else {
                        let t0 = if t < p { t } else { t - 1 };
                        assert(front.contains(out0[t0]));
                    }
                }
                assert forall|t: int| 0 <= t < members.len() implies out.contains(#[trigger] members[t]) by {
                    if t < front.len() {
                        assert(out0.contains(front[t]));
                        let u = choose|u: int| 0 <= u < out0.len() && out0[u] == front[t];
                        let u1 = if u < p { u } else { u + 1 };
                        assert(out[u1] == members[t]);
                    } else {
                        assert(out[p] == x);
                    }
                }
            }
        }
    }
}

/// Two lists with the same members have the same rising list, so their
/// classes have the same hash.
pub proof fn lemma_equal_sets_equal_class(m1: Seq<char>, m2: Seq<char>)
    requires
        forall|c: char| m1.contains(c) <==> m2.contains(c),
    ensures
        canonical(m1) == canonical(m2),
        class_hash(canonical(m1)) == class_hash(canonical(m2)),
{
    lemma_canonical_exists(m1);
    lemma_canonical_exists(m2);
    lemma_canonical_unique(m1, m2, canonical(m1), canonical(m2));
}

/// The members of a class once each, in rising order.
pub fn canonical_members(members: &Vec<char>) -> (r: Vec<char>)
    ensures
        is_canonical(members@, r@),
        r@ == canonical(members@),
{
    let mut out: Vec<char> = Vec::new();
    let mut i: usize = 0;
    while i < members.len()
        invariant
            i <= members@.len(),
            strictly_increasing(out@),
            forall|t: int| 0 <= t < out@.len() ==> members@.take(i as int).contains(#[trigger] out@[t]),
            forall|t: int| 0 <= t < i ==> out@.contains(#[trigger] members@[t]),
        decreases members@.len() - i,
    {
        let x: char = members[i];
        let mut j: usize = 0;
        while j < out.len() && out[j] < x
            invariant
                j <= out@.len(),
                forall|t: int| 0 <= t < j ==> (#[trigger] out@[t] as int) < (x as int),
                strictly_increasing(out@),
            decreases out@.len() - j,
        {
            j = j + 1;
        }
        let ghost prev = out@;
        let ghost seen = members@.take(i as int);
        let ghost next = members@.take(i as int + 1);
        proof {
            assert forall|c: char| seen.contains(c) implies next.contains(c) by {
                let u = choose|u: int| 0 <= u < seen.len() && seen[u] == c;
                assert(next[u] == c);
            }
            assert(next[i as int] == x);
        }
        if j < out.len() && out[j] == x {
            proof {
                assert forall|t: int| 0 <= t < i + 1 implies out@.contains(#[trigger] members@[t]) by {
                    if t == i {
                        assert(out@[j as int] == x);
                    }
                }
            }
        } else {
            out.insert(j, x);
            proof {
                assert(out@ =~= prev.insert(j as int, x));
                assert forall|a: int, b: int| 0 <= a < b < out@.len() implies
                    (#[trigger] out@[a] as int) < (#[trigger] out@[b] as int) by {
                    let a0 = if a < j { a } else { a - 1 };
                    let b0 = if b < j { b } else { b - 1 };
                    if a != j && b != j {
                        assert((prev[a0] as int) < (prev[b0] as int));
                    } else if a == j {
                        assert(b0 >= j);
                        if b0 > j {
                            assert((prev[j as int] as int) < (prev[b0] as int));
                        }
                    } else {
                        assert((prev[a0] as int) < (x as int));
                    }
                }
                assert forall|t: int| 0 <= t < out@.len() implies next.contains(#[trigger] out@[t]) by {
                    if t != j {
                        let t0 = if t < j { t } else { t - 1 };
                        assert(seen.contains(prev[t0]));
                    }
                }
                assert forall|t: int| 0 <= t < i + 1 implies out@.contains(#[trigger] members@[t]) by {
                    if t == i {
                        assert(out@[j as int] == x);
                    } else {
                        assert(prev.contains(members@[t]));
                        let u = choose|u: int| 0 <= u < prev.len() && prev[u] == members@[t];
                        let u1 = if u < j { u } else { u + 1 };
                        assert(out@[u1] == members@[t]);
                    }
                }
            }
        }
        i = i + 1;
    }
    proof {
        assert(members@.take(i as int) =~= members@);
        let c = canonical(members@);
        assert(is_canonical(members@, out@));
        assert(is_canonical(members@, c));
        lemma_canonical_unique(members@, members@, out@, c);
    }
    out
}

impl CharacterSet {
    /// What a code point is compared as under this class.
    pub open spec fn normalized(&self, c: char) -> NormalizedChar {
        match self {
            CharacterSet::WhiteSpaces => if white_space(c) {
                NormalizedChar::Squash
            } else {
                NormalizedChar::Char(c)
            },
            CharacterSet::NewLines => if c == '\n' {
                NormalizedChar::Squash
            } else {
                NormalizedChar::Char(c)
            },
            CharacterSet::WhiteSpacesAndNewLines => if white_space(c) || c == '\n' {
                NormalizedChar::Squash
            } else {
                NormalizedChar::Char(c)
            },
            CharacterSet::CapitalizedLetters => NormalizedChar::Char(upper_case(c)),
            CharacterSet::Custom(members) => if members@.contains(c) {
                NormalizedChar::Sentinel(class_hash(canonical(members@)), c)
            } else {
                NormalizedChar::Char(c)
            },
        }
    }

    /// Normalizes one code point under this class.
    pub fn normalized_char(&self, c: char) -> (r: NormalizedChar)
        ensures
            r == self.normalized(c),
    {
        match self {
            CharacterSet::WhiteSpaces => {
                if is_white_space(c) {
                    NormalizedChar::Squash
                } else {
                    NormalizedChar::Char(c)
                }
            },
            CharacterSet::NewLines => {
                if c == '\n' {
                    NormalizedChar::Squash
                } else {
                    NormalizedChar::Char(c)
                }
            },
            CharacterSet::WhiteSpacesAndNewLines => {
                if is_white_space(c) || c == '\n' {
                    NormalizedChar::Squash
                } else {
                    NormalizedChar::Char(c)
                }
            },
            CharacterSet::CapitalizedLetters => NormalizedChar::Char(to_upper_case(c)),
            CharacterSet::Custom(members) => {
                if holds(members, c) {
                    let sorted = canonical_members(members);
                    NormalizedChar::Sentinel(hash_members(&sorted), c)
                } else {
                    NormalizedChar::Char(c)
                }
            },
        }
    }
}

/// Two custom classes with the same members make the same of every code
/// point: a member becomes the same sentinel under both.
pub proof fn lemma_equal_sets_equal_sentinels(a: CharacterSet, b: CharacterSet, c: char)
    requires
        a is Custom,
        b is Custom,
        forall|x: char| a->Custom_0@.contains(x) <==> b->Custom_0@.contains(x),
    ensures
        a.normalized(c) == b.normalized(c),
{
    lemma_equal_sets_equal_class(a->Custom_0@, b->Custom_0@);
}

/// Whether the code point is among the members.
pub fn holds(members: &Vec<char>, c: char) -> (r: bool)
    ensures
        r == members@.contains(c),
{
    let mut i: usize = 0;
    while i < members.len()
        invariant
            i <= members@.len(),
            forall|t: int| 0 <= t < i ==> members@[t] != c,
        decreases members@.len() - i,
    {
        if members[i] == c {
            return true;
        }
        i = i + 1;
    }
    false
}

/// The rule at index `i` is the first one whose trigger is `c`.
pub open spec fn first_rule_at(rules: Seq<(char, CharacterSet)>, c: char, i: int) -> bool {
    &&& 0 <= i < rules.len()
    &&& rules[i].0 == c
    &&& forall|j: int| 0 <= j < i ==> (#[trigger] rules[j]).0 != c
}

/// Some rule has the trigger `c`.
pub open spec fn is_trigger(rules: Seq<(char, CharacterSet)>, c: char) -> bool {
    exists|i: int| 0 <= i < rules.len() && (#[trigger] rules[i]).0 == c
}

/// The index of the first rule whose trigger is `c`.
pub open spec fn rule_index(rules: Seq<(char, CharacterSet)>, c: char) -> int {
    choose|i: int| first_rule_at(rules, c, i)
}

/// What a code point is compared as under the rules: what the class of its
/// first rule makes of it, or the code point itself when no rule has it as
/// trigger.
pub open spec fn normalize(rules: Seq<(char, CharacterSet)>, c: char) -> NormalizedChar {
    if is_trigger(rules, c) {
        rules[rule_index(rules, c)].1.normalized(c)
    } else {
        NormalizedChar::Char(c)
    }
}

/// A text, code point by code point, as it is compared under the rules.
pub open spec fn normalized_text(rules: Seq<(char, CharacterSet)>, text: Seq<char>) -> Seq<NormalizedChar> {
    Seq::new(text.len(), |i: int| normalize(rules, text[i]))
}

/// The tagged positions of a text under the rules.
pub open spec fn tag_text(rules: Seq<(char, CharacterSet)>, text: Seq<char>) -> Seq<(Tagged, Offset)> {
    tagged_of(normalized_text(rules, text))
}

/// The index of the first rule whose trigger is `c`, if there is one.
pub fn find_rule(rules: &Vec<(char, CharacterSet)>, c: char) -> (r: Option<usize>)
    ensures
        match r {
            Some(i) => first_rule_at(rules@, c, i as int) && is_trigger(rules@, c) && rule_index(rules@, c) == i,
            None => !is_trigger(rules@, c),
        },
{
    let mut i: usize = 0;
    while i < rules.len()
        invariant
            i <= rules@.len(),
            forall|j: int| 0 <= j < i ==> (#[trigger] rules@[j]).0 != c,
        decreases rules@.len() - i,
    {
        if rules[i].0 == c {
            proof {
                let k = rule_index(rules@, c);
                assert(first_rule_at(rules@, c, i as int));
                assert(first_rule_at(rules@, c, k));
                if k < i {
                    assert(rules@[k].0 != c);
                } else if i < k {
                    assert(rules@[i as int].0 != c);
                }
            }
            return Some(i);
        }
        i = i + 1;
    }
    None
}

/// Normalizes a text under the rules, code point by code point.
pub fn encode(s: &str, treatments: &Vec<(char, CharacterSet)>) -> (r: Vec<NormalizedChar>)
    ensures
        r@ == normalized_text(treatments@, s@),
{
    let n: usize = s.unicode_len();
    let mut out: Vec<NormalizedChar> = Vec::new();
    let mut i: usize = 0;
    while i < n
        invariant
            n == s@.len(),
            i <= n,
            out@.len() == i,
            forall|j: int| 0 <= j < i ==> #[trigger] out@[j] == normalize(treatments@, s@[j]),
        decreases n - i,
    {
        let c: char = s.get_char(i);
        let item = match find_rule(treatments, c) {
            Some(k) => treatments[k].1.normalized_char(c),
            None => NormalizedChar::Char(c),
        };
        out.push(item);
        i = i + 1;
    }
    proof {
        assert(out@ =~= normalized_text(treatments@, s@));
    }
    out
}

/// The rules of a search: for each trigger code point, the class that it is
/// compared under. Of two rules with the same trigger the first one counts.
#[derive(Debug, Clone)]
pub struct MatchingOptions {
    pub treatments: Vec<(char, CharacterSet)>,
}

impl MatchingOptions {
    /// The options with the given rules.
    pub fn new(treatments: Vec<(char, CharacterSet)>) -> (r: Self)
        ensures
            r.treatments@ == treatments@,
    {
        MatchingOptions { treatments }
    }

    /// No rule: every code point stands for itself.
    pub fn exact() -> (r: Self)
        ensures
            r.treatments@ == Seq::<(char, CharacterSet)>::empty(),
    {
        MatchingOptions { treatments: Vec::new() }
    }

    /// The space and the tab are compared as white space.
    pub fn ignoring_white_space() -> (r: Self)
        ensures
            r.treatments@ == seq![(' ', CharacterSet::WhiteSpaces), ('\t', CharacterSet::WhiteSpaces)],
    {
        let mut treatments: Vec<(char, CharacterSet)> = Vec::new();
        treatments.push((' ', CharacterSet::WhiteSpaces));
        treatments.push(('\t', CharacterSet::WhiteSpaces));
        proof {
            assert(treatments@ =~= seq![(' ', CharacterSet::WhiteSpaces), ('\t', CharacterSet::WhiteSpaces)]);
        }
        MatchingOptions { treatments }
    }

    /// The line feed is compared as white space.
    pub fn ignoring_new_lines() -> (r: Self)
        ensures
            r.treatments@ == seq![('\n', CharacterSet::WhiteSpaces)],
    {
        let mut treatments: Vec<(char, CharacterSet)> = Vec::new();
        treatments.push(('\n', CharacterSet::WhiteSpaces));
        proof {
            assert(treatments@ =~= seq![('\n', CharacterSet::WhiteSpaces)]);
        }
        MatchingOptions { treatments }
    }

    /// The space, the tab and the line feed are compared as white space.
    pub fn ignoring_white_space_and_new_lines() -> (r: Self)
        ensures
            r.treatments@ == seq![
                (' ', CharacterSet::WhiteSpaces),
                ('\t', CharacterSet::WhiteSpaces),
                ('\n', CharacterSet::WhiteSpaces),
            ],
    {
        let mut treatments: Vec<(char, CharacterSet)> = Vec::new();
        treatments.push((' ', CharacterSet::WhiteSpaces));
        treatments.push(('\t', CharacterSet::WhiteSpaces));
        treatments.push(('\n', CharacterSet::WhiteSpaces));
        proof {
            assert(treatments@ =~= seq![
                (' ', CharacterSet::WhiteSpaces),
                ('\t', CharacterSet::WhiteSpaces),
                ('\n', CharacterSet::WhiteSpaces),
            ]);
        }
        MatchingOptions { treatments }
    }

    /// The tagged positions of a text under these options.
    pub fn tag(&self, s: &str) -> (r: TaggedString)
        ensures
            r.chars@ == tag_text(self.treatments@, s@),
    {
        let encoded = encode(s, &self.treatments);
        TaggedString::from_normalized(encoded)
    }
}

} // verus!
