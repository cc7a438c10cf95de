//! Tagged positions: what a code point is compared as under a set of
//! equivalence rules, with the place in the text that it came from.

use vstd::prelude::*;
use vstd::std_specs::cmp::PartialEqSpecImpl;

verus! {

/// The outcome of normalizing one code point.
#[derive(Debug, Clone, PartialEq, Eq)]
pub enum NormalizedChar {
    /// The code point is dropped.
    Squash,
    /// The code point stands for itself.
    Char(char),
    /// The code point stands for an equivalence class, known by its hash.
    Sentinel(u64, char),
}

/// A normalized code point that was not dropped.
#[derive(Clone, Debug)]
pub enum Tagged {
    Char(char),
    Sentinel(u64, char),
}

/// The position of a code point in the text before anything was dropped.
pub type Offset = usize;

/// Two tagged code points agree when both are literal and equal, or when
/// both stand for the same equivalence class.
pub open spec fn tags_agree(a: Tagged, b: Tagged) -> bool {
    match (a, b) {
        (Tagged::Char(x), Tagged::Char(y)) => x == y,
        (Tagged::Sentinel(h1, _), Tagged::Sentinel(h2, _)) => h1 == h2,
        _ => false,
    }
}

impl Tagged {
    /// The code point as it stood in the text.
    pub open spec fn written(&self) -> char {
        match self {
            Tagged::Char(c) => *c,
            Tagged::Sentinel(_, c) => *c,
        }
    }

    /// The code point as it stood in the text.
    pub fn char(&self) -> (c: char)
        ensures
            c == self.written(),
    {
        match self {
            Tagged::Char(x) => *x,
            Tagged::Sentinel(_, x) => *x,
        }
    }
}

impl PartialEq for Tagged {
    fn eq(&self, other: &Self) -> (r: bool) {
        match (self, other) {
            (Tagged::Char(c1), Tagged::Char(c2)) => *c1 == *c2,
            (Tagged::Sentinel(h1, _), Tagged::Sentinel(h2, _)) => *h1 == *h2,
            _ => false,
        }
    }
}

impl PartialEqSpecImpl for Tagged {
    open spec fn obeys_eq_spec() -> bool {
        true
    }

    open spec fn eq_spec(&self, other: &Self) -> bool {
        tags_agree(*self, *other)
    }
}

/// A text as a search compares it: the code points that were not dropped,
/// each with its position in the text.
#[derive(Clone, Debug)]
pub struct TaggedString {
    pub chars: Vec<(Tagged, Offset)>,
}

/// The tagged positions of a normalized text: every code point that was not
/// dropped, in order, with its index.
pub open spec fn tagged_of(norm: Seq<NormalizedChar>) -> Seq<(Tagged, Offset)>
    decreases norm.len(),
{
    if norm.len() == 0 {
        Seq::empty()
    } else {
        let rest = tagged_of(norm.drop_last());
        let at = (norm.len() - 1) as usize;
        match norm.last() {
            NormalizedChar::Squash => rest,
            NormalizedChar::Char(c) => rest.push((Tagged::Char(c), at)),
            NormalizedChar::Sentinel(h, c) => rest.push((Tagged::Sentinel(h, c), at)),
        }
    }
}

/// Every tagged position lies within the text and holds the code point that
/// the text has there.
pub proof fn lemma_tagged_offsets(norm: Seq<NormalizedChar>)
    requires
        norm.len() <= usize::MAX,
    ensures
        tagged_of(norm).len() <= norm.len(),
        forall|j: int|
            0 <= j < tagged_of(norm).len() ==> {
                let (tag, at) = #[trigger] tagged_of(norm)[j];
                &&& at < norm.len()
                &&& match norm[at as int] {
                    NormalizedChar::Squash => false,
                    NormalizedChar::Char(c) => tag == Tagged::Char(c),
                    NormalizedChar::Sentinel(h, c) => tag == Tagged::Sentinel(h, c),
                }
            },
    decreases norm.len(),
{
    if norm.len() > 0 {
        lemma_tagged_offsets(norm.drop_last());
    }
}

impl TaggedString {
    /// The text with every code point standing for itself.
    pub fn new(s: &str) -> (r: Self)
        ensures
            r.chars@.len() == s@.len(),
            forall|i: int| 0 <= i < s@.len() ==> #[trigger] r.chars@[i] == (Tagged::Char(s@[i]), i as usize),
    {
        let n: usize = vstd::string::StrSliceExecFns::unicode_len(s);
        let mut chars: Vec<(Tagged, Offset)> = Vec::new();
        let mut i: usize = 0;
        while i < n
            invariant
                n == s@.len(),
                i <= n,
                chars@.len() == i,
                forall|j: int| 0 <= j < i ==> #[trigger] chars@[j] == (Tagged::Char(s@[j]), j as usize),
            decreases n - i,
        {
            chars.push((Tagged::Char(vstd::string::StrSliceExecFns::get_char(s, i)), i));
            i = i + 1;
        }
        TaggedString { chars }
    }

    /// The tagged positions of a normalized text.
    pub fn from_normalized(chars: Vec<NormalizedChar>) -> (r: Self)
        ensures
            r.chars@ == tagged_of(chars@),
    {
        let mut out: Vec<(Tagged, Offset)> = Vec::new();
        let mut i: usize = 0;
        proof {
            assert(chars@.take(0) =~= Seq::empty());
        }
        while i < chars.len()
            invariant
                i <= chars@.len(),
                out@ == tagged_of(chars@.take(i as int)),
            decreases chars@.len() - i,
        {
            proof {
                assert(chars@.take(i as int + 1).drop_last() =~= chars@.take(i as int));
            }
            match &chars[i] {
                NormalizedChar::Squash => {},
                NormalizedChar::Char(c) => {
                    out.push((Tagged::Char(*c), i));
                },
                NormalizedChar::Sentinel(h, c) => {
                    out.push((Tagged::Sentinel(*h, *c), i));
                },
            }
            i = i + 1;
        }
        proof {
            assert(chars@.take(i as int) =~= chars@);
        }
        TaggedString { chars: out }
    }
}

} // verus!
