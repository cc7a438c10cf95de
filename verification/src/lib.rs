//! A compressed prefix tree (radix trie) from text keys to optional payloads,
//! with exact prefix search and prefix search under character equivalences.

pub mod canon;
pub mod charset;
pub mod collect;
pub mod fuzzy;
pub mod insert;
pub mod laws;
pub mod node;
pub mod remove;
pub mod search;
pub mod slicer;
pub mod tagged;
pub mod trie;

pub use crate::charset::CharacterSet;
pub use crate::charset::MatchingOptions;
pub use crate::collect::Entry;
pub use crate::node::Node;
pub use crate::slicer::find_common_overlap_of_prefix_with_node;
pub use crate::slicer::grapheme_slicer_until_end;
pub use crate::slicer::grapheme_slicer_until_point;
pub use crate::tagged::NormalizedChar;
pub use crate::tagged::Tagged;
pub use crate::tagged::TaggedString;
pub use crate::trie::Trie;
