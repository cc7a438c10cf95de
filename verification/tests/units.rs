use ab_radix_trie::grapheme_slicer_until_point;
use ab_radix_trie::MatchingOptions;
use ab_radix_trie::Trie;

#[test]
fn test_shitty_slicer() {
    let text = "ðŸ¤¡abcdedðŸ¤¡";
    let pref = grapheme_slicer_until_point(text, 7);
    assert_eq!(pref, "ðŸ¤¡abc");
}

#[test]
fn test_squashing() {
    let node_text = "   abc    def       iop \t\t\t qwe   ";
    let input = "abc def iop     qwe";

    let internal = MatchingOptions::ignoring_white_space();
    let nt1 = internal.tag(node_text);
    let nt2 = internal.tag(input);

    println!("{:?}", nt1);
    println!("{:?}", nt2);
}

#[test]
fn test_empty() {
    let mut trie: Trie<String> = Trie::new();
    trie.insert("", None);
    let results = trie.get_suffixes_values("");
    assert!(results.is_none());
    trie.insert("romanus", None);
    let results = trie.get_suffixes_values("");
    assert!(results.is_none());
    trie.insert("romulus", None);
    let results = trie.get_suffixes_values("");
    assert!(results.is_none());
    trie.insert("rubens", None);
    let results = trie.get_suffixes_values("");
    assert!(results.is_none());
    trie.insert("ruber", None);
    let results = trie.get_suffixes_values("");
    assert!(results.is_none());
    trie.insert("rubicon", None);
    let results = trie.get_suffixes_values("");
    assert!(results.is_none());
    trie.insert("rubicundus", None);
    let results = trie.get_suffixes_values("");
    assert!(results.is_none());
}
