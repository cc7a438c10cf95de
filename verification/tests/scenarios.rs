use ab_radix_trie::find_common_overlap_of_prefix_with_node;
use ab_radix_trie::grapheme_slicer_until_end;
use ab_radix_trie::grapheme_slicer_until_point;
use ab_radix_trie::CharacterSet;
use ab_radix_trie::MatchingOptions;
use ab_radix_trie::Node;
use ab_radix_trie::NormalizedChar;
use ab_radix_trie::Tagged;
use ab_radix_trie::TaggedString;
use ab_radix_trie::Trie;

fn seeded() -> Trie<i32> {
    let mut trie: Trie<i32> = Trie::new();
    trie.insert("romanus", None);
    trie.insert("romulus", None);
    trie.insert("rubens", None);
    trie.insert("ruber", None);
    trie.insert("rubicon", None);
    trie.insert("rubicundus", None);
    trie
}

fn shape<V: std::fmt::Debug>(trie: &Trie<V>) -> String {
    format!("{:?}", trie)
}

fn count_nodes<V>(n: &Node<V>) -> usize {
    let mut total = 1;
    for c in n.children.iter() {
        total += count_nodes(c);
    }
    total
}

fn count_chars<V>(n: &Node<V>) -> usize {
    let mut total = n.text.chars().count();
    for c in n.children.iter() {
        total += count_chars(c);
    }
    total
}

fn expect_distinct_heads<V>(children: &Vec<Node<V>>) {
    for (i, a) in children.iter().enumerate() {
        for b in children.iter().skip(i + 1) {
            assert_ne!(a.text.chars().next(), b.text.chars().next());
        }
    }
}

fn expect_sound_node<V>(n: &Node<V>) {
    assert!(n.text.chars().count() >= 1);
    let below: usize = n.children.iter().map(|c| c.weight).sum();
    assert_eq!(n.weight, n.text.chars().count() + below);
    if !n.terminal {
        assert!(n.children.len() >= 2);
        assert!(n.value.is_none());
    }
    expect_distinct_heads(&n.children);
    for c in n.children.iter() {
        expect_sound_node(c);
    }
}

fn expect_sound_trie<V>(trie: &Trie<V>) {
    expect_distinct_heads(&trie.children);
    let mut nodes = 0;
    let mut chars = 0;
    for c in trie.children.iter() {
        expect_sound_node(c);
        nodes += count_nodes(c);
        chars += count_chars(c);
    }
    assert_eq!(trie.node_count as usize, nodes);
    assert_eq!(trie.char_count as usize, chars);
}

fn keys_of(trie: &Trie<i32>, prefix: &str) -> Vec<(String, Option<i32>)> {
    let mut keys: Vec<(String, Option<i32>)> = match trie.get_suffixes_values(prefix) {
        Some(found) => found.into_iter().map(|e| (e.key, *e.val)).collect(),
        None => Vec::new(),
    };
    keys.sort();
    keys
}

#[test]
fn seed_counts_are_exact() {
    let trie = seeded();
    assert_eq!(trie.node_count, 11);
    assert_eq!(trie.char_count, 26);
    assert_eq!(trie.children.len(), 1);
    assert_eq!(trie.children[0].text, "r");
    assert_eq!(trie.children[0].weight, 26);
    expect_sound_trie(&trie);
}

#[test]
fn invariants_hold_after_every_step() {
    let mut trie: Trie<i32> = Trie::new();
    let keys = ["romanus", "romulus", "rubens", "ruber", "rubicon", "rubicundus", "r", "rom", "x", "xy"];
    for k in keys.iter() {
        trie.insert(k, Some(1));
        expect_sound_trie(&trie);
    }
    for k in keys.iter() {
        trie.remove(k);
        expect_sound_trie(&trie);
    }
    assert_eq!(trie.node_count, 0);
    assert_eq!(trie.char_count, 0);
    assert!(trie.children.is_empty());
}

#[test]
fn prefix_lists_both_suffixes() {
    let mut trie = seeded();
    assert_eq!(keys_of(&trie, "rom"), vec![("anus".to_string(), None), ("ulus".to_string(), None)]);
    trie.insert("romulus", Some(10));
    assert_eq!(keys_of(&trie, "rom"), vec![("anus".to_string(), None), ("ulus".to_string(), Some(10))]);
}

#[test]
fn payload_is_kept_on_reinsert() {
    let mut trie = seeded();
    trie.insert("romulus", Some(10));
    trie.insert("romulus", Some(11));
    assert_eq!(keys_of(&trie, "romulus"), vec![("".to_string(), Some(10))]);
}

#[test]
fn remove_of_absent_key_changes_nothing() {
    let mut trie = seeded();
    let before = shape(&trie);
    trie.remove("rom");
    assert_eq!(shape(&trie), before);
    trie.remove("romanusx");
    assert_eq!(shape(&trie), before);
    trie.remove("zeta");
    assert_eq!(shape(&trie), before);
    trie.remove("");
    assert_eq!(shape(&trie), before);
}

#[test]
fn remove_leaves_the_sibling() {
    let mut trie = seeded();
    trie.insert("romulus", Some(10));
    trie.remove("romanus");
    let results = trie.get_suffixes_values("rom").unwrap();
    assert_eq!(results.len(), 1);
    assert_eq!(results[0].key, "ulus");
    assert_eq!(*results[0].val, Some(10));
    expect_sound_trie(&trie);
}

#[test]
fn fuzzy_search_picks_the_heavier_branch() {
    let mut trie: Trie<i32> = Trie::new();
    trie.insert("romanus", None);
    trie.insert("rom anus", None);
    let options = MatchingOptions::ignoring_white_space();
    let found = trie.suffix_tree_with_matching_options("roma", &options).unwrap();
    assert_eq!(found.text, " anus");
    assert_eq!(found.weight, 5);
    let results = trie.get_suffixes_with_matching_options("roma", &options).unwrap();
    assert_eq!(results.len(), 1);
    assert_eq!(results[0].key, " anus");
}

#[test]
fn fuzzy_search_ends_within_a_label() {
    let mut trie: Trie<i32> = Trie::new();
    trie.insert("rom anus", Some(3));
    let options = MatchingOptions::ignoring_white_space();
    let found = trie.suffix_tree_with_matching_options("roma", &options).unwrap();
    assert_eq!(found.text, "rom anus");
    assert!(trie.suffix_tree_with_matching_options("romx", &options).is_none());
    assert!(trie.suffix_tree_with_matching_options("", &options).is_none());
    assert!(trie.suffix_tree_with_matching_options("zeta", &options).is_none());
}

#[test]
fn exact_options_match_like_a_plain_search() {
    let trie = seeded();
    let options = MatchingOptions::exact();
    let found = trie.suffix_tree_with_matching_options("rubi", &options).unwrap();
    assert_eq!(found.text, "ic");
    assert_eq!(found.weight, 9);
    assert!(trie.suffix_tree_with_matching_options("rubx", &options).is_none());
}

#[test]
fn empty_prefix_finds_nothing() {
    let trie = seeded();
    assert!(trie.suffix_tree("").is_none());
    assert!(trie.get_suffixes_values("").is_none());
    assert!(trie.get_string_suffixes("").is_empty());
}

#[test]
fn empty_key_is_not_stored() {
    let mut trie = seeded();
    let before = shape(&trie);
    trie.insert("", Some(5));
    assert_eq!(shape(&trie), before);
    let mut empty: Trie<i32> = Trie::new();
    empty.insert("", None);
    assert_eq!(empty.node_count, 0);
    assert_eq!(empty.char_count, 0);
    assert!(empty.children.is_empty());
}

#[test]
fn wide_characters_count_once() {
    let mut trie: Trie<i32> = Trie::new();
    trie.insert("🤡abc", None);
    assert_eq!(trie.char_count, 4);
    assert_eq!(trie.node_count, 1);
    trie.insert("🤡abd", None);
    assert_eq!(trie.char_count, 5);
    assert_eq!(trie.node_count, 3);
    trie.insert("日本語", Some(1));
    assert_eq!(trie.char_count, 8);
    expect_sound_trie(&trie);
    trie.remove("🤡abc");
    trie.remove("🤡abd");
    trie.remove("日本語");
    assert_eq!(trie.char_count, 0);
    assert_eq!(trie.node_count, 0);
}

#[test]
fn insert_then_remove_restores_the_trie() {
    let mut trie = seeded();
    let before = shape(&trie);
    for k in ["romanu", "romanusque", "rx", "rubicone", "zeta", "rub", "🤡"].iter() {
        trie.insert(k, Some(7));
        assert_ne!(shape(&trie), before);
        trie.remove(k);
        assert_eq!(shape(&trie), before);
    }
}

#[test]
fn insertion_order_does_not_change_what_is_stored() {
    let keys = ["romanus", "romulus", "rubens", "ruber", "rubicon", "rubicundus"];
    let forward = seeded();
    let mut backward: Trie<i32> = Trie::new();
    for k in keys.iter().rev() {
        backward.insert(k, None);
    }
    expect_sound_trie(&backward);
    assert_eq!(forward.node_count, backward.node_count);
    assert_eq!(forward.char_count, backward.char_count);
    assert_eq!(keys_of(&forward, "r"), keys_of(&backward, "r"));
    assert_eq!(keys_of(&forward, "rub"), keys_of(&backward, "rub"));
    assert_eq!(forward.children[0].weight, backward.children[0].weight);
}

#[test]
fn string_suffixes_list_the_keys() {
    let trie = seeded();
    let mut keys = trie.get_string_suffixes("rub");
    keys.sort();
    assert_eq!(keys, vec!["ens", "er", "icon", "icundus"]);
    assert!(trie.get_string_suffixes("rux").is_empty());
}

#[test]
fn query_that_ends_within_a_label_is_not_repeated() {
    let mut trie: Trie<i32> = Trie::new();
    trie.insert("abcde", Some(1));
    let results = trie.get_suffixes_values("abc").unwrap();
    assert_eq!(results.len(), 1);
    assert_eq!(results[0].key, "de");
    trie.insert("abxy", None);
    let results = trie.get_suffixes_values("abc").unwrap();
    assert_eq!(results.len(), 1);
    assert_eq!(results[0].key, "de");
}

#[test]
fn exact_search_lets_white_space_stand_for_white_space() {
    let mut trie: Trie<i32> = Trie::new();
    trie.insert("a b", Some(1));
    assert!(trie.suffix_tree("a\tb").is_some());
    assert!(trie.suffix_tree("a b").is_some());
    assert!(trie.suffix_tree("axb").is_none());
    assert!(trie.suffix_tree("a").is_some());
    assert!(trie.suffix_tree("a bc").is_none());
}

#[test]
fn node_walks_from_its_own_label() {
    let mut node: Node<i32> = Node::new("rom", true, Some(1));
    assert_eq!(node.weight, 3);
    assert_eq!(node.visit_count(), 0);
    let mut nodes: u32 = 1;
    let mut chars: u32 = 3;
    node.insert("romanus", None, &mut nodes, &mut chars);
    node.insert("romulus", None, &mut nodes, &mut chars);
    assert_eq!((nodes, chars), (3, 11));
    assert_eq!(node.weight, 11);
    assert_eq!(node.char_weight_of_children(), 8);
    assert_eq!(node.suffix_root("roman").unwrap().text, "anus");
    assert!(node.suffix_root("romx").is_none());
    let mut stack: Vec<String> = Vec::new();
    let mut keys: Vec<String> = Vec::new();
    node.get_string_suffixes(true, "ro", &mut stack, &mut keys);
    keys.sort();
    assert_eq!(keys, vec!["m", "manus", "mulus"]);
    assert!(stack.is_empty());
    node.remove("rom", &mut nodes, &mut chars);
    assert_eq!((nodes, chars), (3, 11));
    assert!(!node.terminal);
    node.remove("romanus", &mut nodes, &mut chars);
    assert_eq!((nodes, chars), (1, 7));
    assert_eq!(node.text, "romulus");
    assert!(node.terminal);
    assert!(node.children.is_empty());
}

#[test]
fn slicer_counts_code_points() {
    let text = "🤡abcded🤡";
    assert_eq!(grapheme_slicer_until_point(text, 4), "🤡abc");
    assert_eq!(grapheme_slicer_until_end(text, 4), "ded🤡");
    assert_eq!(grapheme_slicer_until_point(text, 0), "");
    assert_eq!(grapheme_slicer_until_end(text, 8), "");
}

#[test]
fn overlap_is_the_longest_one() {
    assert_eq!(find_common_overlap_of_prefix_with_node("rome", "omeabcde"), Some(3));
    assert_eq!(find_common_overlap_of_prefix_with_node("rome", "eabcde"), Some(1));
    assert_eq!(find_common_overlap_of_prefix_with_node("abab", "abc"), Some(2));
    assert_eq!(find_common_overlap_of_prefix_with_node("aaa", "aaaa"), Some(3));
    assert_eq!(find_common_overlap_of_prefix_with_node("", "abc"), None);
    assert_eq!(find_common_overlap_of_prefix_with_node("xyz", "abc"), None);
}

#[test]
fn classes_normalize_their_characters() {
    assert_eq!(CharacterSet::WhiteSpaces.normalized_char(' '), NormalizedChar::Squash);
    assert_eq!(CharacterSet::WhiteSpaces.normalized_char('\n'), NormalizedChar::Squash);
    assert_eq!(CharacterSet::WhiteSpaces.normalized_char('a'), NormalizedChar::Char('a'));
    assert_eq!(CharacterSet::NewLines.normalized_char('\n'), NormalizedChar::Squash);
    assert_eq!(CharacterSet::NewLines.normalized_char(' '), NormalizedChar::Char(' '));
    assert_eq!(CharacterSet::WhiteSpacesAndNewLines.normalized_char('\t'), NormalizedChar::Squash);
    assert_eq!(CharacterSet::WhiteSpacesAndNewLines.normalized_char('\n'), NormalizedChar::Squash);
    assert_eq!(CharacterSet::CapitalizedLetters.normalized_char('a'), NormalizedChar::Char('A'));
    assert_eq!(CharacterSet::CapitalizedLetters.normalized_char('A'), NormalizedChar::Char('A'));
    assert_eq!(CharacterSet::CapitalizedLetters.normalized_char('1'), NormalizedChar::Char('1'));
}

#[test]
fn equal_sets_give_equal_sentinels() {
    let one = CharacterSet::Custom(vec!['b', 'a', 'c', 'a']);
    let two = CharacterSet::Custom(vec!['c', 'b', 'a']);
    let other = CharacterSet::Custom(vec!['a', 'b', 'd']);
    let x = one.normalized_char('a');
    let y = two.normalized_char('b');
    let z = other.normalized_char('a');
    let hash = |n: &NormalizedChar| match n {
        NormalizedChar::Sentinel(h, _) => *h,
        _ => panic!("no sentinel"),
    };
    assert_eq!(hash(&x), hash(&y));
    assert_ne!(hash(&x), hash(&z));
    assert_eq!(x, NormalizedChar::Sentinel(hash(&x), 'a'));
    assert_eq!(one.normalized_char('z'), NormalizedChar::Char('z'));
}

#[test]
fn tagging_drops_what_is_squashed() {
    let options = MatchingOptions::ignoring_white_space();
    let tagged = options.tag("a \tb");
    assert_eq!(tagged.chars.len(), 2);
    assert!(tagged.chars[0].0 == Tagged::Char('a'));
    assert_eq!(tagged.chars[0].1, 0);
    assert!(tagged.chars[1].0 == Tagged::Char('b'));
    assert_eq!(tagged.chars[1].1, 3);
    assert_eq!(tagged.chars[1].0.char(), 'b');
    let plain = TaggedString::new("héllo");
    assert_eq!(plain.chars.len(), 5);
    assert!(plain.chars[1].0 == Tagged::Char('é'));
    assert_eq!(MatchingOptions::exact().tag("a b").chars.len(), 3);
    assert_eq!(MatchingOptions::ignoring_new_lines().tag("a\nb c").chars.len(), 4);
    assert_eq!(MatchingOptions::ignoring_white_space_and_new_lines().tag("a\nb c\t").chars.len(), 3);
}

#[test]
fn tags_compare_by_class() {
    assert!(Tagged::Sentinel(7, 'a') == Tagged::Sentinel(7, 'b'));
    assert!(Tagged::Sentinel(7, 'a') != Tagged::Sentinel(8, 'a'));
    assert!(Tagged::Char('a') != Tagged::Sentinel(7, 'a'));
    assert!(Tagged::Char('a') == Tagged::Char('a'));
    assert!(Tagged::Char('a') != Tagged::Char('b'));
}

#[test]
fn custom_class_joins_its_members_in_a_search() {
    let mut trie: Trie<i32> = Trie::new();
    trie.insert("color", Some(1));
    let options = MatchingOptions::new(vec![
        ('o', CharacterSet::Custom(vec!['o', '0'])),
        ('0', CharacterSet::Custom(vec!['0', 'o'])),
    ]);
    assert_eq!(trie.suffix_tree_with_matching_options("c0l", &options).unwrap().text, "color");
    assert!(trie.suffix_tree_with_matching_options("c1l", &options).is_none());
}

#[test]
fn clone_is_a_trie_of_its_own() {
    let mut trie = seeded();
    let copy = trie.clone();
    trie.remove("romanus");
    assert_eq!(copy.node_count, 11);
    assert_eq!(keys_of(&copy, "rom").len(), 2);
    assert_eq!(keys_of(&trie, "rom").len(), 1);
    expect_sound_trie(&copy);
}

#[test]
fn keys_come_in_rising_order() {
    let mut trie: Trie<i32> = Trie::new();
    for k in ["xc", "xa", "xb", "x", "xab", "y"].iter() {
        trie.insert(k, None);
    }
    assert_eq!(trie.get_string_suffixes("x"), vec!["", "a", "ab", "b", "c"]);
    assert_eq!(trie.children.len(), 2);
    assert_eq!(trie.children[0].text, "x");
    assert_eq!(trie.children[1].text, "y");
}

#[test]
fn shape_does_not_depend_on_the_order_of_insertion() {
    let keys = ["romanus", "romulus", "rubens", "ruber", "rubicon", "rubicundus", "r", "zeta"];
    let mut forward: Trie<i32> = Trie::new();
    for k in keys.iter() {
        forward.insert(k, Some(1));
    }
    let mut backward: Trie<i32> = Trie::new();
    for k in keys.iter().rev() {
        backward.insert(k, Some(1));
    }
    assert_eq!(shape(&forward), shape(&backward));
    backward.insert("rubicundissimus", None);
    backward.remove("rubicundissimus");
    assert_eq!(shape(&forward), shape(&backward));
}

#[test]
fn squashed_positions_keep_their_offsets() {
    let tagged = TaggedString::from_normalized(vec![
        NormalizedChar::Char('a'),
        NormalizedChar::Squash,
        NormalizedChar::Sentinel(9, 'b'),
        NormalizedChar::Squash,
    ]);
    assert_eq!(tagged.chars.len(), 2);
    assert!(tagged.chars[0].0 == Tagged::Char('a'));
    assert_eq!(tagged.chars[0].1, 0);
    assert!(tagged.chars[1].0 == Tagged::Sentinel(9, 'x'));
    assert_eq!(tagged.chars[1].1, 2);
    assert_eq!(tagged.chars[1].0.char(), 'b');
}
