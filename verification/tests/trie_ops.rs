use trie::OpTN;
use trie::Trie;

fn sorted(mut v: Vec<String>) -> Vec<String> {
    v.sort();
    v
}

fn strings(items: &[&str]) -> Vec<String> {
    let mut v: Vec<String> = items.iter().map(|s| s.to_string()).collect();
    v.sort();
    v
}

#[test]
fn insert_returns_true_then_false() {
    let mut t = Trie::new();
    assert!(t.insert("cat"));
    assert!(!t.insert("cat"));
    assert!(!t.insert("cat"));
    assert!(t.insert("car"));
    assert!(!t.insert("car"));
}

#[test]
fn inserted_words_are_found_as_words() {
    let mut t = Trie::new();
    assert!(t.insert("cat"));
    assert!(t.insert("car"));
    assert!(t.insert("care"));
    assert!(t.insert("bombshell"));
    assert!(t.find("cat").is_word());
    assert!(t.find("car").is_word());
    assert!(t.find("care").is_word());
    assert!(t.find("bombshell").is_word());
    assert!(!t.find("ca").is_word());
}

#[test]
fn strict_prefixes_are_present_but_not_words() {
    let mut t = Trie::new();
    assert!(t.insert("care"));
    for p in ["", "c", "ca", "car"] {
        let f = t.find(p);
        assert!(f.is_some());
        assert!(!f.is_word());
    }
    assert!(t.find("care").is_word());
    assert!(t.find("x").is_none());
    assert!(t.find("cares").is_none());
    assert!(t.find("cart").is_none());
}

#[test]
fn find_on_empty_tree_is_absent() {
    let t = Trie::new();
    assert!(t.find("xyz").is_none());
    assert!(!t.find("xyz").is_word());
    let absent: Option<&trie::TrieNode> = None;
    assert!(!absent.is_word());
    // the empty path always exists: the root is always there
    assert!(t.find("").is_some());
    assert!(!t.find("").is_word());
}

#[test]
fn empty_word_round_trip() {
    let mut t = Trie::new();
    assert!(t.insert(""));
    assert!(t.find("").is_word());
    assert!(!t.insert(""));
    // and in a tree that already holds other words
    let mut full = Trie::new();
    assert!(full.insert("cat"));
    assert!(full.insert(""));
    assert!(!full.insert(""));
    assert!(full.find("").is_word());
}

#[test]
fn enumeration_from_root_is_exactly_the_inserted_set() {
    let words = ["cat", "car", "care", "bombshell", ""];
    let mut t = Trie::new();
    for w in words {
        t.insert(w);
    }
    assert_eq!(sorted(t.find("").get_all_words()), strings(&words));
    // a different insertion order gives the same set
    let mut u = Trie::new();
    for w in ["", "bombshell", "care", "car", "cat", "car", "cat"] {
        u.insert(w);
    }
    assert_eq!(sorted(u.find("").get_all_words()), strings(&words));
}

#[test]
fn enumeration_from_prefix_yields_suffixes() {
    let mut t = Trie::new();
    t.insert("cat");
    t.insert("car");
    t.insert("care");
    assert_eq!(sorted(t.find("ca").get_all_words()), strings(&["t", "r", "re"]));
    assert_eq!(sorted(t.find("car").get_all_words()), strings(&["", "e"]));
    assert_eq!(sorted(t.find("cat").get_all_words()), strings(&[""]));
}

#[test]
fn prefix_plus_suffix_rebuilds_full_words() {
    let words = ["gallant", "gallon", "gall", "game"];
    let mut t = Trie::new();
    for w in words {
        t.insert(w);
    }
    let prefix = "gal";
    let mut rebuilt: Vec<String> = t
        .find(prefix)
        .get_all_words()
        .into_iter()
        .map(|s| format!("{}{}", prefix, s))
        .collect();
    rebuilt.sort();
    assert_eq!(rebuilt, strings(&["gallant", "gallon", "gall"]));
}

#[test]
fn duplicate_insert_leaves_one_copy() {
    let mut t = Trie::new();
    assert!(t.insert("cat"));
    assert!(!t.insert("cat"));
    assert_eq!(t.find("").get_all_words(), vec!["cat".to_string()]);
}

#[test]
fn enumeration_from_absent_node_is_empty() {
    let mut t = Trie::new();
    t.insert("cat");
    assert!(t.find("zz").get_all_words().is_empty());
    let absent: Option<&trie::TrieNode> = None;
    assert!(absent.get_all_words().is_empty());
}

#[test]
fn nodes_can_be_walked_read_only() {
    let mut t = Trie::new();
    t.insert("cat");
    t.insert("car");
    t.insert("care");
    let ca = t.find("ca").expect("prefix must be present");
    assert!(!ca.is_word);
    assert_eq!(ca.children.len(), 2);
    let mut keys: Vec<char> = ca.children.iter().map(|p| p.0).collect();
    keys.sort();
    assert_eq!(keys, vec!['r', 't']);
}

#[test]
fn multibyte_characters_are_single_edges() {
    let mut t = Trie::new();
    assert!(t.insert("héllo"));
    assert!(t.find("hé").is_some());
    assert!(!t.find("hé").is_word());
    assert!(t.find("héllo").is_word());
    assert_eq!(sorted(t.find("hé").get_all_words()), strings(&["llo"]));
}

#[test]
fn word_and_its_extension_coexist() {
    let mut t = Trie::new();
    assert!(t.insert("car"));
    assert!(t.insert("care"));
    assert!(t.find("car").is_word());
    assert!(t.find("care").is_word());
    let mut u = Trie::new();
    assert!(u.insert("care"));
    assert!(u.insert("car"));
    assert!(u.find("car").is_word());
    assert!(u.find("care").is_word());
    assert_eq!(sorted(u.find("").get_all_words()), strings(&["car", "care"]));
}
