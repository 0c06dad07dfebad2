use sb_solver::trie::Trie;
use std::collections::HashSet;

fn sorted(mut words: Vec<String>) -> Vec<String> {
    words.sort();
    words
}

#[test]
fn round_trip() {
    let mut trie = Trie::new();
    for w in ["", "a", "test", "日本語", "naïve"] {
        assert!(!trie.has(w));
        trie.add(w);
        assert!(trie.has(w));
        trie.remove(w);
        assert!(!trie.has(w));
    }
}

#[test]
fn adding_twice_is_adding_once() {
    let mut once = Trie::new();
    let mut twice = Trie::new();
    once.add("test");
    twice.add("test");
    twice.add("test");
    for w in ["", "t", "te", "tes", "test", "tests"] {
        assert_eq!(once.has(w), twice.has(w));
    }
    assert_eq!(twice.iterate_all().collect(), vec!["test"]);
    twice.remove("test");
    assert!(!twice.has("test"));
}

#[test]
fn remove_tells_whether_anything_is_left() {
    let mut trie = Trie::new();
    trie.add("te");
    trie.add("test");
    assert!(trie.remove("test"));
    assert!(trie.has("te"));
    assert!(!trie.remove("te"));
    assert!(!trie.has("te"));
}

#[test]
fn removing_an_absent_word_changes_nothing() {
    let mut trie = Trie::new();
    assert!(!trie.remove("test"));
    trie.add("test");
    assert!(trie.remove("t"));
    assert!(trie.remove("tests"));
    assert!(trie.remove("other"));
    assert!(trie.remove(""));
    assert!(trie.has("test"));
    assert_eq!(trie.iterate_all().collect(), vec!["test"]);
}

#[test]
fn removing_a_word_keeps_its_extensions_and_prefixes() {
    let mut trie = Trie::new();
    trie.add("te");
    trie.add("test");
    trie.add("testing");
    trie.remove("test");
    assert!(trie.has("te"));
    assert!(!trie.has("test"));
    assert!(trie.has("testing"));
    assert_eq!(trie.with_prefix("test").collect(), vec!["testing"]);
}

#[test]
fn removing_every_word_of_a_prefix_prunes_it() {
    let mut trie = Trie::new();
    for w in ["te", "test", "testing", "other", "none"] {
        trie.add(w);
    }
    trie.remove("testing");
    trie.remove("test");
    assert_eq!(trie.with_prefix("tes").collect(), Vec::<String>::new());
    assert_eq!(trie.with_prefix("te").collect(), vec!["te"]);
    trie.remove("te");
    assert_eq!(trie.with_prefix("t").collect(), Vec::<String>::new());
    assert_eq!(sorted(trie.iterate_all().collect()), vec!["none", "other"]);
    trie.remove("other");
    assert!(!trie.remove("none"));
    assert_eq!(trie.iterate_all().next(), None);
}

#[test]
fn the_empty_word_is_stored_and_enumerated() {
    let mut trie = Trie::new();
    assert!(!trie.has(""));
    assert_eq!(trie.iterate_all().next(), None);
    trie.add("");
    assert!(trie.has(""));
    let mut it = trie.iterate_all();
    assert_eq!(it.next(), Some(String::new()));
    assert_eq!(it.next(), None);
    assert_eq!(trie.find_solutions(&'a', HashSet::new()).next(), None);
    trie.add("a");
    assert_eq!(trie.iterate_all().collect(), vec!["", "a"]);
    assert_eq!(trie.iterate_all().collect(), trie.with_prefix("").collect());
    assert!(trie.remove(""));
    assert!(!trie.has(""));
    assert!(trie.has("a"));
    assert_eq!(trie.iterate_all().collect(), vec!["a"]);
}

#[test]
fn the_empty_prefix_yields_the_empty_word_when_stored() {
    let mut trie = Trie::new();
    trie.add("");
    trie.add("a");
    assert_eq!(trie.with_prefix("").collect(), vec!["", "a"]);
    assert!(trie.remove("a"));
    assert_eq!(trie.with_prefix("").collect(), vec![""]);
    assert!(!trie.remove(""));
}

#[test]
fn characters_are_compared_by_scalar_value() {
    let mut trie = Trie::new();
    trie.add("é");
    assert!(trie.has("é"));
    assert!(!trie.has("e"));
    assert!(!trie.has("e\u{301}"));
    trie.add("e\u{301}");
    assert!(trie.has("e\u{301}"));
    assert_eq!(trie.with_prefix("e").collect(), vec!["e\u{301}"]);
    trie.remove("é");
    assert!(!trie.has("é"));
    assert!(trie.has("e\u{301}"));
}

#[test]
fn many_children_under_one_node() {
    let mut trie = Trie::new();
    let list = ["a", "b", "c", "d", "e", "f"];
    for w in list {
        trie.add(w);
    }
    trie.remove("a");
    trie.remove("d");
    for w in ["b", "c", "e", "f"] {
        assert!(trie.has(w));
    }
    assert!(!trie.has("a"));
    assert!(!trie.has("d"));
    assert_eq!(sorted(trie.iterate_all().collect()), vec!["b", "c", "e", "f"]);
    trie.add("d");
    assert!(trie.has("d"));
    assert_eq!(trie.iterate_all().collect().len(), 5);
}

#[test]
fn a_long_word() {
    let word: String = std::iter::repeat('x').take(2000).collect();
    let mut trie = Trie::new();
    trie.add(&word);
    assert!(trie.has(&word));
    assert!(!trie.has(&word[..1999]));
    assert_eq!(trie.iterate_all().collect(), vec![word.clone()]);
    assert!(!trie.remove(&word));
    assert!(!trie.has(&word));
}
