use sb_solver::trie::Trie;
use std::collections::HashSet;

fn populated() -> Trie {
    let mut trie = Trie::new();
    for w in ["te", "test", "testing", "other", "none"] {
        trie.add(w);
    }
    trie
}

fn sorted(mut words: Vec<String>) -> Vec<String> {
    words.sort();
    words
}

fn letters(s: &str) -> HashSet<char> {
    s.chars().collect()
}

#[test]
fn iterate_all_yields_each_word_once() {
    let trie = populated();
    let words = trie.iterate_all().collect();
    assert_eq!(words.len(), 5);
    assert_eq!(sorted(words), vec!["none", "other", "te", "test", "testing"]);
}

#[test]
fn iterate_all_does_not_depend_on_insertion_order() {
    let mut forward = Trie::new();
    let mut backward = Trie::new();
    let list = ["te", "test", "testing", "other", "none"];
    for w in list.iter() {
        forward.add(w);
    }
    for w in list.iter().rev() {
        backward.add(w);
    }
    assert_eq!(
        sorted(forward.iterate_all().collect()),
        sorted(backward.iterate_all().collect())
    );
}

#[test]
fn iterate_all_of_an_empty_trie_is_empty() {
    let trie = Trie::new();
    let mut it = trie.iterate_all();
    assert_eq!(it.next(), None);
    assert_eq!(it.next(), None);
}

#[test]
fn next_keeps_returning_none_when_done() {
    let mut trie = Trie::new();
    trie.add("a");
    let mut it = trie.iterate_all();
    assert_eq!(it.next(), Some("a".to_string()));
    assert_eq!(it.next(), None);
    assert_eq!(it.next(), None);
    assert_eq!(it.collect(), Vec::<String>::new());
}

#[test]
fn next_and_collect_share_one_walk() {
    let trie = populated();
    let mut it = trie.iterate_all();
    let first = it.next().unwrap();
    let mut all = it.collect();
    assert_eq!(all.len(), 4);
    assert!(!all.contains(&first));
    all.push(first);
    assert_eq!(sorted(all), vec!["none", "other", "te", "test", "testing"]);
}

#[test]
fn a_single_chain_comes_out_shortest_first() {
    let mut trie = Trie::new();
    trie.add("testing");
    trie.add("te");
    trie.add("test");
    assert_eq!(trie.iterate_all().collect(), vec!["te", "test", "testing"]);
}

#[test]
fn two_walks_over_one_trie_are_independent() {
    let trie = populated();
    let mut one = trie.iterate_all();
    let mut two = trie.with_prefix("te");
    let a = one.next();
    let b = two.next();
    assert!(a.is_some());
    assert_eq!(b, Some("te".to_string()));
    assert_eq!(one.collect().len(), 4);
    assert_eq!(two.collect(), vec!["test", "testing"]);
}

#[test]
fn with_prefix_includes_the_prefix_when_it_is_a_word() {
    let trie = populated();
    assert_eq!(trie.with_prefix("te").collect(), vec!["te", "test", "testing"]);
}

#[test]
fn with_prefix_leaves_out_a_prefix_that_is_no_word() {
    let trie = populated();
    assert_eq!(trie.with_prefix("tes").collect(), vec!["test", "testing"]);
    assert_eq!(trie.with_prefix("o").collect(), vec!["other"]);
}

#[test]
fn with_prefix_of_a_whole_word() {
    let trie = populated();
    assert_eq!(trie.with_prefix("testing").collect(), vec!["testing"]);
}

#[test]
fn with_prefix_absent_is_empty() {
    let trie = populated();
    assert_eq!(trie.with_prefix("tex").collect(), Vec::<String>::new());
    assert_eq!(trie.with_prefix("testings").collect(), Vec::<String>::new());
    assert_eq!(trie.with_prefix("x").next(), None);
}

#[test]
fn with_empty_prefix_yields_everything() {
    let trie = populated();
    assert_eq!(
        sorted(trie.with_prefix("").collect()),
        vec!["none", "other", "te", "test", "testing"]
    );
}

#[test]
fn with_prefix_over_unicode() {
    let mut trie = Trie::new();
    trie.add("日本語");
    trie.add("日本");
    trie.add("日曜");
    trie.add("本");
    assert_eq!(sorted(trie.with_prefix("日本").collect()), vec!["日本", "日本語"]);
    assert_eq!(sorted(trie.with_prefix("日").collect()), vec!["日曜", "日本", "日本語"]);
    assert_eq!(
        sorted(trie.iterate_all().collect()),
        vec!["日曜", "日本", "日本語", "本"]
    );
}

#[test]
fn find_solutions_needs_the_mandatory_letter() {
    let trie = populated();
    let found = trie.find_solutions(&'s', letters("teing")).collect();
    assert_eq!(sorted(found), vec!["test", "testing"]);
}

#[test]
fn find_solutions_without_any_match_is_empty() {
    let trie = populated();
    let mut it = trie.find_solutions(&'z', letters("teing"));
    assert_eq!(it.next(), None);
    assert_eq!(it.collect(), Vec::<String>::new());
}

#[test]
fn find_solutions_admits_only_the_given_letters() {
    let trie = populated();
    assert_eq!(trie.find_solutions(&'t', letters("e")).collect(), vec!["te"]);
    assert_eq!(
        sorted(trie.find_solutions(&'t', letters("es")).collect()),
        vec!["te", "test"]
    );
    assert_eq!(
        sorted(trie.find_solutions(&'e', letters("tsinghr")).collect()),
        vec!["te", "test", "testing"]
    );
    assert_eq!(
        sorted(trie.find_solutions(&'e', letters("tsingohr")).collect()),
        vec!["none", "other", "te", "test", "testing"]
    );
    assert_eq!(trie.find_solutions(&'n', letters("oe")).collect(), vec!["none"]);
}

#[test]
fn find_solutions_with_no_optional_letters() {
    let mut trie = Trie::new();
    trie.add("a");
    trie.add("aa");
    trie.add("ab");
    trie.add("b");
    assert_eq!(
        trie.find_solutions(&'a', HashSet::new()).collect(),
        vec!["a", "aa"]
    );
}

#[test]
fn mandatory_letter_among_the_optional_ones_changes_nothing() {
    let trie = populated();
    let without = sorted(trie.find_solutions(&'s', letters("teing")).collect());
    let with = sorted(trie.find_solutions(&'s', letters("steing")).collect());
    assert_eq!(without, with);
    assert_eq!(with, vec!["test", "testing"]);
}

#[test]
fn find_solutions_counts_the_mandatory_letter_along_the_path() {
    let mut trie = Trie::new();
    trie.add("ab");
    trie.add("abc");
    trie.add("b");
    trie.add("bc");
    trie.add("ca");
    trie.add("cb");
    let found = sorted(trie.find_solutions(&'a', letters("bc")).collect());
    assert_eq!(found, vec!["ab", "abc", "ca"]);
}

#[test]
fn find_solutions_over_unicode() {
    let mut trie = Trie::new();
    trie.add("日本語");
    trie.add("日本");
    trie.add("本");
    let found = sorted(trie.find_solutions(&'語', letters("日本")).collect());
    assert_eq!(found, vec!["日本語"]);
}

#[test]
fn find_solutions_next_by_next() {
    let trie = populated();
    let mut it = trie.find_solutions(&'s', letters("teing"));
    let mut seen = HashSet::new();
    while let Some(word) = it.next() {
        assert!(seen.insert(word));
    }
    assert_eq!(seen.len(), 2);
    assert_eq!(it.next(), None);
}

#[test]
fn with_prefix_yields_the_prefix_before_its_extensions() {
    let mut trie = Trie::new();
    trie.add("testing");
    trie.add("test");
    trie.add("te");
    let mut it = trie.with_prefix("test");
    assert_eq!(it.next(), Some("test".to_string()));
    assert_eq!(it.next(), Some("testing".to_string()));
    assert_eq!(it.next(), None);
}

#[test]
fn every_word_comes_before_its_extensions() {
    let trie = populated();
    let words = trie.iterate_all().collect();
    for (i, earlier) in words.iter().enumerate() {
        for later in words[i + 1..].iter() {
            assert!(!earlier.starts_with(later.as_str()));
        }
    }
    let found = trie.find_solutions(&'t', letters("esing")).collect();
    assert_eq!(found, vec!["te", "test", "testing"]);
}
