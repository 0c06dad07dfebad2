use sb_solver::trie::Trie;

#[test]
fn outline_of_an_empty_trie_has_no_lines() {
    let trie = Trie::new();
    assert_eq!(trie.outline(0), Vec::<String>::new());
    assert_eq!(trie.outline(4), Vec::<String>::new());
}

#[test]
fn outline_marks_words_and_indents_by_depth() {
    let mut trie = Trie::new();
    trie.add("te");
    trie.add("test");
    assert_eq!(trie.outline(0), vec!["t", "  e*", "    s", "      t*"]);
}

#[test]
fn outline_starts_at_the_given_indent() {
    let mut trie = Trie::new();
    trie.add("ab");
    assert_eq!(trie.outline(3), vec!["   a", "     b*"]);
}

#[test]
fn outline_lists_a_node_before_its_siblings_subtrees() {
    let mut trie = Trie::new();
    trie.add("ab");
    trie.add("ac");
    trie.add("b");
    assert_eq!(trie.outline(0), vec!["a", "  b*", "  c*", "b*"]);
}

#[test]
fn outline_ignores_the_mark_of_the_root() {
    let mut trie = Trie::new();
    trie.add("");
    assert_eq!(trie.outline(0), Vec::<String>::new());
    trie.add("日本");
    assert_eq!(trie.outline(1), vec![" 日", "   本*"]);
}

#[test]
fn outline_shows_no_pruned_node() {
    let mut trie = Trie::new();
    trie.add("te");
    trie.add("test");
    trie.remove("test");
    assert_eq!(trie.outline(0), vec!["t", "  e*"]);
    trie.remove("te");
    assert_eq!(trie.outline(0), Vec::<String>::new());
}
