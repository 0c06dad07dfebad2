//! What holds of the trie's operations taken together.
//!
//! Each law is stated over the models that the contracts of the operations
//! use: the set of stored words `trie@`, the nodes `has_node` tells of, and
//! the words `pending()` of an enumeration. Where a law speaks of the trie
//! after an operation, it takes the trie before and the trie after and asks
//! of them what the operation's contract promises.

use super::walk::in_preorder;
use super::walk::solves;
use super::Trie;
use super::TrieIterator;
use vstd::prelude::*;

verus! {

/// Round trip: a word that is not stored is stored once it has been added,
/// and is not stored once it has been removed again; the trie then stores
/// exactly what it stored at first.
pub proof fn lemma_add_remove_round_trip(before: Trie, added: Trie, removed: Trie, w: Seq<char>)
    requires
        !before@.contains(w),
        added@ == before@.insert(w),
        removed@ == added@.remove(w),
    ensures
        added@.contains(w),
        !removed@.contains(w),
        removed@ == before@,
{
    assert(removed@ =~= before@);
}

/// Idempotence: adding a word a second time changes nothing of what is
/// stored.
pub proof fn lemma_add_idempotent(before: Trie, once: Trie, twice: Trie, w: Seq<char>)
    requires
        once@ == before@.insert(w),
        twice@ == once@.insert(w),
    ensures
        twice@ == once@,
        forall|x: Seq<char>| twice.has_word(x) == once.has_word(x),
{
    assert(twice@ =~= once@);
    assert forall|x: Seq<char>| twice.has_word(x) == once.has_word(x) by {
        assert(twice@.contains(x) == once@.contains(x));
    }
}

/// Removing a word that is not stored changes nothing of what is stored.
pub proof fn lemma_remove_absent(before: Trie, after: Trie, w: Seq<char>)
    requires
        !before@.contains(w),
        after@ == before@.remove(w),
    ensures
        after@ == before@,
{
    assert(after@ =~= before@);
}

/// Adding and removing go by whole words, character by character: a word
/// and any other word, however close (a prefix, an extension, a word that
/// differs in one character), are stored independently of each other.
pub proof fn lemma_words_are_independent(
    before: Trie,
    added: Trie,
    removed: Trie,
    w: Seq<char>,
    other: Seq<char>,
)
    requires
        other != w,
        added@ == before@.insert(w),
        removed@ == before@.remove(w),
    ensures
        added@.contains(other) == before@.contains(other),
        removed@.contains(other) == before@.contains(other),
{
}

/// The nodes follow the words: in a well-formed trie a non-empty path
/// leads to a node exactly when some stored word begins with it.
pub proof fn lemma_nodes_follow_words(t: Trie, p: Seq<char>)
    requires
        t.wf(),
        p.len() > 0,
    ensures
        t.has_node(p) <==> exists|w: Seq<char>| t@.contains(w) && p.is_prefix_of(w),
{
    if t.has_node(p) {
        let n = t.node_at(p)->0;
        t.lemma_node_at_wf(p);
        n.lemma_carries_iff_stores();
        let rest = choose|rest: Seq<char>| n@.contains(rest);
        let w = p + rest;
        t.lemma_node_at_concat(p, rest);
        assert(p =~= w.subrange(0, p.len() as int));
        assert(t@.contains(w) && p.is_prefix_of(w));
    }
    if exists|w: Seq<char>| t@.contains(w) && p.is_prefix_of(w) {
        let w = choose|w: Seq<char>| t@.contains(w) && p.is_prefix_of(w);
        let rest = w.skip(p.len() as int);
        assert(w =~= p + rest);
        t.lemma_node_at_concat(p, rest);
    }
}

/// The nodes of a well-formed trie are determined by its words: two tries
/// that store the same words have nodes for the same paths. So a word that
/// is added and removed again leaves no node behind, and adding a word
/// twice makes no node that adding it once did not make.
pub proof fn lemma_nodes_determined_by_words(a: Trie, b: Trie, p: Seq<char>)
    requires
        a.wf(),
        b.wf(),
        a@ == b@,
    ensures
        a.has_node(p) == b.has_node(p),
{
    if p.len() > 0 {
        lemma_nodes_follow_words(a, p);
        lemma_nodes_follow_words(b, p);
    }
}

/// Pruning: once no stored word begins with a path, as after removing
/// every word that did, no node is left for that path.
pub proof fn lemma_pruned(t: Trie, p: Seq<char>)
    requires
        t.wf(),
        p.len() > 0,
        forall|w: Seq<char>| #[trigger] t@.contains(w) ==> !p.is_prefix_of(w),
    ensures
        !t.has_node(p),
{
    lemma_nodes_follow_words(t, p);
}

/// Pruning as an enumeration sees it: once no stored word begins with a
/// prefix, the enumeration by that prefix has nothing to yield.
pub proof fn lemma_pruned_prefix_yields_nothing(t: Trie, it: TrieIterator, p: Seq<char>)
    requires
        forall|w: Seq<char>| #[trigger] t@.contains(w) ==> !p.is_prefix_of(w),
        forall|x: Seq<char>|
            #![trigger it.pending().contains(x)]
            #![trigger t@.contains(x)]
            it.pending().contains(x) <==> t@.contains(x) && p.is_prefix_of(x),
    ensures
        it.pending().len() == 0,
{
    if it.pending().len() > 0 {
        let x = it.pending()[0];
        assert(it.pending().contains(x));
        assert(t@.contains(x) && p.is_prefix_of(x));
    }
}

/// Enumeration completeness: the enumeration of all the words of a trie
/// yields exactly the stored words, the empty word among them if it is
/// stored, and as many as there are.
pub proof fn lemma_enumeration_complete(t: Trie, it: TrieIterator)
    requires
        it.pending().no_duplicates(),
        forall|x: Seq<char>|
            #![trigger it.pending().contains(x)]
            #![trigger t@.contains(x)]
            it.pending().contains(x) <==> t@.contains(x),
    ensures
        it.pending().to_set() == t@,
        t@.finite(),
        t@.len() == it.pending().len(),
{
    assert(it.pending().to_set() =~= t@);
    vstd::seq_lib::seq_to_set_is_finite(it.pending());
    it.pending().unique_seq_to_set();
}

/// What an enumeration yields depends on the stored words alone, not on
/// the order in which they were added: two tries that store the same words
/// yield the same words.
pub proof fn lemma_enumeration_ignores_history(
    a: Trie,
    b: Trie,
    of_a: TrieIterator,
    of_b: TrieIterator,
)
    requires
        a@ == b@,
        forall|x: Seq<char>|
            #![trigger of_a.pending().contains(x)]
            #![trigger a@.contains(x)]
            of_a.pending().contains(x) <==> a@.contains(x),
        forall|x: Seq<char>|
            #![trigger of_b.pending().contains(x)]
            #![trigger b@.contains(x)]
            of_b.pending().contains(x) <==> b@.contains(x),
    ensures
        of_a.pending().to_set() == of_b.pending().to_set(),
{
    assert(of_a.pending().to_set() =~= of_b.pending().to_set());
}

/// Pre-order: in an enumeration a word is yielded before each of its
/// extensions, whatever the order of the children of a node.
pub proof fn lemma_word_before_extensions(words: Seq<Seq<char>>, i: int, j: int)
    requires
        in_preorder(words),
        0 <= i < words.len(),
        0 <= j < words.len(),
        i != j,
        words[i].is_prefix_of(words[j]),
    ensures
        i < j,
{
    if j < i {
        assert(!words[i].is_prefix_of(words[j]));
    }
}

/// Adding two words in either order stores the same words.
pub proof fn lemma_add_commutes(
    before: Trie,
    first_x: Trie,
    then_y: Trie,
    first_y: Trie,
    then_x: Trie,
    x: Seq<char>,
    y: Seq<char>,
)
    requires
        first_x@ == before@.insert(x),
        then_y@ == first_x@.insert(y),
        first_y@ == before@.insert(y),
        then_x@ == first_y@.insert(x),
    ensures
        then_y@ == then_x@,
{
    assert(then_y@ =~= then_x@);
}

/// Whether the optional letters hold the mandatory one makes no
/// difference to which words solve the puzzle.
pub proof fn lemma_mandatory_among_optional(word: Seq<char>, mandatory: char, optional: Set<char>)
    ensures
        solves(word, mandatory, optional.insert(mandatory)) == solves(word, mandatory, optional),
{
    if solves(word, mandatory, optional) {
        assert(solves(word, mandatory, optional.insert(mandatory)));
    }
    if solves(word, mandatory, optional.insert(mandatory)) {
        assert forall|i: int| 0 <= i < word.len() implies #[trigger] word[i] == mandatory
            || optional.contains(word[i]) by {
            assert(word[i] == mandatory || optional.insert(mandatory).contains(word[i]));
        }
    }
}

} // verus!
