//! Lazy depth-first enumeration of the words of a trie.
//!
//! One walker serves the three enumerations a [`Trie`] offers. It keeps an
//! explicit stack of sibling cursors, the string spelled by the path it
//! stands on, and the node it has just entered. A call of `next` resumes
//! where the last one stopped and runs until the next word is found.
//!
//! What a walker has still to yield is a sequence of words, `pending()`,
//! fixed when the walker is made. `next` hands out its first element and
//! leaves the rest. The factory methods state which words are pending, that
//! none is pending twice, and that they stand in pre-order: a word comes
//! before its extensions. Which order the siblings of a node come in is not
//! part of the interface.

use super::text::lemma_occurrences;
use super::text::occurrences;
use super::text::set_contains;
use super::Trie;
use std::collections::HashSet;
use vstd::prelude::*;

verus! {

/// What a walk may descend through and what it asks of a word: with
/// `mandatory` absent, nothing; else every character is the mandatory one or
/// an optional one, and the mandatory one occurs.
pub(crate) struct Rule {
    pub(crate) mandatory: Option<char>,
    pub(crate) optional: Set<char>,
}

/// The admission predicate: whether a walk under `rule` descends through `c`.
pub(crate) open spec fn admits(rule: Rule, c: char) -> bool {
    match rule.mandatory {
        None => true,
        Some(m) => c == m || rule.optional.contains(c),
    }
}

/// The accepting predicate: whether a marked node reached by `path` is
/// yielded under `rule`.
pub(crate) open spec fn accepts(rule: Rule, path: Seq<char>) -> bool {
    match rule.mandatory {
        None => true,
        Some(m) => path.contains(m),
    }
}

/// The words found by entering `t`, which `path` leads to: first `path`
/// itself if it is an accepted word, then the words below each admitted
/// child, the children taken in the order they are held in.
pub(crate) open spec fn walk(t: Trie, rule: Rule, path: Seq<char>) -> Seq<Seq<char>>
    decreases t,
{
    (if t.marks_word && accepts(rule, path) {
        seq![path]
    } else {
        Seq::empty()
    }) + walk_from(t, rule, path, 0)
}

/// The words found below the children of `t` from position `from` on.
pub(crate) open spec fn walk_from(t: Trie, rule: Rule, path: Seq<char>, from: int) -> Seq<
    Seq<char>,
>
    decreases t, t.nodes@.len() - from,
{
    if 0 <= from < t.nodes@.len() {
        (if admits(rule, t.keys@[from]) {
            walk(t.nodes@[from], rule, path.push(t.keys@[from]))
        } else {
            Seq::empty()
        }) + walk_from(t, rule, path, from + 1)
    } else {
        Seq::empty()
    }
}

/// A bound on the steps a walk spends on `t` once it has entered it.
pub(crate) open spec fn weight(t: Trie) -> nat
    decreases t,
{
    2 + weight_from(t, 0)
}

/// A bound on the steps a walk spends on the children of `t` from position
/// `from` on.
pub(crate) open spec fn weight_from(t: Trie, from: int) -> nat
    decreases t, t.nodes@.len() - from,
{
    if 0 <= from < t.nodes@.len() {
        1 + weight(t.nodes@[from]) + weight_from(t, from + 1)
    } else {
        0
    }
}

/// The siblings that remain at one depth: the children of `node` from
/// position `next` on.
#[derive(Clone, Copy)]
pub(crate) struct Cursor<'a> {
    pub(crate) node: &'a Trie,
    pub(crate) next: usize,
}

/// The letters of a constrained walk.
pub(crate) struct Letters<'a> {
    pub(crate) mandatory: &'a char,
    pub(crate) optional: HashSet<char>,
}

/// The state of a walk between two calls of `next`.
pub(crate) struct Walk<'a> {
    pub(crate) stack: Vec<Cursor<'a>>,
    pub(crate) string: String,
    pub(crate) cur: Option<&'a Trie>,
    pub(crate) letters: Option<Letters<'a>>,
    pub(crate) valid: usize,
}

/// The path to level `i` of a walk whose string is `string` and which
/// started with `base` characters in it.
pub(crate) open spec fn path_to(string: Seq<char>, base: int, i: int) -> Seq<char> {
    string.take(base + i)
}

/// The words pending at the lowest `k` levels of `stack`, the deepest level
/// first. Level `i` stands at the node that the first `base + i` characters
/// of `string` lead to.
pub(crate) open spec fn levels(
    stack: Seq<Cursor<'_>>,
    string: Seq<char>,
    base: int,
    rule: Rule,
    k: int,
) -> Seq<Seq<char>>
    decreases k,
{
    if k <= 0 {
        Seq::empty()
    } else {
        walk_from(*stack[k - 1].node, rule, path_to(string, base, k - 1), stack[k - 1].next as int)
            + levels(stack, string, base, rule, k - 1)
    }
}

/// A bound on the steps left at the lowest `k` levels of `stack`.
pub(crate) open spec fn levels_weight(stack: Seq<Cursor<'_>>, k: int) -> nat
    decreases k,
{
    if k <= 0 {
        0
    } else {
        1 + weight_from(*stack[k - 1].node, stack[k - 1].next as int) + levels_weight(
            stack,
            k - 1,
        )
    }
}

/// The lowest `k` levels depend only on the cursors below `k` and on the
/// paths that lead to them.
pub(crate) proof fn lemma_levels_frame(
    s1: Seq<Cursor<'_>>,
    s2: Seq<Cursor<'_>>,
    str1: Seq<char>,
    str2: Seq<char>,
    base: int,
    rule: Rule,
    k: int,
)
    requires
        k <= s1.len(),
        k <= s2.len(),
        forall|i: int| 0 <= i < k ==> s1[i] == s2[i],
        forall|i: int| 0 <= i < k ==> path_to(str1, base, i) == #[trigger] path_to(str2, base, i),
    ensures
        levels(s1, str1, base, rule, k) == levels(s2, str2, base, rule, k),
        levels_weight(s1, k) == levels_weight(s2, k),
    decreases k,
{
    if k > 0 {
        lemma_levels_frame(s1, s2, str1, str2, base, rule, k - 1);
        assert(path_to(str1, base, k - 1) == path_to(str2, base, k - 1));
    }
}

/// Whether a walk under `rule` that enters `t` by `path` finds `x`: `x`
/// goes on from `path` by a word stored in `t` whose characters the rule
/// admits, and the rule accepts `x`.
pub(crate) open spec fn found(t: Trie, rule: Rule, path: Seq<char>, x: Seq<char>) -> bool {
    &&& path.is_prefix_of(x)
    &&& t.has_word(x.skip(path.len() as int))
    &&& forall|i: int| path.len() <= i < x.len() ==> admits(rule, #[trigger] x[i])
    &&& accepts(rule, x)
}

/// Whether a walk finds `x` below the child of `t` at position `j`.
pub(crate) open spec fn found_below(
    t: Trie,
    rule: Rule,
    path: Seq<char>,
    j: int,
    x: Seq<char>,
) -> bool {
    &&& 0 <= j < t.nodes@.len()
    &&& admits(rule, t.keys@[j])
    &&& found(t.nodes@[j], rule, path.push(t.keys@[j]), x)
}

/// A walk finds `x` at the node it enters or below exactly one of the
/// node's children.
pub(crate) proof fn lemma_found_unfold(t: Trie, rule: Rule, path: Seq<char>, x: Seq<char>)
    requires
        t.wf(),
    ensures
        found(t, rule, path, x) <==> (x == path && t.marks_word && accepts(rule, path)) || (
        exists|j: int| found_below(t, rule, path, j, x)),
        forall|j: int| found_below(t, rule, path, j, x) ==> x.len() > path.len() && x[path.len() as int] == t.keys@[j],
{
    let n = path.len() as int;
    let w = x.skip(n);
    assert forall|j: int| found_below(t, rule, path, j, x) implies x.len() > n && x[n]
        == t.keys@[j] && found(t, rule, path, x) by {
        let c = t.keys@[j];
        let longer = path.push(c);
        assert(x.subrange(0, n + 1)[n] == longer[n]);
        assert(path =~= x.subrange(0, n)) by {
            assert forall|i: int| 0 <= i < n implies path[i] == x.subrange(0, n)[i] by {
                assert(x.subrange(0, n + 1)[i] == longer[i]);
            }
        }
        t.lemma_child_at(j);
        assert(w[0] == c);
        assert(w.drop_first() =~= x.skip(n + 1));
        assert forall|i: int| n <= i < x.len() implies admits(rule, #[trigger] x[i]) by {
            if i == n {
            }
        }
    }
    if found(t, rule, path, x) {
        if x.len() == n {
            assert(x =~= path);
            assert(w =~= Seq::<char>::empty());
        } else {
            let c = x[n];
            assert(w[0] == c);
            let j = t.keys@.index_of(c);
            assert(t.child(c) == Some(t.nodes@[j]));
            assert(w.drop_first() =~= x.skip(n + 1));
            assert(path.push(c) =~= x.subrange(0, n + 1));
            assert(admits(rule, x[n]));
            assert(found_below(t, rule, path, j, x));
        }
    }
    if x == path && t.marks_word && accepts(rule, path) {
        assert(w =~= Seq::<char>::empty());
        assert(path =~= x.subrange(0, n));
    }
}

/// What a walk yields after entering `t` is what it finds there.
pub(crate) proof fn lemma_walk_contains(t: Trie, rule: Rule, path: Seq<char>, x: Seq<char>)
    requires
        t.wf(),
    ensures
        walk(t, rule, path).contains(x) <==> found(t, rule, path, x),
    decreases t,
{
    broadcast use vstd::seq_lib::lemma_seq_concat_contains_all_elements;

    lemma_walk_from_contains(t, rule, path, 0, x);
    lemma_found_unfold(t, rule, path, x);
    let head = if t.marks_word && accepts(rule, path) {
        seq![path]
    } else {
        Seq::empty()
    };
    if t.marks_word && accepts(rule, path) {
        assert(head[0] == path);
    }
    assert(head.contains(x) <==> (x == path && t.marks_word && accepts(rule, path)));
}

/// What a walk yields from the children of `t` from position `from` on is
/// what it finds below them.
pub(crate) proof fn lemma_walk_from_contains(
    t: Trie,
    rule: Rule,
    path: Seq<char>,
    from: int,
    x: Seq<char>,
)
    requires
        t.wf(),
        0 <= from,
    ensures
        walk_from(t, rule, path, from).contains(x) <==> exists|j: int|
            from <= j && found_below(t, rule, path, j, x),
    decreases t, t.nodes@.len() - from,
{
    broadcast use vstd::seq_lib::lemma_seq_concat_contains_all_elements;

    if from < t.nodes@.len() {
        let c = t.keys@[from];
        let head = if admits(rule, c) {
            walk(t.nodes@[from], rule, path.push(c))
        } else {
            Seq::empty()
        };
        lemma_walk_contains(t.nodes@[from], rule, path.push(c), x);
        lemma_walk_from_contains(t, rule, path, from + 1, x);
        assert(head.contains(x) <==> found_below(t, rule, path, from, x));
        if walk_from(t, rule, path, from).contains(x) {
            if head.contains(x) {
                assert(from <= from && found_below(t, rule, path, from, x));
            } else {
                let j = choose|j: int| from + 1 <= j && found_below(t, rule, path, j, x);
                assert(from <= j && found_below(t, rule, path, j, x));
            }
        }
        if exists|j: int| from <= j && found_below(t, rule, path, j, x) {
            let j = choose|j: int| from <= j && found_below(t, rule, path, j, x);
            if j != from {
                assert(from + 1 <= j && found_below(t, rule, path, j, x));
            }
        }
    }
}

/// Whether `words` stand in pre-order: no word comes after a word that it
/// is a prefix of. A word then comes before each of its extensions, and no
/// word occurs twice.
pub open spec fn in_preorder(words: Seq<Seq<char>>) -> bool {
    forall|i: int, j: int|
        0 <= i < j < words.len() ==> !(#[trigger] words[j]).is_prefix_of(#[trigger] words[i])
}

/// Words in pre-order are distinct.
pub proof fn lemma_preorder_distinct(words: Seq<Seq<char>>)
    requires
        in_preorder(words),
    ensures
        words.no_duplicates(),
{
    assert forall|i: int, j: int| 0 <= i < words.len() && 0 <= j < words.len() && i != j implies
        words[i] != words[j] by {
        let w = words[i];
        assert(w =~= w.subrange(0, w.len() as int));
        if i < j {
            assert(!words[j].is_prefix_of(words[i]));
        } else {
            assert(!words[i].is_prefix_of(words[j]));
        }
    }
}

/// Two runs in pre-order, put one after the other, are in pre-order where
/// no word of the second is a prefix of a word of the first.
pub(crate) proof fn lemma_preorder_concat(a: Seq<Seq<char>>, b: Seq<Seq<char>>)
    requires
        in_preorder(a),
        in_preorder(b),
        forall|i: int, j: int|
            0 <= i < a.len() && 0 <= j < b.len() ==> !(#[trigger] b[j]).is_prefix_of(
                #[trigger] a[i],
            ),
    ensures
        in_preorder(a + b),
{
    let s = a + b;
    assert forall|i: int, j: int| 0 <= i < j < s.len() implies !(#[trigger] s[j]).is_prefix_of(
        #[trigger] s[i],
    ) by {
        if j < a.len() {
            assert(s[i] == a[i] && s[j] == a[j]);
        } else if i < a.len() {
            assert(s[i] == a[i] && s[j] == b[j - a.len()]);
        } else {
            assert(s[i] == b[i - a.len()] && s[j] == b[j - a.len()]);
        }
    }
}

/// A walk yields its words in pre-order.
pub(crate) proof fn lemma_walk_preorder(t: Trie, rule: Rule, path: Seq<char>)
    requires
        t.wf(),
    ensures
        in_preorder(walk(t, rule, path)),
    decreases t,
{
    let head = if t.marks_word && accepts(rule, path) {
        seq![path]
    } else {
        Seq::empty()
    };
    let tail = walk_from(t, rule, path, 0);
    lemma_walk_from_preorder(t, rule, path, 0);
    assert forall|i: int, j: int| 0 <= i < head.len() && 0 <= j < tail.len() implies !(
    #[trigger] tail[j]).is_prefix_of(#[trigger] head[i]) by {
        let y = tail[j];
        assert(tail.contains(y));
        lemma_walk_from_contains(t, rule, path, 0, y);
        lemma_found_unfold(t, rule, path, y);
    }
    lemma_preorder_concat(head, tail);
}

/// A walk yields the words below the children of a node in pre-order.
pub(crate) proof fn lemma_walk_from_preorder(t: Trie, rule: Rule, path: Seq<char>, from: int)
    requires
        t.wf(),
        0 <= from,
    ensures
        in_preorder(walk_from(t, rule, path, from)),
    decreases t, t.nodes@.len() - from,
{
    if from < t.nodes@.len() {
        let c = t.keys@[from];
        let head = if admits(rule, c) {
            walk(t.nodes@[from], rule, path.push(c))
        } else {
            Seq::empty()
        };
        let tail = walk_from(t, rule, path, from + 1);
        lemma_walk_preorder(t.nodes@[from], rule, path.push(c));
        lemma_walk_from_preorder(t, rule, path, from + 1);
        assert forall|i: int, j: int| 0 <= i < head.len() && 0 <= j < tail.len() implies !(
        #[trigger] tail[j]).is_prefix_of(#[trigger] head[i]) by {
            let x = head[i];
            let y = tail[j];
            assert(head.contains(x));
            assert(tail.contains(y));
            lemma_walk_contains(t.nodes@[from], rule, path.push(c), x);
            lemma_walk_from_contains(t, rule, path, from + 1, y);
            lemma_found_unfold(t, rule, path, x);
            lemma_found_unfold(t, rule, path, y);
            let k = choose|k: int| from + 1 <= k && found_below(t, rule, path, k, y);
            assert(found_below(t, rule, path, from, x));
            assert(t.keys@[k] != t.keys@[from]);
            if y.is_prefix_of(x) {
                assert(x.subrange(0, y.len() as int)[path.len() as int] == y[path.len() as int]);
            }
        }
        lemma_preorder_concat(head, tail);
    }
}

/// What a walk that enters `t` yields: the words it finds there, each once,
/// in pre-order.
pub(crate) proof fn lemma_walk_yields(t: Trie, rule: Rule, path: Seq<char>)
    requires
        t.wf(),
    ensures
        in_preorder(walk(t, rule, path)),
        walk(t, rule, path).no_duplicates(),
        forall|x: Seq<char>| #[trigger] walk(t, rule, path).contains(x) <==> found(t, rule, path, x),
{
    lemma_walk_preorder(t, rule, path);
    lemma_preorder_distinct(walk(t, rule, path));
    assert forall|x: Seq<char>| #[trigger]
        walk(t, rule, path).contains(x) <==> found(t, rule, path, x) by {
        lemma_walk_contains(t, rule, path, x);
    }
}

/// What a walk that starts at the children of `t` yields: the words it
/// would find on entering `t`, but for `path` itself.
pub(crate) proof fn lemma_walk_below_yields(t: Trie, rule: Rule, path: Seq<char>)
    requires
        t.wf(),
    ensures
        in_preorder(walk_from(t, rule, path, 0)),
        walk_from(t, rule, path, 0).no_duplicates(),
        forall|x: Seq<char>| #[trigger]
            walk_from(t, rule, path, 0).contains(x) <==> found(t, rule, path, x) && x.len()
                > path.len(),
{
    lemma_walk_from_preorder(t, rule, path, 0);
    lemma_preorder_distinct(walk_from(t, rule, path, 0));
    assert forall|x: Seq<char>| #[trigger]
        walk_from(t, rule, path, 0).contains(x) <==> found(t, rule, path, x) && x.len()
            > path.len() by {
        lemma_walk_from_contains(t, rule, path, 0, x);
        lemma_found_unfold(t, rule, path, x);
    }
}

impl<'a> Walk<'a> {
    /// The rule this walk goes by.
    pub(crate) open spec fn rule(self) -> Rule {
        match self.letters {
            None => Rule { mandatory: None, optional: Set::empty() },
            Some(l) => Rule { mandatory: Some(*l.mandatory), optional: l.optional@ },
        }
    }

    /// How many characters of the string were appended by this walk.
    pub(crate) open spec fn depth(self) -> int {
        if self.cur is Some {
            self.stack@.len() as int
        } else if self.stack@.len() > 0 {
            self.stack@.len() - 1
        } else {
            0
        }
    }

    /// How many characters of the string the walk started with.
    pub(crate) open spec fn base(self) -> int {
        self.string@.len() - self.depth()
    }

    /// The invariant of the state: every cursor stands within the children
    /// of a well-formed node, the string is at least as long as the walk is
    /// deep, and a constrained walk started from the empty string and has
    /// counted the mandatory characters on its path.
    pub(crate) open spec fn wf(self) -> bool {
        &&& forall|i: int|
            0 <= i < self.stack@.len() ==> (#[trigger] self.stack@[i]).node.wf()
                && self.stack@[i].next <= self.stack@[i].node.keys@.len()
        &&& match self.cur {
            Some(t) => t.wf(),
            None => true,
        }
        &&& (self.cur is Some || self.stack@.len() > 0) ==> self.base() >= 0
        &&& match self.letters {
            Some(l) => self.base() == 0 && self.valid == occurrences(self.string@, *l.mandatory),
            None => true,
        }
    }

    /// The words this walk has still to yield, in the order it will yield
    /// them.
    pub(crate) open spec fn pending(self) -> Seq<Seq<char>> {
        (match self.cur {
            Some(t) => walk(*t, self.rule(), self.string@),
            None => Seq::empty(),
        }) + levels(self.stack@, self.string@, self.base(), self.rule(), self.stack@.len() as int)
    }

    /// A bound on the steps this walk has left.
    pub(crate) open spec fn fuel(self) -> nat {
        (match self.cur {
            Some(t) => weight(*t),
            None => 0,
        }) + levels_weight(self.stack@, self.stack@.len() as int)
    }

    /// Whether the walk descends through `c`.
    fn admits(&self, c: char) -> (b: bool)
        ensures
            b == admits(self.rule(), c),
    {
        match &self.letters {
            None => true,
            Some(l) => c == *l.mandatory || set_contains(&l.optional, c),
        }
    }

    /// Whether the path the walk stands on may be yielded.
    fn accepting(&self) -> (b: bool)
        requires
            self.wf(),
        ensures
            b == accepts(self.rule(), self.string@),
    {
        match &self.letters {
            None => true,
            Some(l) => {
                proof {
                    lemma_occurrences(self.string@, *l.mandatory);
                }
                self.valid > 0
            },
        }
    }

    /// Whether `c` is the mandatory character of a constrained walk.
    fn counts(&self, c: char) -> (b: bool)
        ensures
            b == (self.rule().mandatory == Some(c)),
    {
        match &self.letters {
            None => false,
            Some(l) => c == *l.mandatory,
        }
    }

    /// Open the node just entered: its children become the top of the stack.
    fn enter(&mut self, t: &'a Trie)
        requires
            old(self).wf(),
            old(self).cur == Some(t),
        ensures
            final(self).wf(),
            final(self).cur is None,
            final(self).stack@.len() > 0,
            final(self).string@ == old(self).string@,
            final(self).rule() == old(self).rule(),
            old(self).pending() == (if t.marks_word && accepts(
                old(self).rule(),
                old(self).string@,
            ) {
                seq![old(self).string@]
            } else {
                Seq::empty()
            }) + final(self).pending(),
            final(self).fuel() < old(self).fuel(),
    {
        self.cur = None;
        self.stack.push(Cursor { node: t, next: 0 });
        proof {
            let a = *old(self);
            let b = *self;
            let n = a.stack@.len() as int;
            assert(b.base() == a.base());
            assert(b.string@.take(b.base() + n) =~= b.string@);
            lemma_levels_frame(
                a.stack@,
                b.stack@,
                a.string@,
                b.string@,
                a.base(),
                a.rule(),
                n as int,
            );
            assert(a.pending() =~= (if t.marks_word && accepts(a.rule(), a.string@) {
                seq![a.string@]
            } else {
                Seq::empty()
            }) + b.pending());
        }
    }

    /// Take the next sibling off the top cursor.
    fn forward(&mut self) -> (found: (char, &'a Trie))
        requires
            old(self).wf(),
            old(self).cur is None,
            old(self).stack@.len() > 0,
            old(self).stack@.last().next < old(self).stack@.last().node.keys@.len(),
        ensures
            final(self).wf(),
            final(self).cur is None,
            final(self).stack@.len() == old(self).stack@.len(),
            final(self).string@ == old(self).string@,
            final(self).rule() == old(self).rule(),
            final(self).valid == old(self).valid,
            found.1.wf(),
            old(self).pending() == (if admits(old(self).rule(), found.0) {
                walk(*found.1, old(self).rule(), old(self).string@.push(found.0))
            } else {
                Seq::empty()
            }) + final(self).pending(),
            old(self).fuel() == 1 + weight(*found.1) + final(self).fuel(),
    {
        let n = self.stack.len();
        let top = self.stack[n - 1];
        let node: &'a Trie = top.node;
        let i = top.next;
        proof {
            assert(old(self).stack@.last() == old(self).stack@[n - 1]);
            assert(node.wf());
            assert(node.nodes@[i as int].wf());
            assert(i < node.keys.len());
        }
        let c = node.keys[i];
        let t = &node.nodes[i];
        self.stack[n - 1].next = i + 1;
        proof {
            let a = *old(self);
            let b = *self;
            assert(path_to(a.string@, a.base(), n - 1) =~= a.string@);
            lemma_levels_frame(a.stack@, b.stack@, a.string@, b.string@, a.base(), a.rule(), n - 1);
            let rest = levels(a.stack@, a.string@, a.base(), a.rule(), n - 1);
            let head = if admits(a.rule(), c) {
                walk(*t, a.rule(), a.string@.push(c))
            } else {
                Seq::empty()
            };
            let tail = walk_from(*node, a.rule(), a.string@, i + 1);
            assert(a.pending() =~= (head + tail) + rest);
            assert(b.pending() =~= tail + rest);
            assert(a.pending() =~= head + b.pending());
        }
        (c, t)
    }

    /// Step down into the child `t`, reached by the admitted character `c`.
    fn descend(&mut self, c: char, t: &'a Trie)
        requires
            old(self).wf(),
            old(self).cur is None,
            old(self).stack@.len() > 0,
            t.wf(),
        ensures
            final(self).wf(),
            final(self).rule() == old(self).rule(),
            final(self).pending() == walk(*t, old(self).rule(), old(self).string@.push(c)) + old(
                self,
            ).pending(),
            final(self).fuel() == weight(*t) + old(self).fuel(),
    {
        let n = self.stack.len();
        self.string.push(c);
        self.cur = Some(t);
        if self.counts(c) {
            proof {
                lemma_occurrences(old(self).string@, c);
                assert(self.string@.drop_last() =~= old(self).string@);
            }
            self.valid += 1;
        }
        proof {
            let a = *old(self);
            let b = *self;
            assert(b.string@.drop_last() =~= a.string@);
            assert forall|j: int| 0 <= j < n implies path_to(a.string@, a.base(), j)
                == #[trigger] path_to(b.string@, a.base(), j) by {
                assert(a.string@.take(a.base() + j) =~= b.string@.take(a.base() + j));
            }
            lemma_levels_frame(
                a.stack@,
                b.stack@,
                a.string@,
                b.string@,
                a.base(),
                a.rule(),
                n as int,
            );
        }
    }

    /// Drop the top cursor, which has no sibling left, and step back up.
    fn retreat(&mut self)
        requires
            old(self).wf(),
            old(self).cur is None,
            old(self).stack@.len() > 0,
            old(self).stack@.last().next >= old(self).stack@.last().node.keys@.len(),
        ensures
            final(self).wf(),
            final(self).rule() == old(self).rule(),
            final(self).pending() == old(self).pending(),
            final(self).fuel() < old(self).fuel(),
    {
        let ghost n = self.stack@.len() as int;
        proof {
            assert(old(self).stack@[n - 1].node.wf());
        }
        self.stack.pop();
        let last = self.string.pop();
        if let Some(c) = last {
            if self.counts(c) {
                proof {
                    lemma_occurrences(old(self).string@, c);
                }
                self.valid -= 1;
            }
        }
        proof {
            let a = *old(self);
            let b = *self;
            if n > 1 {
                assert(b.base() == a.base());
                assert forall|j: int| 0 <= j < n - 1 implies path_to(a.string@, a.base(), j)
                    == #[trigger] path_to(b.string@, a.base(), j) by {
                    assert(a.string@.take(a.base() + j) =~= b.string@.take(a.base() + j));
                }
            }
            lemma_levels_frame(a.stack@, b.stack@, a.string@, b.string@, a.base(), a.rule(), n - 1);
            assert(b.pending() =~= a.pending());
        }
    }

    /// Move the top cursor on by one sibling, descending into it where the
    /// rule admits its character, or drop the cursor where none is left.
    fn advance(&mut self)
        requires
            old(self).wf(),
            old(self).cur is None,
            old(self).stack@.len() > 0,
        ensures
            final(self).wf(),
            final(self).rule() == old(self).rule(),
            final(self).pending() == old(self).pending(),
            final(self).fuel() < old(self).fuel(),
    {
        let n = self.stack.len();
        let top = self.stack[n - 1];
        if top.next < top.node.keys.len() {
            let (c, t) = self.forward();
            if self.admits(c) {
                self.descend(c, t);
            }
        } else {
            self.retreat();
        }
    }

    /// The next pending word, or `None` when the walk is over.
    pub(crate) fn next(&mut self) -> (word: Option<String>)
        requires
            old(self).wf(),
        ensures
            final(self).wf(),
            final(self).rule() == old(self).rule(),
            match word {
                Some(s) => old(self).pending().len() > 0 && s@ == old(self).pending()[0]
                    && final(self).pending() == old(self).pending().drop_first(),
                None => old(self).pending().len() == 0 && final(self).pending().len() == 0,
            },
    {
        loop
            invariant
                self.wf(),
                self.rule() == old(self).rule(),
                self.pending() == old(self).pending(),
            decreases self.fuel(),
        {
            if let Some(cur) = self.cur {
                let ghost before = self.pending();
                self.enter(cur);
                if cur.marks_word && self.accepting() {
                    let word = self.string.clone();
                    proof {
                        assert(before.drop_first() =~= self.pending());
                    }
                    return Some(word);
                }
                proof {
                    assert(before =~= self.pending());
                }
            }
            if self.stack.len() == 0 {
                return None;
            }
            self.advance();
        }
    }

    /// Every pending word, in order.
    pub(crate) fn drain(&mut self) -> (words: Vec<String>)
        requires
            old(self).wf(),
        ensures
            final(self).wf(),
            final(self).rule() == old(self).rule(),
            final(self).pending().len() == 0,
            words@.len() == old(self).pending().len(),
            forall|i: int| 0 <= i < words@.len() ==> (#[trigger] words@[i])@ == old(self).pending()[i],
    {
        let mut words: Vec<String> = Vec::new();
        loop
            invariant
                self.wf(),
                self.rule() == old(self).rule(),
                words@.len() + self.pending().len() == old(self).pending().len(),
                forall|i: int|
                    0 <= i < words@.len() ==> (#[trigger] words@[i])@ == old(self).pending()[i],
                forall|i: int|
                    0 <= i < self.pending().len() ==> self.pending()[i] == old(self).pending()[words@.len()
                        + i],
            decreases self.pending().len(),
        {
            let ghost before = self.pending();
            match self.next() {
                Some(word) => {
                    words.push(word);
                    proof {
                        assert forall|i: int| 0 <= i < self.pending().len() implies self.pending()[i]
                            == old(self).pending()[words@.len() + i] by {
                            assert(self.pending()[i] == before[i + 1]);
                        }
                    }
                },
                None => {
                    return words;
                },
            }
        }
    }
}

/// Whether `word` solves the puzzle: the mandatory letter occurs in it, and
/// every letter of it is the mandatory one or one of the optional ones.
pub open spec fn solves(word: Seq<char>, mandatory: char, optional: Set<char>) -> bool {
    &&& word.contains(mandatory)
    &&& forall|i: int|
        0 <= i < word.len() ==> #[trigger] word[i] == mandatory || optional.contains(word[i])
}

/// A lazy enumeration of words of a trie, from [`Trie::iterate_all`] or
/// [`Trie::with_prefix`].
pub struct TrieIterator<'a> {
    pub(crate) walk: Walk<'a>,
}

/// A lazy enumeration of the words of a trie that solve a puzzle, from
/// [`Trie::find_solutions`].
pub struct SolutionsTrieIterator<'a> {
    pub(crate) walk: Walk<'a>,
}

impl<'a> TrieIterator<'a> {
    /// The invariant of the enumeration's state.
    pub open(crate) spec fn wf(self) -> bool {
        self.walk.wf() && self.walk.letters is None
    }

    /// The words still to be yielded, in the order `next` will yield them.
    pub open(crate) spec fn pending(self) -> Seq<Seq<char>> {
        self.walk.pending()
    }

    /// The next word of the enumeration, or `None` when every word has been
    /// yielded. Each call takes the first pending word and leaves the others.
    pub fn next(&mut self) -> (word: Option<String>)
        requires
            old(self).wf(),
        ensures
            final(self).wf(),
            match word {
                Some(s) => old(self).pending().len() > 0 && s@ == old(self).pending()[0]
                    && final(self).pending() == old(self).pending().drop_first(),
                None => old(self).pending().len() == 0 && final(self).pending().len() == 0,
            },
    {
        self.walk.next()
    }

    /// All the words still pending, in order. Afterwards none is pending.
    pub fn collect(&mut self) -> (words: Vec<String>)
        requires
            old(self).wf(),
        ensures
            final(self).wf(),
            final(self).pending().len() == 0,
            words@.len() == old(self).pending().len(),
            forall|i: int| 0 <= i < words@.len() ==> (#[trigger] words@[i])@ == old(self).pending()[i],
    {
        self.walk.drain()
    }
}

impl<'a> SolutionsTrieIterator<'a> {
    /// The invariant of the enumeration's state.
    pub open(crate) spec fn wf(self) -> bool {
        self.walk.wf() && self.walk.letters is Some
    }

    /// The words still to be yielded, in the order `next` will yield them.
    pub open(crate) spec fn pending(self) -> Seq<Seq<char>> {
        self.walk.pending()
    }

    /// The next solution, or `None` when every solution has been yielded.
    /// Each call takes the first pending word and leaves the others.
    pub fn next(&mut self) -> (word: Option<String>)
        requires
            old(self).wf(),
        ensures
            final(self).wf(),
            match word {
                Some(s) => old(self).pending().len() > 0 && s@ == old(self).pending()[0]
                    && final(self).pending() == old(self).pending().drop_first(),
                None => old(self).pending().len() == 0 && final(self).pending().len() == 0,
            },
    {
        self.walk.next()
    }

    /// All the solutions still pending, in order. Afterwards none is pending.
    pub fn collect(&mut self) -> (words: Vec<String>)
        requires
            old(self).wf(),
        ensures
            final(self).wf(),
            final(self).pending().len() == 0,
            words@.len() == old(self).pending().len(),
            forall|i: int| 0 <= i < words@.len() ==> (#[trigger] words@[i])@ == old(self).pending()[i],
    {
        self.walk.drain()
    }
}

impl Trie {
    /// Returns an iterator over all items in the Trie.
    ///
    /// Every stored word is yielded once, the empty word too if it is
    /// stored: the walk enters the root itself. A word is yielded before
    /// its extensions; in which order the children of a node are taken is
    /// not stated.
    pub fn iterate_all<'a>(&'a self) -> (it: TrieIterator<'a>)
        requires
            self.wf(),
        ensures
            it.wf(),
            it.pending().no_duplicates(),
            in_preorder(it.pending()),
            forall|x: Seq<char>|
                #![trigger it.pending().contains(x)]
                #![trigger self@.contains(x)]
                it.pending().contains(x) <==> self@.contains(x),
    {
        let it = TrieIterator {
            walk: Walk {
                stack: Vec::new(),
                string: String::new(),
                cur: Some(self),
                letters: None,
                valid: 0,
            },
        };
        proof {
            let rule = it.walk.rule();
            let path = Seq::<char>::empty();
            assert(it.pending() =~= walk(*self, rule, path));
            lemma_walk_yields(*self, rule, path);
            assert forall|x: Seq<char>| it.pending().contains(x) <==> self@.contains(x) by {
                assert(x.skip(0) =~= x);
                assert(path =~= x.subrange(0, 0));
            }
        }
        it
    }

    /// Returns an iterator over all items in the Trie with the specified prefix.
    ///
    /// The prefix itself is among them if it is a stored word, and then
    /// comes first: a word is yielded before its extensions. If no node of
    /// the trie is reached by the prefix, nothing is yielded.
    pub fn with_prefix<'a>(&'a self, prefix: &'a str) -> (it: TrieIterator<'a>)
        requires
            self.wf(),
        ensures
            it.wf(),
            it.pending().no_duplicates(),
            in_preorder(it.pending()),
            forall|x: Seq<char>|
                #![trigger it.pending().contains(x)]
                #![trigger self@.contains(x)]
                it.pending().contains(x) <==> self@.contains(x) && prefix@.is_prefix_of(x),
    {
        let word = super::text::chars_of(prefix);
        proof {
            assert(word@.skip(0) =~= prefix@);
        }
        match self._get(&word, 0) {
            Some(trie) => {
                let it = TrieIterator {
                    walk: Walk {
                        stack: Vec::new(),
                        string: prefix.to_owned(),
                        cur: Some(trie),
                        letters: None,
                        valid: 0,
                    },
                };
                proof {
                    let rule = it.walk.rule();
                    assert(it.pending() =~= walk(*trie, rule, prefix@));
                    lemma_walk_yields(*trie, rule, prefix@);
                    assert forall|x: Seq<char>|
                        it.pending().contains(x) <==> self@.contains(x) && prefix@.is_prefix_of(
                            x,
                        ) by {
                        if prefix@.is_prefix_of(x) {
                            let w = x.skip(prefix@.len() as int);
                            assert(x =~= prefix@ + w);
                            self.lemma_node_at_concat(prefix@, w);
                        }
                    }
                }
                it
            },
            None => {
                let it = TrieIterator {
                    walk: Walk {
                        stack: Vec::new(),
                        string: String::new(),
                        cur: None,
                        letters: None,
                        valid: 0,
                    },
                };
                proof {
                    assert(it.pending() =~= Seq::<Seq<char>>::empty());
                    assert forall|x: Seq<char>|
                        !(self@.contains(x) && prefix@.is_prefix_of(x)) by {
                        if prefix@.is_prefix_of(x) {
                            let w = x.skip(prefix@.len() as int);
                            assert(x =~= prefix@ + w);
                            self.lemma_node_at_concat(prefix@, w);
                        }
                    }
                }
                it
            },
        }
    }

    /// Returns an iterator over the items that solve a puzzle: those that
    /// contain `mandatory` and are spelled with `mandatory` and the letters
    /// of `optional` alone. Whether `optional` holds `mandatory` too makes
    /// no difference. A word is yielded before its extensions.
    pub fn find_solutions<'a>(&'a self, mandatory: &'a char, optional: HashSet<char>) -> (it:
        SolutionsTrieIterator<'a>)
        requires
            self.wf(),
        ensures
            it.wf(),
            it.pending().no_duplicates(),
            in_preorder(it.pending()),
            forall|x: Seq<char>|
                #![trigger it.pending().contains(x)]
                #![trigger self@.contains(x)]
                it.pending().contains(x) <==> self@.contains(x) && solves(
                    x,
                    *mandatory,
                    optional@,
                ),
    {
        let mut stack: Vec<Cursor<'a>> = Vec::new();
        stack.push(Cursor { node: self, next: 0 });
        let ghost allowed = optional@;
        let it = SolutionsTrieIterator {
            walk: Walk {
                stack,
                string: String::new(),
                cur: None,
                letters: Some(Letters { mandatory, optional }),
                valid: 0,
            },
        };
        proof {
            let rule = it.walk.rule();
            let path = Seq::<char>::empty();
            assert(rule.mandatory == Some(*mandatory) && rule.optional == allowed);
            assert(it.walk.base() == 0);
            assert(path_to(it.walk.string@, 0, 0) =~= path);
            assert(levels(it.walk.stack@, it.walk.string@, 0, rule, 0) =~= Seq::empty());
            assert(it.walk.stack@[0].node == self && it.walk.stack@[0].next == 0);
            assert(it.pending() =~= walk_from(*self, rule, path, 0));
            lemma_walk_below_yields(*self, rule, path);
            assert forall|x: Seq<char>|
                it.pending().contains(x) <==> self@.contains(x) && solves(
                    x,
                    *mandatory,
                    allowed,
                ) by {
                assert(x.skip(0) =~= x);
                assert(path =~= x.subrange(0, 0));
                if x.len() == 0 {
                    assert(!x.contains(*mandatory));
                }
            }
        }
        it
    }
}

} // verus!
