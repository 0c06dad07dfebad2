//! A trie over Unicode scalar values.
//!
//! A [`Trie`] stores a set of words. Its model, `trie@`, is that set, as a
//! `Set<Seq<char>>`: every operation is specified by what it does to the set.
//! The nodes themselves are visible to contracts through [`Trie::node_at`],
//! which is what the pruning guarantee of [`Trie::remove`] speaks of.

use vstd::prelude::*;

pub mod laws;
pub mod outline;
mod text;
pub mod walk;

pub use walk::SolutionsTrieIterator;
pub use walk::TrieIterator;

verus! {

/// Represents a node in a Trie.
///
/// The children are held as two parallel vectors: `nodes[i]` is the child
/// reached by the character `keys[i]`. No character occurs twice in `keys`;
/// the order of the entries carries no meaning.
pub struct Trie {
    pub(crate) keys: Vec<char>,
    pub(crate) nodes: Vec<Trie>,
    pub(crate) marks_word: bool,
}

impl View for Trie {
    type V = Set<Seq<char>>;

    /// The set of words stored in the trie.
    open spec fn view(&self) -> Set<Seq<char>> {
        Set::new(|w: Seq<char>| self.has_word(w))
    }
}

impl Trie {
    /// Whether this node carries information: it ends a word or has a child.
    pub open(crate) spec fn carries(self) -> bool {
        self.marks_word || self.keys@.len() > 0
    }

    /// The structural invariant: the two child vectors run in parallel, no
    /// character keys two children, and every node below this one carries
    /// information (there are no empty leaves).
    pub open(crate) spec fn wf(self) -> bool
        decreases self,
    {
        &&& self.keys@.len() == self.nodes@.len()
        &&& self.keys@.no_duplicates()
        &&& forall|i: int|
            0 <= i < self.nodes@.len() ==> (#[trigger] self.nodes@[i]).wf()
                && self.nodes@[i].carries()
    }

    /// The child reached by `c`, if there is one.
    pub open(crate) spec fn child(self, c: char) -> Option<Trie> {
        if self.keys@.contains(c) {
            Some(self.nodes@[self.keys@.index_of(c)])
        } else {
            None
        }
    }

    /// The node reached from this one along `path`, if every character of
    /// `path` in turn has a child. The empty path reaches the node itself.
    pub open(crate) spec fn node_at(self, path: Seq<char>) -> Option<Trie>
        decreases path.len(),
    {
        if path.len() == 0 {
            Some(self)
        } else {
            match self.child(path[0]) {
                Some(n) => n.node_at(path.drop_first()),
                None => None,
            }
        }
    }

    /// Whether `path` leads to a node of the trie.
    pub open spec fn has_node(self, path: Seq<char>) -> bool {
        self.node_at(path) is Some
    }

    /// Whether `word` is stored: its path exists and ends at a marked node.
    pub open(crate) spec fn has_word(self, word: Seq<char>) -> bool {
        match self.node_at(word) {
            Some(n) => n.marks_word,
            None => false,
        }
    }

    /// Create a new empty Trie.
    pub fn new() -> (t: Trie)
        ensures
            t.wf(),
            t@ == Set::<Seq<char>>::empty(),
            forall|p: Seq<char>| p.len() > 0 ==> !t.has_node(p),
    {
        let t = Trie { keys: Vec::new(), nodes: Vec::new(), marks_word: false };
        proof {
            assert forall|p: Seq<char>| p.len() > 0 implies !t.has_node(p) by {
                assert(t.child(p[0]) is None);
            }
            assert forall|w: Seq<char>| !t.has_word(w) by {
                if w.len() > 0 {
                    assert(!t.has_node(w));
                }
            }
            assert(t@ =~= Set::<Seq<char>>::empty());
        }
        t
    }

    /// The position of the child keyed by `c`.
    fn find(&self, c: char) -> (r: Option<usize>)
        requires
            self.wf(),
        ensures
            match r {
                Some(i) => i < self.keys@.len() && i < self.nodes@.len() && self.keys@[i as int]
                    == c && self.child(c) == Some(self.nodes@[i as int]),
                None => self.child(c) is None,
            },
    {
        let mut i: usize = 0;
        while i < self.keys.len()
            invariant
                self.wf(),
                i <= self.keys@.len(),
                forall|j: int| 0 <= j < i ==> self.keys@[j] != c,
            decreases self.keys@.len() - i,
        {
            if self.keys[i] == c {
                proof {
                    assert(self.keys@.contains(c));
                    assert(self.keys@.index_of(c) == i);
                }
                return Some(i);
            }
            i += 1;
        }
        None
    }

    /// Add an item to the Trie.
    ///
    /// Always succeeds, for the empty item too (which marks the root).
    /// Afterwards the trie holds `item` and whatever it held before.
    pub fn add(&mut self, item: &str)
        requires
            old(self).wf(),
        ensures
            final(self).wf(),
            final(self)@ == old(self)@.insert(item@),
    {
        let word = text::chars_of(item);
        self._add(&word, 0);
        proof {
            assert(word@.skip(0) =~= item@);
            assert(self@ =~= old(self)@.insert(item@));
        }
    }

    fn _add(&mut self, word: &Vec<char>, from: usize)
        requires
            old(self).wf(),
            from <= word@.len(),
        ensures
            final(self).wf(),
            final(self).carries(),
            forall|w: Seq<char>|
                final(self).has_word(w) == (old(self).has_word(w) || w == word@.skip(from as int)),
        decreases word@.len() - from,
    {
        if from == word.len() {
            self.marks_word = true;
            proof {
                assert(word@.skip(from as int) =~= Seq::<char>::empty());
                assert forall|w: Seq<char>|
                    self.has_word(w) == (old(self).has_word(w) || w == word@.skip(
                        from as int,
                    )) by {
                    if w.len() == 0 {
                        assert(w =~= Seq::<char>::empty());
                    } else {
                        assert(self.child(w[0]) == old(self).child(w[0]));
                    }
                }
            }
            return;
        }
        let c = word[from];
        let ghost tail = word@.skip(from as int);
        let ghost rest = word@.skip(from as int + 1);
        proof {
            assert(tail.len() > 0 && tail[0] == c);
            assert(tail.drop_first() =~= rest);
        }
        match self.find(c) {
            Some(i) => {
                self.nodes[i]._add(word, from + 1);
                proof {
                    let a = *old(self);
                    let b = *self;
                    assert(b.keys@ == a.keys@);
                    assert(b.nodes@ == a.nodes@.update(i as int, b.nodes@[i as int]));
                    assert(b.child(c) == Some(b.nodes@[i as int]));
                    assert forall|w: Seq<char>|
                        b.has_word(w) == (a.has_word(w) || w == tail) by {
                        if w.len() > 0 {
                            if w[0] == c {
                                assert(b.nodes@[i as int].has_word(w.drop_first()) == (
                                a.nodes@[i as int].has_word(w.drop_first()) || w.drop_first()
                                    == rest));
                                if w.drop_first() == rest {
                                    assert(w =~= seq![c] + rest);
                                    assert(tail =~= seq![c] + rest);
                                }
                            } else {
                                assert(b.child(w[0]) == a.child(w[0]));
                            }
                        }
                    }
                }
            },
            None => {
                let mut node = Trie::new();
                let ghost fresh = node;
                node._add(word, from + 1);
                self.keys.push(c);
                self.nodes.push(node);
                proof {
                    let a = *old(self);
                    let b = *self;
                    let n = a.keys@.len() as int;
                    assert(b.keys@[n] == c);
                    assert(b.keys@.contains(c));
                    assert(b.child(c) == Some(node));
                    assert forall|w: Seq<char>|
                        b.has_word(w) == (a.has_word(w) || w == tail) by {
                        if w.len() > 0 {
                            if w[0] == c {
                                assert(a.child(c) is None);
                                assert(!fresh@.contains(w.drop_first()));
                                assert(node.has_word(w.drop_first()) == (w.drop_first()
                                    == rest));
                                if w.drop_first() == rest {
                                    assert(w =~= seq![c] + rest);
                                    assert(tail =~= seq![c] + rest);
                                }
                            } else {
                                if a.keys@.contains(w[0]) {
                                    let j = a.keys@.index_of(w[0]);
                                    assert(b.keys@[j] == w[0]);
                                    assert(b.nodes@[j] == a.nodes@[j]);
                                }
                                assert(b.child(w[0]) == a.child(w[0]));
                            }
                        }
                    }
                }
            },
        }
    }

    /// Remove an item from the Trie.
    ///
    /// Removing an item that is not stored changes nothing. Nodes that no
    /// longer lead to any word are dropped, so the structural invariant is
    /// kept. The result tells whether the trie still stores any word.
    pub fn remove(&mut self, item: &str) -> (keep: bool)
        requires
            old(self).wf(),
        ensures
            final(self).wf(),
            final(self)@ == old(self)@.remove(item@),
            keep <==> exists|w: Seq<char>| final(self)@.contains(w),
    {
        let word = text::chars_of(item);
        let keep = self._remove(&word, 0);
        proof {
            assert(word@.skip(0) =~= item@);
            assert(self@ =~= old(self)@.remove(item@));
            self.lemma_carries_iff_stores();
        }
        keep
    }

    fn _remove(&mut self, word: &Vec<char>, from: usize) -> (keep: bool)
        requires
            old(self).wf(),
            from <= word@.len(),
        ensures
            final(self).wf(),
            keep == final(self).carries(),
            forall|w: Seq<char>|
                final(self).has_word(w) == (old(self).has_word(w) && w != word@.skip(from as int)),
        decreases word@.len() - from,
    {
        let ghost tail = word@.skip(from as int);
        if from < word.len() {
            let c = word[from];
            let ghost rest = word@.skip(from as int + 1);
            proof {
                assert(tail.len() > 0 && tail[0] == c);
                assert(tail =~= seq![c] + rest);
            }
            match self.find(c) {
                Some(i) => {
                    let kept = self.nodes[i]._remove(word, from + 1);
                    let ghost mid = *self;
                    proof {
                        let a = *old(self);
                        assert(mid.keys@ == a.keys@);
                        assert(mid.nodes@ == a.nodes@.update(i as int, mid.nodes@[i as int]));
                        assert forall|w: Seq<char>|
                            mid.has_word(w) == (a.has_word(w) && w != tail) by {
                            if w.len() > 0 {
                                if w[0] == c {
                                    let v = w.drop_first();
                                    assert(w =~= seq![c] + v);
                                    assert(tail.drop_first() =~= rest);
                                    assert(mid.child(c) == Some(mid.nodes@[i as int]));
                                    assert(a.child(c) == Some(a.nodes@[i as int]));
                                    assert(mid.nodes@[i as int].has_word(v) == (a.nodes@[i as int].has_word(
                                        v,
                                    ) && v != rest));
                                } else {
                                    assert(mid.child(w[0]) == a.child(w[0]));
                                }
                            }
                        }
                    }
                    if !kept {
                        self.keys.swap_remove(i);
                        self.nodes.swap_remove(i);
                        proof {
                            let b = *self;
                            let gone = mid.nodes@[i as int];
                            let last = mid.keys@.len() - 1;
                            assert(b.keys@.no_duplicates());
                            assert(!b.keys@.contains(c)) by {
                                if b.keys@.contains(c) {
                                    let j = b.keys@.index_of(c);
                                    assert(mid.keys@[if j == i {
                                        last
                                    } else {
                                        j
                                    }] == c);
                                }
                            }
                            assert forall|w: Seq<char>| mid.has_word(w) == b.has_word(w) by {
                                if w.len() > 0 {
                                    if w[0] == c {
                                        assert(mid.child(c) == Some(gone));
                                        gone.lemma_bare_stores_nothing(w.drop_first());
                                    } else {
                                        if mid.keys@.contains(w[0]) {
                                            let j = mid.keys@.index_of(w[0]);
                                            let k = if j == last {
                                                i as int
                                            } else {
                                                j
                                            };
                                            assert(b.keys@[k] == w[0]);
                                            assert(b.nodes@[k] == mid.nodes@[j]);
                                            assert(b.keys@.index_of(w[0]) == k);
                                        } else if b.keys@.contains(w[0]) {
                                            let j = b.keys@.index_of(w[0]);
                                            assert(mid.keys@[if j == i {
                                                last
                                            } else {
                                                j
                                            }] == w[0]);
                                        }
                                        assert(mid.child(w[0]) == b.child(w[0]));
                                    }
                                }
                            }
                        }
                    }
                },
                None => {
                    proof {
                        assert(!old(self).has_word(tail));
                    }
                },
            }
        } else {
            self.marks_word = false;
            proof {
                assert(tail =~= Seq::<char>::empty());
                assert forall|w: Seq<char>|
                    self.has_word(w) == (old(self).has_word(w) && w != tail) by {
                    if w.len() == 0 {
                        assert(w =~= Seq::<char>::empty());
                    } else {
                        assert(self.child(w[0]) == old(self).child(w[0]));
                    }
                }
            }
        }
        self.marks_word || !self.keys.is_empty()
    }

    /// Checks whether an item is contained in the Trie.
    pub fn has(&self, item: &str) -> (found: bool)
        requires
            self.wf(),
        ensures
            found == self@.contains(item@),
    {
        let word = text::chars_of(item);
        proof {
            assert(word@.skip(0) =~= item@);
        }
        self._has(&word, 0)
    }

    fn _has(&self, word: &Vec<char>, from: usize) -> (found: bool)
        requires
            self.wf(),
            from <= word@.len(),
        ensures
            found == self.has_word(word@.skip(from as int)),
        decreases word@.len() - from,
    {
        if from == word.len() {
            return self.marks_word;
        }
        let next = word[from];
        proof {
            assert(word@.skip(from as int).drop_first() =~= word@.skip(from as int + 1));
        }
        let node = match self.find(next) {
            Some(i) => &self.nodes[i],
            None => return false,
        };
        node._has(word, from + 1)
    }

    /// The node that `word`, read from position `from`, leads to.
    pub(crate) fn _get(&self, word: &Vec<char>, from: usize) -> (found: Option<&Trie>)
        requires
            self.wf(),
            from <= word@.len(),
        ensures
            match found {
                Some(t) => self.node_at(word@.skip(from as int)) == Some(*t) && t.wf(),
                None => self.node_at(word@.skip(from as int)) is None,
            },
        decreases word@.len() - from,
    {
        if from == word.len() {
            return Some(self);
        }
        let next = word[from];
        proof {
            assert(word@.skip(from as int).drop_first() =~= word@.skip(from as int + 1));
        }
        let node = match self.find(next) {
            Some(i) => &self.nodes[i],
            None => return None,
        };
        node._get(word, from + 1)
    }

    /// A node without a mark and without children stores no word.
    pub(crate) proof fn lemma_bare_stores_nothing(self, w: Seq<char>)
        requires
            !self.carries(),
        ensures
            !self.has_word(w),
    {
        if w.len() > 0 {
            assert(self.child(w[0]) is None);
        }
    }

    /// The child at position `i` is the one its key leads to.
    pub(crate) proof fn lemma_child_at(self, i: int)
        requires
            self.wf(),
            0 <= i < self.keys@.len(),
        ensures
            self.child(self.keys@[i]) == Some(self.nodes@[i]),
    {
        assert(self.keys@.contains(self.keys@[i]));
        assert(self.keys@.index_of(self.keys@[i]) == i);
    }

    /// A well-formed node carries information exactly when some word is
    /// stored at or below it.
    pub(crate) proof fn lemma_carries_iff_stores(self)
        requires
            self.wf(),
        ensures
            self.carries() <==> exists|w: Seq<char>| self@.contains(w),
        decreases self,
    {
        if self.carries() {
            if self.marks_word {
                assert(self@.contains(Seq::<char>::empty()));
            } else {
                let sub = self.nodes@[0];
                sub.lemma_carries_iff_stores();
                let w = choose|w: Seq<char>| sub@.contains(w);
                let full = seq![self.keys@[0]] + w;
                self.lemma_child_at(0);
                assert(full.drop_first() =~= w);
                assert(self.has_word(full));
                assert(self@.contains(full));
            }
        } else {
            assert forall|w: Seq<char>| !self@.contains(w) by {
                self.lemma_bare_stores_nothing(w);
            }
        }
    }

    /// Going along `p + q` is going along `p` and then along `q`.
    pub(crate) proof fn lemma_node_at_concat(self, p: Seq<char>, q: Seq<char>)
        ensures
            self.node_at(p + q) == match self.node_at(p) {
                Some(n) => n.node_at(q),
                None => None,
            },
        decreases p.len(),
    {
        if p.len() == 0 {
            assert(p + q =~= q);
        } else {
            assert((p + q)[0] == p[0]);
            assert((p + q).drop_first() =~= p.drop_first() + q);
            match self.child(p[0]) {
                Some(n) => {
                    n.lemma_node_at_concat(p.drop_first(), q);
                },
                None => {},
            }
        }
    }

    /// Every node that a path leads to in a well-formed trie is well-formed,
    /// and carries information unless the path is empty.
    pub(crate) proof fn lemma_node_at_wf(self, p: Seq<char>)
        requires
            self.wf(),
            self.node_at(p) is Some,
        ensures
            self.node_at(p)->0.wf(),
            p.len() > 0 ==> self.node_at(p)->0.carries(),
        decreases p.len(),
    {
        if p.len() > 0 {
            let n = self.child(p[0])->0;
            let i = self.keys@.index_of(p[0]);
            assert(n == self.nodes@[i]);
            n.lemma_node_at_wf(p.drop_first());
        }
    }
}

} // verus!
