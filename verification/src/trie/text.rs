//! Reading and building strings character by character, and asking a
//! character set for membership.
//!
//! The three items at the end are not proved here: they state what the
//! standard library documents of `String::push`, `String::pop` and
//! `HashSet::contains`.

use std::collections::HashSet;
use vstd::prelude::*;

verus! {

/// The characters of `s`, in order, one element per Unicode scalar value.
pub(crate) fn chars_of(s: &str) -> (v: Vec<char>)
    ensures
        v@ == s@,
{
    let mut v: Vec<char> = Vec::new();
    for c in it: s.chars()
        invariant
            it.seq() == s@,
            v@ == s@.take(it.index() as int),
    {
        v.push(c);
    }
    v
}

/// How often `c` occurs in `s`.
pub(crate) open spec fn occurrences(s: Seq<char>, c: char) -> nat
    decreases s.len(),
{
    if s.len() == 0 {
        0
    } else {
        occurrences(s.drop_last(), c) + if s.last() == c {
            1nat
        } else {
            0nat
        }
    }
}

/// A character occurs at most as often as the sequence is long, and at
/// least once exactly when the sequence contains it.
pub(crate) proof fn lemma_occurrences(s: Seq<char>, c: char)
    ensures
        occurrences(s, c) <= s.len(),
        occurrences(s, c) > 0 <==> s.contains(c),
    decreases s.len(),
{
    if s.len() > 0 {
        let init = s.drop_last();
        lemma_occurrences(init, c);
        if init.contains(c) {
            let i = choose|i: int| 0 <= i < init.len() && init[i] == c;
            assert(s[i] == c);
        }
        if s.contains(c) && s.last() != c {
            let i = choose|i: int| 0 <= i < s.len() && s[i] == c;
            assert(init[i] == c);
        }
    }
}

/// `String::push` appends the character to the end of the string and
/// changes nothing else.
pub assume_specification[ String::push ](s: &mut String, ch: char)
    ensures
        final(s)@ == old(s)@.push(ch),
;

/// `String::pop` removes the last character and returns it; on the empty
/// string it returns `None` and leaves the string empty.
pub assume_specification[ String::pop ](s: &mut String) -> (last: Option<char>)
    ensures
        old(s)@.len() == 0 ==> last is None && final(s)@ == old(s)@,
        old(s)@.len() > 0 ==> last == Some(old(s)@.last()) && final(s)@ == old(s)@.drop_last(),
;

/// `HashSet::contains` on a set of characters: whether `c` is an element of
/// the set. The standard library documents this of every key type whose
/// `Eq` and `Hash` agree, as those of `char` do.
#[verifier::external_body]
pub(crate) fn set_contains(set: &HashSet<char>, c: char) -> (found: bool)
    ensures
        found == set@.contains(c),
{
    set.contains(&c)
}

} // verus!
