//! A plain-text outline of a trie, for inspecting it by eye.
//!
//! Every node but the root gets one line: its character, indented by two
//! spaces for each node above it, and a star if it ends a word. A node's
//! line is followed by the lines of the nodes below it.

use super::Trie;
use vstd::prelude::*;

verus! {

/// `n` spaces.
pub open spec fn blank(n: nat) -> Seq<char> {
    Seq::new(n, |i: int| ' ')
}

/// The line of a node: `indent` spaces, the node's character, and a star
/// where the node ends a word.
pub open spec fn outline_line(indent: nat, c: char, marked: bool) -> Seq<char> {
    blank(indent).push(c) + if marked {
        seq!['*']
    } else {
        Seq::empty()
    }
}

/// What each string of `lines` holds.
pub open spec fn texts(lines: Seq<String>) -> Seq<Seq<char>> {
    lines.map_values(|s: String| s@)
}

impl Trie {
    /// The outline of the nodes below this one, its children indented by
    /// `indent` spaces, in the order the children are held in.
    pub open(crate) spec fn outline_lines(self, indent: nat) -> Seq<Seq<char>>
        decreases self,
    {
        self.outline_from(indent, 0)
    }

    /// The outline of the children from position `from` on.
    pub(crate) open spec fn outline_from(self, indent: nat, from: int) -> Seq<Seq<char>>
        decreases self, self.nodes@.len() - from,
    {
        if 0 <= from < self.nodes@.len() {
            seq![outline_line(indent, self.keys@[from], self.nodes@[from].marks_word)]
                + self.nodes@[from].outline_lines(indent + 2) + self.outline_from(indent, from + 1)
        } else {
            Seq::empty()
        }
    }

    /// The outline of the trie as lines of text, the children of the root
    /// indented by `indent` spaces.
    pub fn outline(&self, indent: usize) -> (lines: Vec<String>)
        requires
            self.wf(),
        ensures
            texts(lines@) == self.outline_lines(indent as nat),
    {
        let mut pad = String::new();
        let mut i: usize = 0;
        while i < indent
            invariant
                i <= indent,
                pad@ == blank(i as nat),
            decreases indent - i,
        {
            pad.push(' ');
            i += 1;
            proof {
                assert(pad@ =~= blank(i as nat));
            }
        }
        let mut lines: Vec<String> = Vec::new();
        self.outline_into(&mut pad, &mut lines);
        proof {
            assert(texts(Seq::<String>::empty()) =~= Seq::<Seq<char>>::empty());
            assert(texts(lines@) =~= self.outline_lines(indent as nat));
        }
        lines
    }

    /// Append the outline of the nodes below this one to `lines`, with
    /// `pad` as the indentation of the children.
    fn outline_into(&self, pad: &mut String, lines: &mut Vec<String>)
        requires
            self.wf(),
            old(pad)@ == blank(old(pad)@.len()),
        ensures
            final(pad)@ == old(pad)@,
            texts(final(lines)@) == texts(old(lines)@) + self.outline_lines(old(pad)@.len()),
        decreases self,
    {
        let ghost indent = pad@.len();
        let ghost start = texts(lines@);
        let mut i: usize = 0;
        while i < self.keys.len()
            invariant
                self.wf(),
                i <= self.keys@.len(),
                indent == old(pad)@.len(),
                start == texts(old(lines)@),
                pad@ == old(pad)@,
                pad@ == blank(indent),
                texts(lines@) + self.outline_from(indent, i as int) == start + self.outline_from(
                    indent,
                    0,
                ),
            decreases self.keys@.len() - i,
        {
            let c = self.keys[i];
            let node = &self.nodes[i];
            let ghost before = texts(lines@);
            let ghost head = outline_line(indent, c, node.marks_word);
            let mut line = pad.clone();
            line.push(c);
            if node.marks_word {
                line.push('*');
            }
            proof {
                assert(line@ =~= head);
                assert(texts(lines@.push(line)) =~= before.push(head));
            }
            lines.push(line);
            pad.push(' ');
            pad.push(' ');
            proof {
                assert(pad@ =~= blank(indent + 2));
            }
            node.outline_into(pad, lines);
            pad.pop();
            pad.pop();
            proof {
                assert(pad@ =~= blank(indent));
                let below = node.outline_lines(indent + 2);
                let rest = self.outline_from(indent, i as int + 1);
                assert(self.outline_from(indent, i as int) =~= seq![head] + below + rest);
                assert(texts(lines@) =~= before.push(head) + below);
                assert(texts(lines@) + rest =~= before + self.outline_from(indent, i as int));
            }
            i += 1;
        }
        proof {
            assert(self.outline_from(indent, i as int) =~= Seq::<Seq<char>>::empty());
            assert(texts(lines@) =~= texts(lines@) + self.outline_from(indent, i as int));
        }
    }
}

} // verus!
