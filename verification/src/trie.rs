//! The trie itself: a root node whose label never shows.

use crate::codec::{decoded, split_lines};
use crate::laws::lemma_inserted_wf;
use crate::model::{Tree, Visit};
use crate::node::{answered, Node};
use crate::record::{ReadError, SEP};
use crate::round_trip::{lemma_round_trip, lemma_text_round_trip};
use crate::text::chars_of;
use vstd::prelude::*;

verus! {

/// A prefix tree over characters that counts, for every word put into it, how
/// often it was inserted, and for every prefix, how many insertions ran through it.
pub struct Trie {
    root: Node,
}

impl View for Trie {
    type V = Tree;

    closed spec fn view(&self) -> Tree {
        self.root@
    }
}

/// `trace` lists the calls that a walk of `tree` made to `pred`, in order, each
/// with the answer that `pred` gave.
pub open spec fn walked_by<P: FnMut(&str, u64, u64) -> bool>(
    tree: Tree,
    pred: P,
    trace: Seq<Visit>,
) -> bool {
    &&& tree.walked(trace)
    &&& forall|i: int| 0 <= i < trace.len() ==> answered(pred, #[trigger] trace[i])
}

impl Trie {
    /// No node of a trie has more children than its record can announce.
    pub proof fn lemma_fits(&self)
        ensures
            self@.fits(),
    {
        self.root.lemma_fits();
    }

    /// What `write` writes of a trie reads back as that trie, node for node: the
    /// same labels and counters, the same children in the same order. Only the
    /// two characters that the text form is made with cannot be labels: a
    /// separator would part its record in the wrong place, and a line feed
    /// would break it in two.
    pub proof fn lemma_reads_back(&self)
        requires
            self@.avoids(SEP),
            self@.avoids('\n'),
        ensures
            decoded(self@.lines()) == Ok::<Tree, ReadError>(self@),
            decoded(split_lines(self@.text())) == Ok::<Tree, ReadError>(self@),
    {
        self.lemma_fits();
        lemma_round_trip(self@);
        lemma_text_round_trip(self@);
    }

    /// A trie that holds nothing: a root without children, both counters at zero.
    pub fn new() -> (t: Trie)
        ensures
            t@ == Tree::empty(),
            t@.wf(),
    {
        Trie { root: Node::new('\0') }
    }

    /// Inserts `word` once: every node along its path counts one more use, nodes
    /// that were missing are made, and the node at its end counts one more word.
    /// The empty word ends at the root.
    ///
    /// The counters are 64 bits wide, and none of those that the insertion
    /// raises may stand at the largest number. A trie that came to be by fewer
    /// insertions than that has room for every word: see `lemma_capped_room`.
    ///
    /// The insertion calls itself once for each character of `word`: the stack
    /// it takes grows with the length of the word.
    pub fn add(&mut self, word: &str)
        requires
            old(self)@.wf(),
            old(self)@.room(word@),
        ensures
            final(self)@ == old(self)@.inserted(word@),
            final(self)@.wf(),
    {
        let chars = chars_of(word);
        proof {
            assert(chars@.skip(0) =~= word@);
            lemma_inserted_wf(self@, word@);
        }
        self.root.add(&chars, 0);
    }

    /// How often `word` was inserted: `None` when it never was, whether or not
    /// longer words run through its path.
    ///
    /// The lookup calls itself once for each character of `word` that the trie
    /// holds: the stack it takes grows with the length of the word.
    pub fn query(&self, word: &str) -> (r: Option<u64>)
        requires
            self@.wf(),
        ensures
            r == self@.lookup(word@),
    {
        let chars = chars_of(word);
        proof {
            assert(chars@.skip(0) =~= word@);
        }
        self.root.query(&chars, 0)
    }

    /// Walks the trie in preorder, children in the order of their labels, and
    /// shows each node but the root to `pred`: the path that leads to it and its
    /// two counters. Where `pred` answers `false`, the walk leaves out everything
    /// below that node and goes on with the node's next sibling.
    ///
    /// `pred` has to take whatever the trie can show it.
    ///
    /// The walk calls itself once for each level that it goes down: the stack it
    /// takes grows with the length of the longest path that `pred` lets it follow.
    pub fn walk<P: FnMut(&str, u64, u64) -> bool>(&self, pred: &mut P)
        requires
            forall|t: &str, u: u64, e: u64|
                self@.shown(t@, u, e) ==> #[trigger] call_requires(*old(pred), (t, u, e)),
        ensures
            exists|trace: Seq<Visit>| #[trigger] walked_by(self@, *old(pred), trace),
    {
        let mut word: String = String::new();
        let trace = self.root.walk(&mut word, pred, false);
        proof {
            assert(walked_by(self@, *old(pred), trace@));
        }
    }

    /// Appends the text form of the trie to `w`: one line for each node, the
    /// root first, every node before its children.
    ///
    /// The writing calls itself once for each level of the trie: the stack it
    /// takes grows with the length of the longest word in it.
    pub fn write(&self, w: &mut String)
        ensures
            final(w)@ == old(w)@ + self@.text(),
    {
        self.root.write(w);
    }

    /// Rebuilds a trie from the lines of its text form. White space at the end
    /// of a line is passed over; the label at its beginning is taken as it
    /// stands. Nothing checks that the children the lines list are sorted, and
    /// lines behind the last record of the trie are not looked at.
    ///
    /// The reading calls itself once for each level of the trie that the lines
    /// describe: the stack it takes grows with the depth of that trie, which is
    /// less than the number of lines.
    pub fn read(lines: &Vec<String>) -> (r: Result<Trie, ReadError>)
        ensures
            match r {
                Ok(t) => decoded(lines.deep_view()) == Ok::<Tree, ReadError>(t@),
                Err(e) => decoded(lines.deep_view()) == Err::<Tree, ReadError>(e),
            },
    {
        match Node::read(lines, 0) {
            Ok((root, _)) => Ok(Trie { root }),
            Err(e) => Err(e),
        }
    }

    /// Tells whether the children of every node are sorted by label, with no
    /// label twice. `add` and `query` rely on it; `new` and `add` see to it;
    /// `read` takes the lines on trust. The stack it takes grows with the depth
    /// of the trie.
    pub fn well_formed(&self) -> (r: bool)
        ensures
            r == self@.wf(),
    {
        self.root.well_formed()
    }
}

} // verus!
