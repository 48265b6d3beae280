//! The mathematical value of a trie.
//!
//! A [`Tree`] is what a node of the trie stands for: a label, two counters and
//! the subtrees below it, in order. Every contract of the crate is stated over
//! this type; nothing in this module runs.

use vstd::prelude::*;

verus! {

/// A node together with everything below it.
pub ghost struct Tree {
    /// The character that leads from the parent to this node.
    pub label: char,
    /// How many insertions passed through this node.
    pub used: u64,
    /// How many insertions ended at this node.
    pub ends: u64,
    /// The subtrees, in the order in which they are stored.
    pub children: Seq<Tree>,
}

/// One call of a walk's predicate: what it was shown, and what it answered.
pub ghost struct Visit {
    /// The labels from below the root down to the node shown.
    pub path: Seq<char>,
    /// That node's `used` counter.
    pub used: u64,
    /// That node's count of words that end there.
    pub ends: u64,
    /// The predicate's answer: whether the walk was to go on below the node.
    pub kept: bool,
}

impl Tree {
    /// The trie that holds nothing: its root carries the label zero, which no path shows.
    pub open spec fn empty() -> Tree {
        Tree::leaf('\0')
    }

    /// A node that nothing has passed through yet.
    pub open spec fn leaf(label: char) -> Tree {
        Tree { label, used: 0, ends: 0, children: Seq::empty() }
    }

    /// The children's labels strictly ascend: they are in order and none occurs twice.
    pub open spec fn sorted(self) -> bool {
        forall|i: int, j: int|
            0 <= i < j < self.children.len() ==> self.children[i].label < self.children[j].label
    }

    /// Every node of the tree has its children sorted.
    pub open spec fn wf(self) -> bool
        decreases self,
    {
        &&& self.sorted()
        &&& forall|i: int| 0 <= i < self.children.len() ==> (#[trigger] self.children[i]).wf()
    }

    /// Some child carries the label `c`.
    pub open spec fn has_child(self, c: char) -> bool {
        exists|i: int| 0 <= i < self.children.len() && (#[trigger] self.children[i]).label == c
    }

    /// The position of a child labelled `c`.
    pub open spec fn index_of(self, c: char) -> int {
        choose|i: int| 0 <= i < self.children.len() && (#[trigger] self.children[i]).label == c
    }

    /// The child labelled `c`, if there is one.
    pub open spec fn child(self, c: char) -> Option<Tree> {
        if self.has_child(c) {
            Some(self.children[self.index_of(c)])
        } else {
            None
        }
    }

    /// Position `p` parts the children into those labelled below `c` and those above it.
    pub open spec fn splits_at(self, p: int, c: char) -> bool {
        &&& 0 <= p <= self.children.len()
        &&& forall|i: int| 0 <= i < p ==> (#[trigger] self.children[i]).label < c
        &&& forall|i: int| p <= i < self.children.len() ==> c < (#[trigger] self.children[i]).label
    }

    /// Where a child labelled `c` has to go so that the children stay sorted.
    pub open spec fn rank(self, c: char) -> int {
        choose|p: int| self.splits_at(p, c)
    }

    /// The node reached from here by following `path`, if the tree holds it.
    pub open spec fn at(self, path: Seq<char>) -> Option<Tree>
        decreases path.len(),
    {
        if path.len() == 0 {
            Some(self)
        } else {
            match self.child(path[0]) {
                Some(k) => k.at(path.drop_first()),
                None => None,
            }
        }
    }

    /// The tree holds a node at `path`.
    pub open spec fn has(self, path: Seq<char>) -> bool {
        self.at(path) is Some
    }

    /// The `used` counter at `path`; zero where there is no node.
    pub open spec fn used_at(self, path: Seq<char>) -> nat {
        match self.at(path) {
            Some(t) => t.used as nat,
            None => 0,
        }
    }

    /// The number of insertions that ended at `path`; zero where there is no node.
    pub open spec fn count_at(self, path: Seq<char>) -> nat {
        match self.at(path) {
            Some(t) => t.ends as nat,
            None => 0,
        }
    }

    /// What a lookup of `word` answers: the count of the word, if it was ever inserted.
    pub open spec fn lookup(self, word: Seq<char>) -> Option<u64> {
        match self.at(word) {
            Some(t) => if t.ends > 0 {
                Some(t.ends)
            } else {
                None
            },
            None => None,
        }
    }

    /// No counter that an insertion of `word` raises is at its limit.
    pub open spec fn room(self, word: Seq<char>) -> bool
        decreases word.len(),
    {
        &&& self.used < u64::MAX
        &&& if word.len() == 0 {
            self.ends < u64::MAX
        } else {
            match self.child(word[0]) {
                Some(k) => k.room(word.drop_first()),
                None => true,
            }
        }
    }

    /// The tree after one insertion of `word`.
    pub open spec fn inserted(self, word: Seq<char>) -> Tree
        decreases word.len(),
    {
        let used = (self.used + 1) as u64;
        if word.len() == 0 {
            Tree { used, ends: (self.ends + 1) as u64, ..self }
        } else if self.has_child(word[0]) {
            let i = self.index_of(word[0]);
            let k = self.children[i].inserted(word.drop_first());
            Tree { used, children: self.children.update(i, k), ..self }
        } else {
            let k = Tree::leaf(word[0]).inserted(word.drop_first());
            Tree { used, children: self.children.insert(self.rank(word[0]), k), ..self }
        }
    }

    /// The tree after the insertion of each of `words`, first to last.
    pub open spec fn grown(self, words: Seq<Seq<char>>) -> Tree
        decreases words.len(),
    {
        if words.len() == 0 {
            self
        } else {
            self.grown(words.drop_last()).inserted(words.last())
        }
    }

    /// A walk of this node below `prefix` can come to show `path` with these
    /// counters: they are the node's own, or those of a node further down.
    pub open spec fn offers(self, prefix: Seq<char>, path: Seq<char>, used: u64, ends: u64) -> bool
        decreases self, 1nat,
    {
        let here = prefix.push(self.label);
        ||| path == here && used == self.used && ends == self.ends
        ||| self.offers_below(here, path, used, ends)
    }

    /// A walk of this node's children below `here` can come to show `path` with
    /// these counters.
    pub open spec fn offers_below(
        self,
        here: Seq<char>,
        path: Seq<char>,
        used: u64,
        ends: u64,
    ) -> bool
        decreases self, 0nat,
    {
        exists|i: int|
            0 <= i < self.children.len() && (#[trigger] self.children[i]).offers(
                here,
                path,
                used,
                ends,
            )
    }

    /// A walk of the whole trie can come to show `path` with these counters:
    /// some node below the root lies at the end of `path` and carries them.
    pub open spec fn shown(self, path: Seq<char>, used: u64, ends: u64) -> bool {
        self.offers_below(Seq::empty(), path, used, ends)
    }

    /// `trace` is a walk of this node below `prefix`: the node is shown first,
    /// under the path `prefix` and its own label; if the answer is to go on, the
    /// walks of all its children follow, else nothing does.
    pub open spec fn walks(self, prefix: Seq<char>, trace: Seq<Visit>) -> bool
        decreases self, 1nat, 0nat,
    {
        let path = prefix.push(self.label);
        &&& trace.len() > 0
        &&& trace[0].path == path
        &&& trace[0].used == self.used
        &&& trace[0].ends == self.ends
        &&& if trace[0].kept {
            self.descends(path, self.children.len(), trace.drop_first())
        } else {
            trace.len() == 1
        }
    }

    /// `trace` is made of walks of the first `n` children of this node, one after
    /// the other in the children's order, each below `path`.
    pub open spec fn descends(self, path: Seq<char>, n: nat, trace: Seq<Visit>) -> bool
        decreases self, 0nat, n,
    {
        if n == 0 || n > self.children.len() {
            trace.len() == 0
        } else {
            exists|k: int|
                0 <= k <= trace.len() && self.descends(
                    path,
                    (n - 1) as nat,
                    #[trigger] trace.take(k),
                ) && self.children[n - 1].walks(path, trace.skip(k))
        }
    }

    /// `trace` is a walk of the whole trie: walks of the root's children, in
    /// order. The root itself is never shown, and its label is in no path.
    pub open spec fn walked(self, trace: Seq<Visit>) -> bool {
        self.descends(Seq::empty(), self.children.len(), trace)
    }

    /// No label in the tree, that of its root among them, is `c`.
    pub open spec fn avoids(self, c: char) -> bool
        decreases self,
    {
        &&& self.label != c
        &&& forall|i: int| 0 <= i < self.children.len() ==> (#[trigger] self.children[i]).avoids(c)
    }

    /// No node has more children than a 64-bit number can count.
    pub open spec fn fits(self) -> bool
        decreases self,
    {
        &&& self.children.len() <= u64::MAX
        &&& forall|i: int| 0 <= i < self.children.len() ==> (#[trigger] self.children[i]).fits()
    }

    /// No counter in the tree exceeds `n`.
    pub open spec fn capped(self, n: nat) -> bool
        decreases self,
    {
        &&& self.used <= n
        &&& self.ends <= n
        &&& forall|i: int| 0 <= i < self.children.len() ==> (#[trigger] self.children[i]).capped(n)
    }
}

/// In a sorted node, the child found at a position is the child of its label.
pub proof fn lemma_child_at_index(t: Tree, i: int)
    requires
        t.sorted(),
        0 <= i < t.children.len(),
    ensures
        t.has_child(t.children[i].label),
        t.index_of(t.children[i].label) == i,
        t.child(t.children[i].label) == Some(t.children[i]),
{
    let c = t.children[i].label;
    let j = t.index_of(c);
    assert(0 <= j < t.children.len() && t.children[j].label == c);
    if j < i {
        assert(t.children[j].label < t.children[i].label);
    } else if i < j {
        assert(t.children[i].label < t.children[j].label);
    }
}

/// In a sorted node, a position that parts the children around `c` shows that no
/// child is labelled `c`, and is the only such position.
pub proof fn lemma_split_is_rank(t: Tree, p: int, c: char)
    requires
        t.splits_at(p, c),
    ensures
        !t.has_child(c),
        t.rank(c) == p,
{
    if t.has_child(c) {
        let j = t.index_of(c);
        assert(t.children[j].label == c);
        if j < p {
            assert(t.children[j].label < c);
        } else {
            assert(c < t.children[j].label);
        }
    }
    let q = t.rank(c);
    assert(t.splits_at(q, c));
    if q < p {
        assert(t.children[q].label < c);
        assert(c < t.children[q].label);
    } else if p < q {
        assert(t.children[p].label < c);
        assert(c < t.children[p].label);
    }
}

/// Among the first `n` children of a sorted node without a child labelled `c`,
/// some position parts those labelled below `c` from those above it.
proof fn lemma_split_below(t: Tree, c: char, n: int) -> (p: int)
    requires
        t.sorted(),
        !t.has_child(c),
        0 <= n <= t.children.len(),
    ensures
        0 <= p <= n,
        forall|i: int| 0 <= i < p ==> (#[trigger] t.children[i]).label < c,
        forall|i: int| p <= i < n ==> c < (#[trigger] t.children[i]).label,
    decreases n,
{
    if n == 0 {
        0
    } else {
        let q = lemma_split_below(t, c, n - 1);
        let last = t.children[n - 1];
        assert(last.label != c);
        if last.label < c {
            assert forall|i: int| 0 <= i < n implies (#[trigger] t.children[i]).label < c by {
                if i < n - 1 {
                    assert(t.children[i].label < t.children[n - 1].label);
                }
            }
            n
        } else {
            q
        }
    }
}

/// A sorted node without a child labelled `c` has a place for one, and `rank` names it.
pub proof fn lemma_rank_splits(t: Tree, c: char)
    requires
        t.sorted(),
        !t.has_child(c),
    ensures
        t.splits_at(t.rank(c), c),
{
    let p = lemma_split_below(t, c, t.children.len() as int);
    assert(t.splits_at(p, c));
}

/// Walks of the first `n - 1` children followed by a walk of child `n - 1` make
/// up walks of the first `n` children.
pub proof fn lemma_descends_step(t: Tree, path: Seq<char>, n: nat, trace: Seq<Visit>, k: int)
    requires
        0 < n <= t.children.len(),
        0 <= k <= trace.len(),
        t.descends(path, (n - 1) as nat, trace.take(k)),
        t.children[n - 1].walks(path, trace.skip(k)),
    ensures
        t.descends(path, n, trace),
{
}

} // verus!
