//! The nodes of the trie and the recursive algorithms on them.

use crate::model::{lemma_child_at_index, lemma_descends_step, lemma_rank_splits, lemma_split_is_rank, Tree, Visit};
use vstd::prelude::*;

verus! {

/// One vertex of the trie. It owns its children, which it keeps sorted by label.
pub struct Node {
    pub(crate) c: char,
    pub(crate) used: u64,
    pub(crate) eowc: u64,
    pub(crate) children: Vec<Node>,
}

impl View for Node {
    type V = Tree;

    closed spec fn view(&self) -> Tree {
        self.tree()
    }
}

/// The answer that `v` records is one that `pred` gave when it was shown `v`'s
/// path and counters.
pub open spec fn answered<P: FnMut(&str, u64, u64) -> bool>(pred: P, v: Visit) -> bool {
    exists|t: &str| t@ == v.path && #[trigger] call_ensures(pred, (t, v.used, v.ends), v.kept)
}

/// An answer that `pred` gave is an answer in the sense of `answered`.
proof fn lemma_answered<P: FnMut(&str, u64, u64) -> bool>(
    pred: P,
    t: &str,
    used: u64,
    ends: u64,
    kept: bool,
)
    requires
        call_ensures(pred, (t, used, ends), kept),
    ensures
        answered(pred, Visit { path: t@, used, ends, kept }),
{
    let v = Visit { path: t@, used, ends, kept };
    assert(t@ == v.path && call_ensures(pred, (t, v.used, v.ends), v.kept));
    assert(exists|s: &str| s@ == v.path && #[trigger] call_ensures(pred, (s, v.used, v.ends), v.kept));
}

impl Node {
    /// The tree that this node and its descendants make up.
    spec fn tree(&self) -> Tree
        decreases self,
    {
        Tree {
            label: self.c,
            used: self.used,
            ends: self.eowc,
            children: Seq::new(
                self.children@.len(),
                |i: int|
                    if 0 <= i < self.children@.len() {
                        self.children@[i].tree()
                    } else {
                        Tree::leaf(self.c)
                    },
            ),
        }
    }
}

impl Node {
    /// The view of a node, field by field.
    pub(crate) proof fn lemma_view(&self)
        ensures
            self@.label == self.c,
            self@.used == self.used,
            self@.ends == self.eowc,
            self@.children.len() == self.children@.len(),
            forall|i: int|
                0 <= i < self.children@.len() ==> #[trigger] self@.children[i]
                    == self.children@[i]@,
    {
    }

    /// A vector holds no more items than a 64-bit number can count, so no node does.
    pub proof fn lemma_fits(&self)
        ensures
            self@.fits(),
        decreases self,
    {
        self.lemma_view();
        assert(self.children@.len() == self.children.len());
        assert forall|i: int| 0 <= i < self@.children.len() implies (#[trigger] self@.children[i]).fits() by {
            self.children@[i].lemma_fits();
        }
    }

    /// A node without children and with both counters at zero.
    pub fn new(c: char) -> (n: Node)
        ensures
            n@ == Tree::leaf(c),
    {
        Node::new_with_stats(c, 0, 0)
    }

    /// A node without children and with the given counters.
    pub fn new_with_stats(c: char, used: u64, eowc: u64) -> (n: Node)
        ensures
            n@ == (Tree { label: c, used, ends: eowc, children: Seq::empty() }),
    {
        let n = Node { c, used, eowc, children: Vec::new() };
        proof {
            n.lemma_view();
            assert(n@.children =~= Seq::empty());
        }
        n
    }

    /// Binary search among the children: the position of the child labelled `c`,
    /// or else the position at which such a child would have to be inserted.
    fn find(&self, c: char) -> (r: Result<usize, usize>)
        requires
            self@.sorted(),
        ensures
            match r {
                Ok(i) => i < self@.children.len() && self@.has_child(c) && self@.index_of(c) == i,
                Err(p) => p <= self@.children.len() && !self@.has_child(c) && self@.rank(c) == p,
            },
    {
        proof {
            self.lemma_view();
        }
        let mut lo: usize = 0;
        let mut hi: usize = self.children.len();
        while lo < hi
            invariant
                self@.sorted(),
                self@.children.len() == self.children@.len(),
                forall|i: int|
                    0 <= i < self.children@.len() ==> #[trigger] self@.children[i]
                        == self.children@[i]@,
                0 <= lo <= hi <= self.children@.len(),
                forall|i: int| 0 <= i < lo ==> (#[trigger] self@.children[i]).label < c,
                forall|i: int|
                    hi <= i < self.children@.len() ==> c < (#[trigger] self@.children[i]).label,
            decreases hi - lo,
        {
            let mid: usize = lo + (hi - lo) / 2;
            let label: char = self.children[mid].c;
            proof {
                self.children[mid as int].lemma_view();
                assert(self@.children[mid as int].label == label);
            }
            if label == c {
                proof {
                    lemma_child_at_index(self@, mid as int);
                }
                return Ok(mid);
            } else if label < c {
                proof {
                    assert forall|i: int| 0 <= i < mid + 1 implies (
                    #[trigger] self@.children[i]).label < c by {
                        if i < mid {
                            assert(self@.children[i].label < self@.children[mid as int].label);
                        }
                    }
                }
                lo = mid + 1;
            } else {
                proof {
                    assert forall|i: int| mid <= i < self.children@.len() implies c < (
                    #[trigger] self@.children[i]).label by {
                        if mid < i {
                            assert(self@.children[mid as int].label < self@.children[i].label);
                        }
                    }
                }
                hi = mid;
            }
        }
        proof {
            lemma_split_is_rank(self@, lo as int, c);
        }
        Err(lo)
    }

    /// The child labelled `c`, if there is one.
    pub fn get_child(&self, c: char) -> (r: Option<&Node>)
        requires
            self@.sorted(),
        ensures
            match r {
                Some(k) => self@.child(c) == Some(k@),
                None => self@.child(c) is None,
            },
    {
        proof {
            self.lemma_view();
        }
        match self.find(c) {
            Ok(i) => Some(&self.children[i]),
            Err(_) => None,
        }
    }

    /// The child labelled `c`; where there is none yet, a fresh one is first put
    /// in its place among the sorted children. Whatever the caller then does to
    /// that child is what the node holds at that place, and nothing else changes.
    fn get_or_add_child(&mut self, c: char) -> (r: &mut Node)
        requires
            old(self)@.sorted(),
        ensures
            r@ == (if old(self)@.has_child(c) {
                old(self)@.children[old(self)@.index_of(c)]
            } else {
                Tree::leaf(c)
            }),
            final(self).c == old(self).c,
            final(self).used == old(self).used,
            final(self).eowc == old(self).eowc,
            final(self).children@ == (if old(self)@.has_child(c) {
                old(self).children@.update(old(self)@.index_of(c), *final(r))
            } else {
                old(self).children@.insert(old(self)@.rank(c), *final(r))
            }),
    {
        proof {
            self.lemma_view();
        }
        match self.find(c) {
            Ok(i) => &mut self.children[i],
            Err(p) => {
                self.children.insert(p, Node::new(c));
                &mut self.children[p]
            },
        }
    }

    /// Counts one insertion of the characters of `word` from position `from` on:
    /// this node was passed through, and the rest of the word goes to the child
    /// of its first character, or ends here. One call for each character left:
    /// the depth of the calls is `word.len() - from`.
    pub fn add(&mut self, word: &Vec<char>, from: usize)
        requires
            old(self)@.wf(),
            from <= word@.len(),
            old(self)@.room(word@.skip(from as int)),
        ensures
            final(self)@ == old(self)@.inserted(word@.skip(from as int)),
        decreases word@.len() - from,
    {
        let ghost before = self@;
        let ghost rest = word@.skip(from as int);
        proof {
            self.lemma_view();
        }
        self.used = self.used + 1;
        proof {
            self.lemma_view();
            assert(self@.children =~= before.children);
        }
        if from == word.len() {
            self.eowc = self.eowc + 1;
            proof {
                self.lemma_view();
                assert(self@.children =~= before.children);
            }
            return ;
        }
        let c: char = word[from];
        let ghost tail = word@.skip(from as int + 1);
        let ghost found = before.has_child(c);
        let ghost at = if found {
            before.index_of(c)
        } else {
            before.rank(c)
        };
        let ghost kids = self.children@;
        proof {
            assert(rest[0] == c);
            assert(rest.drop_first() =~= tail);
            if found {
                assert(0 <= at < before.children.len() && before.children[at].label == c);
            } else {
                lemma_rank_splits(before, c);
                assert(self@.splits_at(at, c));
                lemma_split_is_rank(self@, at, c);
                assert(Tree::leaf(c).children.len() == 0);
                assert(Tree::leaf(c).room(tail));
            }
        }
        let child = self.get_or_add_child(c);
        let ghost start = child@;
        child.add(word, from + 1);
        proof {
            self.lemma_view();
            let grown = start.inserted(tail);
            if found {
                assert(self.children@ =~= kids.update(at, self.children@[at]));
                assert(self@.children =~= before.children.update(at, grown));
            } else {
                assert(self.children@ =~= kids.insert(at, self.children@[at]));
                assert(self@.children =~= before.children.insert(at, grown));
            }
        }
    }

    /// The count of the word made of the characters of `word` from position
    /// `from` on, as seen from this node: how often it was inserted, if ever.
    /// One call for each character left, at most: the depth of the calls is
    /// bounded by `word.len() - from`.
    pub fn query(&self, word: &Vec<char>, from: usize) -> (r: Option<u64>)
        requires
            self@.wf(),
            from <= word@.len(),
        ensures
            r == self@.lookup(word@.skip(from as int)),
        decreases word@.len() - from,
    {
        proof {
            self.lemma_view();
        }
        if from == word.len() {
            if self.eowc > 0 {
                return Some(self.eowc);
            } else {
                return None;
            }
        }
        let c: char = word[from];
        proof {
            assert(word@.skip(from as int)[0] == c);
            assert(word@.skip(from as int).drop_first() =~= word@.skip(from as int + 1));
        }
        if let Some(child) = self.get_child(c) {
            proof {
                let i = self@.index_of(c);
                assert(0 <= i < self@.children.len() && self@.children[i].label == c);
            }
            child.query(word, from + 1)
        } else {
            None
        }
    }

    /// Walks the subtree in preorder. With `add` set, the node itself is shown to
    /// `pred` first, under the path in `s` extended by its label, and the walk
    /// goes on to the children only if `pred` says so; without it, the walk goes
    /// straight to the children. `s` is handed back as it came. The depth of the
    /// calls is bounded by the height of the subtree.
    pub fn walk<P: FnMut(&str, u64, u64) -> bool>(&self, s: &mut String, pred: &mut P, add: bool) -> (trace:
        Ghost<Seq<Visit>>)
        requires
            forall|t: &str, u: u64, e: u64|
                (if add {
                    self@.offers(old(s)@, t@, u, e)
                } else {
                    self@.offers_below(old(s)@, t@, u, e)
                }) ==> #[trigger] call_requires(*old(pred), (t, u, e)),
        ensures
            final(s)@ == old(s)@,
            *final(pred) == *old(pred),
            add ==> self@.walks(old(s)@, trace@),
            !add ==> self@.descends(old(s)@, self@.children.len(), trace@),
            forall|i: int| 0 <= i < trace@.len() ==> answered(*old(pred), #[trigger] trace@[i]),
        decreases self,
    {
        proof {
            self.lemma_view();
        }
        let ghost mut head: Seq<Visit> = Seq::empty();
        if add {
            s.push(self.c);
            let shown = s.as_str();
            let kept = pred(shown, self.used, self.eowc);
            proof {
                head = seq![Visit { path: shown@, used: self.used, ends: self.eowc, kept }];
                lemma_answered(*old(pred), shown, self.used, self.eowc, kept);
            }
            if !kept {
                s.pop();
                proof {
                    assert(s@ =~= old(s)@);
                }
                return Ghost(head);
            }
        }
        let ghost path = s@;
        let ghost mut below: Seq<Visit> = Seq::empty();
        let mut i: usize = 0;
        while i < self.children.len()
            invariant
                0 <= i <= self.children@.len(),
                self@.children.len() == self.children@.len(),
                forall|j: int|
                    0 <= j < self.children@.len() ==> #[trigger] self@.children[j]
                        == self.children@[j]@,
                s@ == path,
                *pred == *old(pred),
                forall|t: &str, u: u64, e: u64|
                    self@.offers_below(path, t@, u, e) ==> #[trigger] call_requires(
                        *pred,
                        (t, u, e),
                    ),
                self@.descends(path, i as nat, below),
                forall|j: int| 0 <= j < below.len() ==> answered(*old(pred), #[trigger] below[j]),
            decreases self.children@.len() - i,
        {
            proof {
                assert forall|t: &str, u: u64, e: u64|
                    self.children@[i as int]@.offers(path, t@, u, e) implies #[trigger] call_requires(
                    *pred,
                    (t, u, e),
                ) by {
                    assert(self@.children[i as int].offers(path, t@, u, e));
                }
            }
            let t = self.children[i].walk(s, pred, true);
            proof {
                let joined = below + t@;
                let k = below.len() as int;
                assert(joined.take(k) =~= below);
                assert(joined.skip(k) =~= t@);
                lemma_descends_step(self@, path, (i + 1) as nat, joined, k);
                below = joined;
            }
            i = i + 1;
        }
        if add {
            s.pop();
            proof {
                assert(s@ =~= old(s)@);
                assert((head + below).drop_first() =~= below);
            }
        }
        Ghost(head + below)
    }

    /// Tells whether the children of every node of the subtree are sorted by
    /// label, with no label twice. The depth of the calls is bounded by the
    /// height of the subtree.
    pub fn well_formed(&self) -> (r: bool)
        ensures
            r == self@.wf(),
        decreases self,
    {
        proof {
            self.lemma_view();
        }
        let mut i: usize = 0;
        while i < self.children.len()
            invariant
                0 <= i <= self.children@.len(),
                self@.children.len() == self.children@.len(),
                forall|j: int|
                    0 <= j < self.children@.len() ==> #[trigger] self@.children[j]
                        == self.children@[j]@,
                forall|j: int| 0 <= j < i ==> (#[trigger] self@.children[j]).wf(),
                forall|a: int, b: int|
                    0 <= a < b < i ==> self@.children[a].label < self@.children[b].label,
            decreases self.children@.len() - i,
        {
            proof {
                self.children@[i as int].lemma_view();
                if i > 0 {
                    self.children@[i - 1].lemma_view();
                }
            }
            if i > 0 && !(self.children[i - 1].c < self.children[i].c) {
                proof {
                    assert(!(self@.children[i - 1].label < self@.children[i as int].label));
                }
                return false;
            }
            if !self.children[i].well_formed() {
                proof {
                    assert(!self@.children[i as int].wf());
                }
                return false;
            }
            proof {
                assert forall|a: int, b: int| 0 <= a < b < i + 1 implies self@.children[a].label
                    < self@.children[b].label by {
                    if b == i && a < i - 1 {
                        assert(self@.children[a].label < self@.children[i - 1].label);
                    }
                }
            }
            i = i + 1;
        }
        true
    }
}

} // verus!
