//! What holds of the trie across insertions and lookups.

use crate::model::{lemma_child_at_index, lemma_rank_splits, Tree};
use vstd::prelude::*;

verus! {

/// An insertion keeps every node's children sorted and without duplicates, and
/// leaves the label of the node it starts from alone.
pub proof fn lemma_inserted_wf(t: Tree, word: Seq<char>)
    requires
        t.wf(),
    ensures
        t.inserted(word).wf(),
        t.inserted(word).label == t.label,
    decreases word.len(),
{
    let r = t.inserted(word);
    if word.len() == 0 {
        assert(r.children == t.children);
    } else {
        let c = word[0];
        let rest = word.drop_first();
        if t.has_child(c) {
            let i = t.index_of(c);
            lemma_inserted_wf(t.children[i], rest);
            assert forall|j: int| 0 <= j < r.children.len() implies (#[trigger] r.children[j]).wf()
                && r.children[j].label == t.children[j].label by {
                if j != i {
                    assert(t.children[j].wf());
                }
            }
            lemma_child_after_update(t, r, i, r.children[i], c);
        } else {
            lemma_rank_splits(t, c);
            let p = t.rank(c);
            assert(Tree::leaf(c).wf());
            lemma_inserted_wf(Tree::leaf(c), rest);
            assert forall|j: int| 0 <= j < r.children.len() implies (#[trigger] r.children[j]).wf() by {
                if j < p {
                    assert(t.children[j].wf());
                } else if j > p {
                    assert(t.children[j - 1].wf());
                }
            }
            lemma_child_after_insert(t, r, p, r.children[p], c);
        }
    }
}

/// A bound on the counters of a tree is a bound under every larger number too.
pub proof fn lemma_capped_grows(t: Tree, n: nat, m: nat)
    requires
        t.capped(n),
        n <= m,
    ensures
        t.capped(m),
    decreases t,
{
    assert forall|i: int| 0 <= i < t.children.len() implies (#[trigger] t.children[i]).capped(m) by {
        lemma_capped_grows(t.children[i], n, m);
    }
}

/// Where no counter has reached a bound below the largest number, there is
/// room for every word.
pub proof fn lemma_capped_room(t: Tree, n: nat, word: Seq<char>)
    requires
        t.capped(n),
        n < u64::MAX,
    ensures
        t.room(word),
    decreases word.len(),
{
    if word.len() > 0 && t.has_child(word[0]) {
        let i = t.index_of(word[0]);
        lemma_capped_room(t.children[i], n, word.drop_first());
    }
}

/// An insertion raises a bound on the counters of a tree by one at most.
pub proof fn lemma_inserted_capped(t: Tree, n: nat, word: Seq<char>)
    requires
        t.wf(),
        t.capped(n),
        n < u64::MAX,
    ensures
        t.inserted(word).capped(n + 1),
    decreases word.len(),
{
    let r = t.inserted(word);
    if word.len() == 0 {
        assert forall|i: int| 0 <= i < r.children.len() implies (#[trigger] r.children[i]).capped(
            n + 1,
        ) by {
            lemma_capped_grows(t.children[i], n, n + 1);
        }
    } else {
        let c = word[0];
        let rest = word.drop_first();
        if t.has_child(c) {
            let i = t.index_of(c);
            lemma_inserted_capped(t.children[i], n, rest);
            assert forall|j: int| 0 <= j < r.children.len() implies (#[trigger] r.children[j]).capped(
                n + 1,
            ) by {
                if j != i {
                    lemma_capped_grows(t.children[j], n, n + 1);
                }
            }
        } else {
            lemma_rank_splits(t, c);
            let p = t.rank(c);
            assert(Tree::leaf(c).wf());
            assert(Tree::leaf(c).capped(n));
            lemma_inserted_capped(Tree::leaf(c), n, rest);
            assert forall|j: int| 0 <= j < r.children.len() implies (#[trigger] r.children[j]).capped(
                n + 1,
            ) by {
                if j < p {
                    lemma_capped_grows(t.children[j], n, n + 1);
                } else if j > p {
                    lemma_capped_grows(t.children[j - 1], n, n + 1);
                }
            }
        }
    }
}

/// A word begins with a path just when both begin with the same character and
/// the rest of the word begins with the rest of the path.
pub proof fn lemma_prefix_step(p: Seq<char>, w: Seq<char>)
    requires
        p.len() > 0,
        w.len() > 0,
    ensures
        p.is_prefix_of(w) <==> (p[0] == w[0] && p.drop_first().is_prefix_of(w.drop_first())),
        p == w <==> (p[0] == w[0] && p.drop_first() == w.drop_first()),
{
    let a = p.drop_first();
    let b = w.drop_first();
    if p.is_prefix_of(w) {
        assert(p[0] == w.subrange(0, p.len() as int)[0]);
        assert forall|i: int| 0 <= i < a.len() implies a[i] == b.subrange(0, a.len() as int)[i] by {
            assert(p[i + 1] == w.subrange(0, p.len() as int)[i + 1]);
        }
        assert(a =~= b.subrange(0, a.len() as int));
    }
    if p[0] == w[0] && a.is_prefix_of(b) {
        assert forall|i: int| 0 <= i < p.len() implies p[i] == w.subrange(0, p.len() as int)[i] by {
            if i > 0 {
                assert(a[i - 1] == b.subrange(0, a.len() as int)[i - 1]);
            }
        }
        assert(p =~= w.subrange(0, p.len() as int));
    }
    if p[0] == w[0] && a == b {
        assert forall|i: int| 0 <= i < p.len() implies p[i] == w[i] by {
            if i > 0 {
                assert(a[i - 1] == b[i - 1]);
            }
        }
        assert(p.len() == a.len() + 1 && w.len() == b.len() + 1);
        assert(p =~= w);
    }
}

/// Two nodes with the same children have the same child under every label.
pub proof fn lemma_child_same(t: Tree, r: Tree, x: char)
    requires
        r.children == t.children,
    ensures
        r.child(x) == t.child(x),
        r.has_child(x) == t.has_child(x),
{
}

/// Where one child of a sorted node is replaced by a tree of the same label,
/// the node stays sorted, that label leads to the new tree, and every other
/// label leads where it led before.
pub proof fn lemma_child_after_update(t: Tree, r: Tree, i: int, k: Tree, x: char)
    requires
        t.sorted(),
        0 <= i < t.children.len(),
        k.label == t.children[i].label,
        r.children == t.children.update(i, k),
    ensures
        r.sorted(),
        r.child(x) == (if x == k.label {
            Some(k)
        } else {
            t.child(x)
        }),
{
    assert forall|a: int, b: int| 0 <= a < b < r.children.len() implies r.children[a].label
        < r.children[b].label by {
        assert(t.children[a].label < t.children[b].label);
    }
    if x == k.label {
        lemma_child_at_index(r, i);
    } else if t.has_child(x) {
        let j = t.index_of(x);
        assert(r.children[j] == t.children[j]);
        lemma_child_at_index(r, j);
    } else if r.has_child(x) {
        let j = r.index_of(x);
        assert(t.children[j].label == x);
    }
}

/// Where a sorted node gets a new child at the place that its label asks for,
/// the node stays sorted, that label leads to the new child, and every other
/// label leads where it led before.
pub proof fn lemma_child_after_insert(t: Tree, r: Tree, p: int, k: Tree, x: char)
    requires
        t.sorted(),
        t.splits_at(p, k.label),
        r.children == t.children.insert(p, k),
    ensures
        r.sorted(),
        r.child(x) == (if x == k.label {
            Some(k)
        } else {
            t.child(x)
        }),
{
    let c = k.label;
    assert forall|a: int, b: int| 0 <= a < b < r.children.len() implies r.children[a].label
        < r.children[b].label by {
        if b < p {
            assert(t.children[a].label < t.children[b].label);
        } else if b == p {
            assert(t.children[a].label < c);
        } else if a < p {
            assert(t.children[a].label < c);
            assert(c < t.children[b - 1].label);
        } else if a == p {
            assert(c < t.children[b - 1].label);
        } else {
            assert(t.children[a - 1].label < t.children[b - 1].label);
        }
    }
    if x == c {
        assert(r.children[p] == k);
        lemma_child_at_index(r, p);
    } else if t.has_child(x) {
        let j = t.index_of(x);
        let jj = if j < p {
            j
        } else {
            j + 1
        };
        assert(r.children[jj] == t.children[j]);
        lemma_child_at_index(r, jj);
    } else if r.has_child(x) {
        let j = r.index_of(x);
        if j < p {
            assert(t.children[j].label == x);
        } else if j > p {
            assert(t.children[j - 1].label == x);
        }
    }
}

/// What one insertion changes, path by path: the nodes along the word come to
/// be, if they were not there; each of them counts one more use; the node at
/// the end of the word counts one more word; and nothing else changes.
pub proof fn lemma_inserted_at(t: Tree, word: Seq<char>, path: Seq<char>)
    requires
        t.wf(),
        t.room(word),
    ensures
        t.inserted(word).has(path) <==> t.has(path) || path.is_prefix_of(word),
        t.inserted(word).used_at(path) == t.used_at(path) + (if path.is_prefix_of(word) {
            1nat
        } else {
            0nat
        }),
        t.inserted(word).count_at(path) == t.count_at(path) + (if path == word {
            1nat
        } else {
            0nat
        }),
    decreases word.len(),
{
    let r = t.inserted(word);
    if path.len() == 0 {
        assert(path.is_prefix_of(word));
        assert(path == word <==> word.len() == 0) by {
            if word.len() == 0 {
                assert(path =~= word);
            }
        }
    } else if word.len() == 0 {
        lemma_child_same(t, r, path[0]);
    } else {
        let c = word[0];
        let rest = word.drop_first();
        let x = path[0];
        let tail = path.drop_first();
        lemma_prefix_step(path, word);
        if t.has_child(c) {
            let i = t.index_of(c);
            let k = t.children[i].inserted(rest);
            lemma_inserted_wf(t.children[i], rest);
            lemma_child_after_update(t, r, i, k, x);
            if x == c {
                lemma_inserted_at(t.children[i], rest, tail);
            }
        } else {
            lemma_rank_splits(t, c);
            let leaf = Tree::leaf(c);
            let k = leaf.inserted(rest);
            assert(leaf.wf());
            assert(leaf.children.len() == 0);
            assert(leaf.room(rest));
            lemma_inserted_wf(leaf, rest);
            lemma_child_after_insert(t, r, t.rank(c), k, x);
            if x == c {
                lemma_inserted_at(leaf, rest, tail);
                if tail.len() == 0 {
                    assert(tail.is_prefix_of(rest));
                } else {
                    assert(!leaf.has_child(tail[0]));
                    assert(leaf.at(tail) is None);
                }
            }
        }
    }
}

/// How many of `words` are `word`.
pub open spec fn occurrences(words: Seq<Seq<char>>, word: Seq<char>) -> nat
    decreases words.len(),
{
    if words.len() == 0 {
        0
    } else {
        occurrences(words.drop_last(), word) + (if words.last() == word {
            1nat
        } else {
            0nat
        })
    }
}

/// How many of `words` begin with `path`.
pub open spec fn passing(words: Seq<Seq<char>>, path: Seq<char>) -> nat
    decreases words.len(),
{
    if words.len() == 0 {
        0
    } else {
        passing(words.drop_last(), path) + (if path.is_prefix_of(words.last()) {
            1nat
        } else {
            0nat
        })
    }
}

/// Whatever is inserted into the empty trie, and in whatever order, every
/// node's children stay sorted by label with no label twice, and no counter
/// exceeds the number of insertions.
pub proof fn lemma_grown_wf(words: Seq<Seq<char>>)
    requires
        words.len() <= u64::MAX,
    ensures
        Tree::empty().grown(words).wf(),
        Tree::empty().grown(words).capped(words.len()),
        Tree::empty().grown(words).label == Tree::empty().label,
    decreases words.len(),
{
    if words.len() == 0 {
        assert(Tree::empty().children.len() == 0);
    } else {
        let before = Tree::empty().grown(words.drop_last());
        lemma_grown_wf(words.drop_last());
        lemma_inserted_wf(before, words.last());
        lemma_inserted_capped(before, (words.len() - 1) as nat, words.last());
    }
}

/// In a trie grown from the empty one, the count at a path is the number of
/// insertions of exactly that word, and the `used` counter at a path is the
/// number of insertions of words that begin with it. At the root that is the
/// number of all insertions, those of the empty word among them.
pub proof fn lemma_grown_counts(words: Seq<Seq<char>>, path: Seq<char>)
    requires
        words.len() <= u64::MAX,
    ensures
        Tree::empty().grown(words).count_at(path) == occurrences(words, path),
        Tree::empty().grown(words).used_at(path) == passing(words, path),
        Tree::empty().grown(words).used == words.len(),
    decreases words.len(),
{
    let empty_path = Seq::<char>::empty();
    if words.len() == 0 {
        let e = Tree::empty();
        assert(e.children.len() == 0);
        if path.len() > 0 {
            assert(!e.has_child(path[0]));
        }
    } else {
        let before = Tree::empty().grown(words.drop_last());
        let n = (words.len() - 1) as nat;
        lemma_grown_wf(words.drop_last());
        lemma_grown_counts(words.drop_last(), path);
        lemma_grown_counts(words.drop_last(), empty_path);
        lemma_capped_room(before, n, words.last());
        lemma_inserted_at(before, words.last(), path);
    }
}

/// A lookup answers with the count at the word's path, and with nothing where
/// that count is zero: a path that only longer words run through holds no word.
pub proof fn lemma_lookup_counts(t: Tree, word: Seq<char>)
    ensures
        t.lookup(word) == (if t.count_at(word) > 0 {
            Some(t.count_at(word) as u64)
        } else {
            None
        }),
{
}

/// After any insertions into the empty trie, a lookup of a word answers with
/// the number of times that the word was inserted, if it ever was.
pub proof fn lemma_grown_lookup(words: Seq<Seq<char>>, word: Seq<char>)
    requires
        words.len() <= u64::MAX,
    ensures
        Tree::empty().grown(words).lookup(word) == (if occurrences(words, word) > 0 {
            Some(occurrences(words, word) as u64)
        } else {
            None
        }),
{
    lemma_grown_counts(words, word);
    lemma_lookup_counts(Tree::empty().grown(words), word);
}

/// An insertion brings no labels into the tree but the characters of the word.
pub proof fn lemma_inserted_avoids(t: Tree, word: Seq<char>, c: char)
    requires
        t.wf(),
        t.avoids(c),
        forall|i: int| 0 <= i < word.len() ==> word[i] != c,
    ensures
        t.inserted(word).avoids(c),
    decreases word.len(),
{
    let r = t.inserted(word);
    if word.len() == 0 {
        assert(r.children == t.children);
    } else {
        let x = word[0];
        let rest = word.drop_first();
        assert forall|i: int| 0 <= i < rest.len() implies rest[i] != c by {
            assert(rest[i] == word[i + 1]);
        }
        if t.has_child(x) {
            let i = t.index_of(x);
            lemma_inserted_avoids(t.children[i], rest, c);
            assert forall|j: int| 0 <= j < r.children.len() implies (#[trigger] r.children[j]).avoids(
                c,
            ) by {
                if j != i {
                    assert(t.children[j].avoids(c));
                }
            }
        } else {
            lemma_rank_splits(t, x);
            let p = t.rank(x);
            assert(Tree::leaf(x).wf());
            assert(Tree::leaf(x).avoids(c));
            lemma_inserted_avoids(Tree::leaf(x), rest, c);
            assert forall|j: int| 0 <= j < r.children.len() implies (#[trigger] r.children[j]).avoids(
                c,
            ) by {
                if j < p {
                    assert(t.children[j].avoids(c));
                } else if j > p {
                    assert(t.children[j - 1].avoids(c));
                }
            }
        }
    }
}

/// A trie grown from the empty one holds no labels but the characters of the
/// words put into it, and the zero at its root.
pub proof fn lemma_grown_avoids(words: Seq<Seq<char>>, c: char)
    requires
        words.len() <= u64::MAX,
        c != '\0',
        forall|k: int, i: int| 0 <= k < words.len() && 0 <= i < words[k].len() ==> words[k][i] != c,
    ensures
        Tree::empty().grown(words).avoids(c),
    decreases words.len(),
{
    if words.len() == 0 {
        assert(Tree::empty().children.len() == 0);
    } else {
        let before = words.drop_last();
        assert forall|k: int, i: int| 0 <= k < before.len() && 0 <= i < before[k].len() implies before[k][i]
            != c by {
            assert(before[k] == words[k]);
        }
        lemma_grown_avoids(before, c);
        lemma_grown_wf(before);
        lemma_inserted_avoids(Tree::empty().grown(before), words.last(), c);
    }
}

} // verus!
