//! Tries built from a list of words.

use crate::laws::{lemma_capped_room, lemma_inserted_capped, lemma_inserted_wf};
use crate::model::Tree;
use crate::trie::Trie;
use vstd::prelude::*;

verus! {

/// Those of `words` whose mark in `keep` is set, in their order.
pub open spec fn chosen(words: Seq<Seq<char>>, keep: Seq<bool>) -> Seq<Seq<char>>
    recommends
        keep.len() == words.len(),
    decreases words.len(),
{
    if words.len() == 0 || keep.len() == 0 {
        Seq::empty()
    } else if keep.last() {
        chosen(words.drop_last(), keep.drop_last()).push(words.last())
    } else {
        chosen(words.drop_last(), keep.drop_last())
    }
}

/// `out` is an answer that `pred` gave to `word`.
pub open spec fn said<B: Fn(&str) -> bool>(pred: B, word: Seq<char>, out: bool) -> bool {
    exists|s: &str| s@ == word && #[trigger] call_ensures(pred, (s,), out)
}

/// `keep` marks the words that `pred` let through: one answer of `pred` for each word.
pub open spec fn sifted<B: Fn(&str) -> bool>(pred: B, words: Seq<Seq<char>>, keep: Seq<bool>) -> bool {
    &&& keep.len() == words.len()
    &&& forall|i: int| 0 <= i < words.len() ==> said(pred, #[trigger] words[i], keep[i])
}

/// The trie that holds each of `words`, inserted in their order. The stack it
/// takes grows with the length of the longest word, as that of `Trie::add` does.
pub fn from_wordlist(words: &Vec<String>) -> (t: Trie)
    ensures
        t@ == Tree::empty().grown(words.deep_view()),
        t@.wf(),
{
    let ghost all = words.deep_view();
    let mut t = Trie::new();
    let mut i: usize = 0;
    proof {
        assert(all.take(0) =~= Seq::<Seq<char>>::empty());
    }
    while i < words.len()
        invariant
            all == words.deep_view(),
            all.len() == words@.len(),
            0 <= i <= words@.len(),
            t@ == Tree::empty().grown(all.take(i as int)),
            t@.wf(),
            t@.capped(i as nat),
        decreases words@.len() - i,
    {
        let word = words[i].as_str();
        proof {
            assert(all[i as int] == word@);
            assert(all.take(i + 1).drop_last() =~= all.take(i as int));
            assert(all.take(i + 1).last() == word@);
            lemma_capped_room(t@, i as nat, word@);
            lemma_inserted_capped(t@, i as nat, word@);
        }
        t.add(word);
        i = i + 1;
    }
    proof {
        assert(all.take(i as int) =~= all);
    }
    t
}

/// The trie that holds those of `words` that `pred` lets through, inserted in
/// their order. `pred` is asked once for each word. The stack it takes grows
/// with the length of the longest word, as that of `Trie::add` does.
pub fn from_wordlist_if<B: Fn(&str) -> bool>(words: &Vec<String>, pred: B) -> (t: Trie)
    requires
        forall|s: &str, i: int|
            0 <= i < words@.len() && s@ == (#[trigger] words@[i])@ ==> #[trigger] call_requires(
                pred,
                (s,),
            ),
    ensures
        exists|keep: Seq<bool>| #[trigger]
            sifted(pred, words.deep_view(), keep) && t@ == Tree::empty().grown(
                chosen(words.deep_view(), keep),
            ),
        t@.wf(),
{
    let ghost all = words.deep_view();
    let ghost mut keep: Seq<bool> = Seq::empty();
    let mut t = Trie::new();
    let mut i: usize = 0;
    let mut n: usize = 0;
    proof {
        assert(all.take(0) =~= Seq::<Seq<char>>::empty());
    }
    while i < words.len()
        invariant
            all == words.deep_view(),
            all.len() == words@.len(),
            0 <= n <= i <= words@.len(),
            forall|s: &str, i: int|
                0 <= i < words@.len() && s@ == (#[trigger] words@[i])@ ==> #[trigger] call_requires(
                    pred,
                    (s,),
                ),
            sifted(pred, all.take(i as int), keep),
            t@ == Tree::empty().grown(chosen(all.take(i as int), keep)),
            t@.wf(),
            t@.capped(n as nat),
        decreases words@.len() - i,
    {
        let word = words[i].as_str();
        let pass = pred(word);
        proof {
            let next = keep.push(pass);
            assert(all[i as int] == word@);
            assert(all.take(i + 1).drop_last() =~= all.take(i as int));
            assert(all.take(i + 1).last() == word@);
            assert(next.drop_last() =~= keep);
            assert(said(pred, word@, pass)) by {
                assert(word@ == word@ && call_ensures(pred, (word,), pass));
            }
            assert forall|j: int| 0 <= j < i + 1 implies said(
                pred,
                #[trigger] all.take(i + 1)[j],
                next[j],
            ) by {
                if j < i {
                    assert(all.take(i as int)[j] == all.take(i + 1)[j]);
                }
            }
            let had = chosen(all.take(i as int), keep);
            if pass {
                assert(chosen(all.take(i + 1), next) == had.push(word@));
                assert(had.push(word@).drop_last() =~= had);
            } else {
                assert(chosen(all.take(i + 1), next) == had);
            }
            keep = next;
        }
        if pass {
            proof {
                lemma_capped_room(t@, n as nat, word@);
                lemma_inserted_capped(t@, n as nat, word@);
            }
            t.add(word);
            n = n + 1;
        }
        i = i + 1;
    }
    proof {
        assert(all.take(i as int) =~= all);
    }
    t
}

} // verus!
