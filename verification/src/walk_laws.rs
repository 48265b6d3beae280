//! What holds of every walk, whatever the predicate answers.

use crate::model::{lemma_child_at_index, Tree, Visit};
use vstd::prelude::*;

verus! {

/// Before visit `j` the walk showed the node one step above it, and was told to go on.
pub open spec fn has_parent(trace: Seq<Visit>, j: int) -> bool {
    exists|i: int|
        0 <= i < j && (#[trigger] trace[i]).kept && trace[i].path == trace[j].path.drop_last()
}

/// Visit `j` lies below `path`: directly, or below an earlier visit that was kept.
pub open spec fn hangs_below(trace: Seq<Visit>, path: Seq<char>, j: int) -> bool {
    &&& trace[j].path.len() > path.len()
    &&& trace[j].path.drop_last() == path || has_parent(trace, j)
}

/// A parent of a visit in a part of a trace is its parent in the whole trace.
proof fn lemma_parent_in_part(trace: Seq<Visit>, from: int, to: int, j: int)
    requires
        0 <= from <= to <= trace.len(),
        0 <= j < to - from,
        has_parent(trace.subrange(from, to), j),
    ensures
        has_parent(trace, from + j),
{
    let part = trace.subrange(from, to);
    let i = choose|i: int|
        0 <= i < j && (#[trigger] part[i]).kept && part[i].path == part[j].path.drop_last();
    assert(trace[from + i] == part[i]);
    assert(trace[from + j] == part[j]);
}

/// In walks of a node's children below `path`, every visit lies below `path`.
pub proof fn lemma_descends_hangs(t: Tree, path: Seq<char>, n: nat, trace: Seq<Visit>)
    requires
        t.descends(path, n, trace),
    ensures
        forall|j: int| 0 <= j < trace.len() ==> hangs_below(trace, path, j),
    decreases t, 0nat, n,
{
    if n == 0 || n > t.children.len() {
    } else {
        let k = choose|k: int|
            0 <= k <= trace.len() && t.descends(path, (n - 1) as nat, #[trigger] trace.take(k))
                && t.children[n - 1].walks(path, trace.skip(k));
        let head = trace.take(k);
        let tail = trace.skip(k);
        assert(head =~= trace.subrange(0, k));
        assert(tail =~= trace.subrange(k, trace.len() as int));
        lemma_descends_hangs(t, path, (n - 1) as nat, head);
        lemma_walks_hangs(t.children[n - 1], path, tail);
        assert forall|j: int| 0 <= j < trace.len() implies hangs_below(trace, path, j) by {
            if j < k {
                assert(hangs_below(head, path, j));
                assert(head[j] == trace[j]);
                if has_parent(head, j) {
                    lemma_parent_in_part(trace, 0, k, j);
                }
            } else if j == k {
                assert(tail[0] == trace[j]);
                assert(path.push(t.children[n - 1].label).drop_last() =~= path);
            } else {
                assert(tail[j - k] == trace[j]);
                assert(has_parent(tail, j - k));
                lemma_parent_in_part(trace, k, trace.len() as int, j - k);
            }
        }
    }
}

/// In a walk of a node below `prefix`, the first visit shows the node itself,
/// and every later one lies deeper and has its parent before it.
pub proof fn lemma_walks_hangs(t: Tree, prefix: Seq<char>, trace: Seq<Visit>)
    requires
        t.walks(prefix, trace),
    ensures
        trace.len() > 0,
        trace[0].path == prefix.push(t.label),
        forall|j: int|
            1 <= j < trace.len() ==> has_parent(trace, j) && (#[trigger] trace[j]).path.len()
                > prefix.len() + 1,
    decreases t, 1nat, 0nat,
{
    let path = prefix.push(t.label);
    if trace[0].kept {
        let rest = trace.drop_first();
        assert(rest =~= trace.subrange(1, trace.len() as int));
        lemma_descends_hangs(t, path, t.children.len(), rest);
        assert forall|j: int| 1 <= j < trace.len() implies has_parent(trace, j) && (
        #[trigger] trace[j]).path.len() > prefix.len() + 1 by {
            assert(rest[j - 1] == trace[j]);
            assert(hangs_below(rest, path, j - 1));
            if has_parent(rest, j - 1) {
                lemma_parent_in_part(trace, 1, trace.len() as int, j - 1);
            } else {
                assert(trace[0].kept && trace[0].path == trace[j].path.drop_last());
            }
        }
    }
}

/// A walk never shows a node whose parent it did not show before and was told
/// to go on from: every visit is of a child of the root, or has its parent
/// earlier in the walk, kept. Nothing below a refused node is shown.
pub proof fn lemma_walk_parents(t: Tree, trace: Seq<Visit>, j: int)
    requires
        t.walked(trace),
        0 <= j < trace.len(),
    ensures
        trace[j].path.len() >= 1,
        trace[j].path.len() > 1 ==> has_parent(trace, j),
{
    lemma_descends_hangs(t, Seq::empty(), t.children.len(), trace);
    assert(hangs_below(trace, Seq::empty(), j));
}

/// Where the predicate refuses every path longer than `limit`, the walk shows
/// no path longer than `limit + 1`: the nodes one step below the last ones kept
/// are shown, to be refused, and nothing deeper is.
pub proof fn lemma_walk_depth(t: Tree, trace: Seq<Visit>, limit: nat)
    requires
        t.walked(trace),
        forall|i: int|
            0 <= i < trace.len() && (#[trigger] trace[i]).path.len() > limit ==> !trace[i].kept,
    ensures
        forall|j: int| 0 <= j < trace.len() ==> (#[trigger] trace[j]).path.len() <= limit + 1,
{
    assert forall|j: int| 0 <= j < trace.len() implies (#[trigger] trace[j]).path.len() <= limit
        + 1 by {
        lemma_walk_parents(t, trace, j);
        if trace[j].path.len() > 1 {
            let i = choose|i: int|
                0 <= i < j && (#[trigger] trace[i]).kept && trace[i].path
                    == trace[j].path.drop_last();
            assert(trace[i].path.len() <= limit);
        }
    }
}

/// The visit shows the node `x` under `path`.
pub open spec fn shows(v: Visit, path: Seq<char>, x: Tree) -> bool {
    v.path == path && v.used == x.used && v.ends == x.ends
}

/// Whenever the walk showed a node on the way down to `target`, it was told to go on.
pub open spec fn kept_above(trace: Seq<Visit>, target: Seq<char>) -> bool {
    forall|i: int|
        0 <= i < trace.len() && (#[trigger] trace[i]).path.len() < target.len()
            && trace[i].path.is_prefix_of(target) ==> trace[i].kept
}

/// Among the walks of a node's first `n` children, the walk of child `m` is one part.
proof fn lemma_descends_part(t: Tree, path: Seq<char>, n: nat, trace: Seq<Visit>, m: int) -> (r: (
    int,
    int,
))
    requires
        t.descends(path, n, trace),
        0 <= m < n <= t.children.len(),
    ensures
        0 <= r.0 <= r.1 <= trace.len(),
        t.children[m].walks(path, trace.subrange(r.0, r.1)),
    decreases n,
{
    let k = choose|k: int|
        0 <= k <= trace.len() && t.descends(path, (n - 1) as nat, #[trigger] trace.take(k))
            && t.children[n - 1].walks(path, trace.skip(k));
    if m == n - 1 {
        assert(trace.skip(k) =~= trace.subrange(k, trace.len() as int));
        (k, trace.len() as int)
    } else {
        let (a, b) = lemma_descends_part(t, path, (n - 1) as nat, trace.take(k), m);
        assert(trace.take(k).subrange(a, b) =~= trace.subrange(a, b));
        (a, b)
    }
}

/// What was kept above `target` in a trace was kept above it in each part of the trace.
proof fn lemma_kept_above_part(trace: Seq<Visit>, from: int, to: int, target: Seq<char>)
    requires
        0 <= from <= to <= trace.len(),
        kept_above(trace, target),
    ensures
        kept_above(trace.subrange(from, to), target),
{
    let part = trace.subrange(from, to);
    assert forall|i: int|
        0 <= i < part.len() && (#[trigger] part[i]).path.len() < target.len()
            && part[i].path.is_prefix_of(target) implies part[i].kept by {
        assert(trace[from + i] == part[i]);
    }
}

/// A walk of a sorted subtree shows the node at `target`, if the subtree holds
/// it and the walk was told to go on at every node above it.
proof fn lemma_walks_reaches(x: Tree, prefix: Seq<char>, trace: Seq<Visit>, target: Seq<char>) -> (j:
    int)
    requires
        x.wf(),
        x.walks(prefix, trace),
        prefix.push(x.label).is_prefix_of(target),
        x.has(target.skip(prefix.len() + 1 as int)),
        kept_above(trace, target),
    ensures
        0 <= j < trace.len(),
        shows(trace[j], target, x.at(target.skip(prefix.len() + 1 as int))->0),
    decreases target.len() - prefix.len(),
{
    let path = prefix.push(x.label);
    let rel = target.skip(prefix.len() + 1 as int);
    if rel.len() == 0 {
        assert(target =~= path);
        0
    } else {
        assert(trace[0].path.len() < target.len());
        assert(trace[0].kept);
        let rest = trace.drop_first();
        assert(rest =~= trace.subrange(1, trace.len() as int));
        let c = rel[0];
        assert(x.has_child(c));
        let m = x.index_of(c);
        let kid = x.children[m];
        let (a, b) = lemma_descends_part(x, path, x.children.len(), rest, m);
        let sub = rest.subrange(a, b);
        assert(sub =~= trace.subrange(1 + a, 1 + b));
        lemma_kept_above_part(trace, 1 + a, 1 + b, target);
        assert(path.push(kid.label).is_prefix_of(target)) by {
            assert(c == target[path.len() as int]);
            assert(path =~= target.subrange(0, path.len() as int));
            assert(path.push(c) =~= target.subrange(0, path.len() + 1 as int));
        }
        assert(target.skip(path.len() + 1 as int) =~= rel.drop_first());
        let j = lemma_walks_reaches(kid, path, sub, target);
        assert(trace[1 + a + j] == sub[j]);
        1 + a + j
    }
}

/// A walk of a sorted trie shows every node that it was not told to leave out:
/// if the trie holds `target` and the walk was told to go on at every node on
/// the way down to it, then `target` is shown, with its own counters, and
/// shown once.
pub proof fn lemma_walk_reaches(t: Tree, trace: Seq<Visit>, target: Seq<char>) -> (j: int)
    requires
        t.wf(),
        t.walked(trace),
        target.len() > 0,
        t.has(target),
        kept_above(trace, target),
    ensures
        0 <= j < trace.len(),
        trace[j].path == target,
        trace[j].used == t.used_at(target),
        trace[j].ends == t.count_at(target),
        forall|i: int| 0 <= i < trace.len() && (#[trigger] trace[i]).path == target ==> i == j,
{
    lemma_walk_once(t, trace);
    let c = target[0];
    assert(t.has_child(c));
    let m = t.index_of(c);
    let none = Seq::<char>::empty();
    let (a, b) = lemma_descends_part(t, none, t.children.len(), trace, m);
    let sub = trace.subrange(a, b);
    lemma_kept_above_part(trace, a, b, target);
    assert(none.push(t.children[m].label) =~= target.subrange(0, 1));
    assert(target.skip(1) =~= target.drop_first());
    let j = lemma_walks_reaches(t.children[m], none, sub, target);
    assert(trace[a + j] == sub[j]);
    a + j
}

/// Where the predicate keeps every path of at most `limit` characters, the walk
/// of a sorted trie shows every node down to depth `limit + 1`, each of them
/// once: refusing the longer paths costs none of the shorter ones, whichever
/// branch they are on.
pub proof fn lemma_walk_breadth(t: Tree, trace: Seq<Visit>, limit: nat, target: Seq<char>) -> (j:
    int)
    requires
        t.wf(),
        t.walked(trace),
        forall|i: int|
            0 <= i < trace.len() && (#[trigger] trace[i]).path.len() <= limit ==> trace[i].kept,
        0 < target.len() <= limit + 1,
        t.has(target),
    ensures
        0 <= j < trace.len(),
        trace[j].path == target,
        trace[j].used == t.used_at(target),
        trace[j].ends == t.count_at(target),
        forall|i: int| 0 <= i < trace.len() && (#[trigger] trace[i]).path == target ==> i == j,
{
    lemma_walk_reaches(t, trace, target)
}

/// Walks of a node's children show nothing but what those children offer.
pub proof fn lemma_descends_offered(t: Tree, path: Seq<char>, n: nat, trace: Seq<Visit>)
    requires
        t.descends(path, n, trace),
    ensures
        forall|j: int|
            0 <= j < trace.len() ==> t.offers_below(
                path,
                (#[trigger] trace[j]).path,
                trace[j].used,
                trace[j].ends,
            ),
    decreases t, 0nat, n,
{
    if n == 0 || n > t.children.len() {
    } else {
        let k = choose|k: int|
            0 <= k <= trace.len() && t.descends(path, (n - 1) as nat, #[trigger] trace.take(k))
                && t.children[n - 1].walks(path, trace.skip(k));
        let head = trace.take(k);
        let tail = trace.skip(k);
        lemma_descends_offered(t, path, (n - 1) as nat, head);
        lemma_walks_offered(t.children[n - 1], path, tail);
        assert forall|j: int| 0 <= j < trace.len() implies t.offers_below(
            path,
            (#[trigger] trace[j]).path,
            trace[j].used,
            trace[j].ends,
        ) by {
            if j < k {
                assert(head[j] == trace[j]);
            } else {
                assert(tail[j - k] == trace[j]);
                assert(t.children[n - 1].offers(path, trace[j].path, trace[j].used, trace[j].ends));
            }
        }
    }
}

/// A walk of a node shows nothing but what the node offers.
pub proof fn lemma_walks_offered(t: Tree, prefix: Seq<char>, trace: Seq<Visit>)
    requires
        t.walks(prefix, trace),
    ensures
        forall|j: int|
            0 <= j < trace.len() ==> t.offers(
                prefix,
                (#[trigger] trace[j]).path,
                trace[j].used,
                trace[j].ends,
            ),
    decreases t, 1nat, 0nat,
{
    let here = prefix.push(t.label);
    if trace[0].kept {
        let rest = trace.drop_first();
        lemma_descends_offered(t, here, t.children.len(), rest);
        assert forall|j: int| 0 <= j < trace.len() implies t.offers(
            prefix,
            (#[trigger] trace[j]).path,
            trace[j].used,
            trace[j].ends,
        ) by {
            if j > 0 {
                assert(rest[j - 1] == trace[j]);
            }
        }
    }
}

/// A walk shows only nodes of the trie, each under the path that leads to it
/// and with its own counters.
pub proof fn lemma_walk_shown(t: Tree, trace: Seq<Visit>, j: int)
    requires
        t.walked(trace),
        0 <= j < trace.len(),
    ensures
        t.shown(trace[j].path, trace[j].used, trace[j].ends),
{
    lemma_descends_offered(t, Seq::empty(), t.children.len(), trace);
}

/// What a sorted subtree offers below `prefix` is a node of it: the path runs
/// through the subtree's root, and what is left of it leads to the node.
proof fn lemma_offers_at(x: Tree, prefix: Seq<char>, path: Seq<char>, used: u64, ends: u64)
    requires
        x.wf(),
        x.offers(prefix, path, used, ends),
    ensures
        prefix.push(x.label).is_prefix_of(path),
        x.at(path.skip(prefix.len() + 1 as int)) matches Some(y) && y.used == used && y.ends
            == ends,
    decreases x, 1nat,
{
    let here = prefix.push(x.label);
    if path == here && used == x.used && ends == x.ends {
        assert(path.skip(prefix.len() + 1 as int) =~= Seq::<char>::empty());
        assert(here =~= path.subrange(0, here.len() as int));
    } else {
        let i = choose|i: int|
            0 <= i < x.children.len() && (#[trigger] x.children[i]).offers(here, path, used, ends);
        let kid = x.children[i];
        lemma_offers_at(kid, here, path, used, ends);
        let longer = here.push(kid.label);
        assert(longer =~= path.subrange(0, longer.len() as int));
        assert(path[here.len() as int] == longer[here.len() as int]);
        assert(here =~= path.subrange(0, here.len() as int)) by {
            assert forall|a: int| 0 <= a < here.len() implies here[a] == path[a] by {
                assert(longer[a] == path.subrange(0, longer.len() as int)[a]);
            }
        }
        let rel = path.skip(prefix.len() + 1 as int);
        assert(rel[0] == kid.label);
        assert(rel.drop_first() =~= path.skip(here.len() + 1 as int));
        lemma_child_at_index(x, i);
    }
}

/// In a sorted trie, what a walk can show is what the trie holds: a node at a
/// path of one character at least, with the counters that stand at that path.
pub proof fn lemma_shown_at(t: Tree, path: Seq<char>, used: u64, ends: u64)
    requires
        t.wf(),
        t.shown(path, used, ends),
    ensures
        path.len() > 0,
        t.has(path),
        t.used_at(path) == used,
        t.count_at(path) == ends,
{
    let none = Seq::<char>::empty();
    let i = choose|i: int|
        0 <= i < t.children.len() && (#[trigger] t.children[i]).offers(none, path, used, ends);
    let kid = t.children[i];
    lemma_offers_at(kid, none, path, used, ends);
    let first = none.push(kid.label);
    assert(first =~= path.subrange(0, 1));
    assert(path[0] == first[0]);
    assert(path.skip(1) =~= path.drop_first());
    lemma_child_at_index(t, i);
}

/// Text that begins with `a` and then `c` begins with `a`, holds `c` right
/// behind it, and is longer than `a`.
proof fn lemma_prefix_push(a: Seq<char>, c: char, p: Seq<char>)
    requires
        a.push(c).is_prefix_of(p),
    ensures
        a.is_prefix_of(p),
        p.len() > a.len(),
        p[a.len() as int] == c,
{
    let longer = a.push(c);
    assert(longer[a.len() as int] == p.subrange(0, longer.len() as int)[a.len() as int]);
    assert forall|x: int| 0 <= x < a.len() implies a[x] == p[x] by {
        assert(longer[x] == p.subrange(0, longer.len() as int)[x]);
    }
    assert(a =~= p.subrange(0, a.len() as int));
}

/// `p` runs through one of the first `n` children of `t`, which lies at `path`.
pub open spec fn under_child(t: Tree, path: Seq<char>, n: nat, p: Seq<char>) -> bool {
    exists|m: int|
        0 <= m < n && m < t.children.len() && path.push((#[trigger] t.children[m]).label).is_prefix_of(
            p,
        )
}

/// No two visits of a trace show the same path.
pub open spec fn all_differ(trace: Seq<Visit>) -> bool {
    forall|i: int, j: int| 0 <= i < j < trace.len() ==> trace[i].path != trace[j].path
}

/// Walks of the children of a sorted node show no path twice, and each path
/// that they show runs through one of those children.
proof fn lemma_descends_once(t: Tree, path: Seq<char>, n: nat, trace: Seq<Visit>)
    requires
        t.wf(),
        t.descends(path, n, trace),
    ensures
        all_differ(trace),
        forall|j: int| 0 <= j < trace.len() ==> under_child(t, path, n, (#[trigger] trace[j]).path),
    decreases t, 0nat, n,
{
    if n == 0 || n > t.children.len() {
    } else {
        let k = choose|k: int|
            0 <= k <= trace.len() && t.descends(path, (n - 1) as nat, #[trigger] trace.take(k))
                && t.children[n - 1].walks(path, trace.skip(k));
        let head = trace.take(k);
        let tail = trace.skip(k);
        let last = t.children[n - 1];
        lemma_descends_once(t, path, (n - 1) as nat, head);
        lemma_walks_once(last, path, tail);
        assert forall|j: int| 0 <= j < trace.len() implies under_child(
            t,
            path,
            n,
            (#[trigger] trace[j]).path,
        ) by {
            if j < k {
                assert(head[j] == trace[j]);
                assert(under_child(t, path, (n - 1) as nat, head[j].path));
                let m = choose|m: int|
                    0 <= m < n - 1 && m < t.children.len() && path.push(
                        (#[trigger] t.children[m]).label,
                    ).is_prefix_of(head[j].path);
                assert(path.push(t.children[m].label).is_prefix_of(trace[j].path));
            } else {
                assert(tail[j - k] == trace[j]);
                assert(path.push(t.children[n - 1].label).is_prefix_of(trace[j].path));
            }
        }
        assert forall|i: int, j: int| 0 <= i < j < trace.len() implies trace[i].path
            != trace[j].path by {
            if j < k {
                assert(head[i] == trace[i] && head[j] == trace[j]);
            } else if i >= k {
                assert(tail[i - k] == trace[i] && tail[j - k] == trace[j]);
            } else {
                assert(head[i] == trace[i] && tail[j - k] == trace[j]);
                assert(under_child(t, path, (n - 1) as nat, head[i].path));
                let m = choose|m: int|
                    0 <= m < n - 1 && m < t.children.len() && path.push(
                        (#[trigger] t.children[m]).label,
                    ).is_prefix_of(head[i].path);
                lemma_prefix_push(path, t.children[m].label, trace[i].path);
                lemma_prefix_push(path, last.label, trace[j].path);
                assert(t.children[m].label < t.children[n - 1].label);
            }
        }
    }
}

/// A walk of a sorted subtree shows no path twice, and each path that it shows
/// runs through the root of the subtree.
proof fn lemma_walks_once(x: Tree, prefix: Seq<char>, trace: Seq<Visit>)
    requires
        x.wf(),
        x.walks(prefix, trace),
    ensures
        all_differ(trace),
        forall|j: int|
            0 <= j < trace.len() ==> prefix.push(x.label).is_prefix_of((#[trigger] trace[j]).path),
    decreases x, 1nat, 0nat,
{
    let here = prefix.push(x.label);
    assert(here =~= here.subrange(0, here.len() as int));
    if trace[0].kept {
        let rest = trace.drop_first();
        lemma_descends_once(x, here, x.children.len(), rest);
        assert forall|j: int| 1 <= j < trace.len() implies here.is_prefix_of(
            (#[trigger] trace[j]).path,
        ) && trace[j].path.len() > here.len() by {
            assert(rest[j - 1] == trace[j]);
            assert(under_child(x, here, x.children.len(), rest[j - 1].path));
            let m = choose|m: int|
                0 <= m < x.children.len() && m < x.children.len() && here.push(
                    (#[trigger] x.children[m]).label,
                ).is_prefix_of(rest[j - 1].path);
            lemma_prefix_push(here, x.children[m].label, trace[j].path);
        }
        assert forall|i: int, j: int| 0 <= i < j < trace.len() implies trace[i].path
            != trace[j].path by {
            if i > 0 {
                assert(rest[i - 1] == trace[i] && rest[j - 1] == trace[j]);
            }
        }
    }
}

/// A walk of a sorted trie shows no path twice: the predicate is asked once at
/// most about each node.
pub proof fn lemma_walk_once(t: Tree, trace: Seq<Visit>)
    requires
        t.wf(),
        t.walked(trace),
    ensures
        all_differ(trace),
{
    lemma_descends_once(t, Seq::empty(), t.children.len(), trace);
}

/// Nothing below a refused node is shown: where the predicate answered `false`
/// to a path, the walk of a sorted trie shows no longer path that begins with it.
pub proof fn lemma_walk_refused(t: Tree, trace: Seq<Visit>, i: int, j: int)
    requires
        t.wf(),
        t.walked(trace),
        0 <= i < trace.len(),
        0 <= j < trace.len(),
        !trace[i].kept,
    ensures
        !(trace[i].path.len() < trace[j].path.len() && trace[i].path.is_prefix_of(trace[j].path)),
    decreases trace[j].path.len(),
{
    let a = trace[i].path;
    let b = trace[j].path;
    if a.len() < b.len() && a.is_prefix_of(b) {
        lemma_walk_parents(t, trace, i);
        lemma_walk_parents(t, trace, j);
        let k = choose|k: int|
            0 <= k < j && (#[trigger] trace[k]).kept && trace[k].path == trace[j].path.drop_last();
        let up = trace[k].path;
        assert(a.is_prefix_of(up)) by {
            assert forall|x: int| 0 <= x < a.len() implies a[x] == up.subrange(0, a.len() as int)[x] by {
                assert(a[x] == b.subrange(0, a.len() as int)[x]);
            }
            assert(a =~= up.subrange(0, a.len() as int));
        }
        if a.len() == up.len() {
            assert(up.subrange(0, a.len() as int) =~= up);
            lemma_walk_once(t, trace);
            if i < k {
                assert(trace[i].path != trace[k].path);
            } else if k < i {
                assert(trace[k].path != trace[i].path);
            }
        } else {
            lemma_walk_refused(t, trace, i, k);
        }
    }
}

} // verus!
