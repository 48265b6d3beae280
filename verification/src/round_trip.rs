//! Reading gives back what writing wrote.

use crate::codec::{decode, decode_children, decoded, line_end, split_lines, unbroken, unlines};
use crate::decimal::{digits, is_digit, lemma_digits_value, lemma_number_of_digits};
use crate::model::Tree;
use crate::record::{field_start, is_space, record_of, stop, trail, trimmed, ReadError, Record, SEP};
use vstd::prelude::*;

verus! {

impl Tree {
    /// The tree can be told from its records: no label is the separator, which
    /// would part its record in the wrong place, and no node has more children
    /// than a record can announce.
    pub open spec fn plain(self) -> bool {
        self.avoids(SEP) && self.fits()
    }

    /// No label in the tree is a line feed: each record stays on one line.
    pub open spec fn unbroken(self) -> bool {
        self.avoids('\n')
    }
}

/// Text that does not end with white space is left as it is by trimming.
pub proof fn lemma_trimmed_same(s: Seq<char>)
    requires
        s.len() > 0,
        !is_space(s.last()),
    ensures
        trimmed(s) == s,
{
    assert(trail(s, s.len() as int) == s.len());
    assert(s.take(s.len() as int) =~= s);
}

/// A field that begins at `i` stops at the first separator behind it, or at the end.
pub proof fn lemma_stop_at(s: Seq<char>, i: int, j: int)
    requires
        0 <= i <= j <= s.len(),
        forall|x: int| i <= x < j ==> s[x] != SEP,
        j == s.len() || s[j] == SEP,
    ensures
        stop(s, i) == j,
    decreases j - i,
{
    if i < j {
        lemma_stop_at(s, i + 1, j);
    }
}

/// The record of a node reads as that node's label, its counters and the
/// number of its children, whatever the label is but the separator: white
/// space, a line feed and the zero character among them.
pub proof fn lemma_record_reads(t: Tree)
    requires
        t.label != SEP,
        t.children.len() <= u64::MAX,
    ensures
        record_of(t.record()) == Ok::<Record, ReadError>(
            Record {
                label: t.label,
                used: t.used,
                ends: t.ends,
                kids: t.children.len() as u64,
            },
        ),
{
    let u = digits(t.used as nat);
    let e = digits(t.ends as nat);
    let k = digits(t.children.len());
    let r = t.record();
    lemma_digits_value(t.used as nat);
    lemma_digits_value(t.ends as nat);
    lemma_digits_value(t.children.len());
    lemma_number_of_digits(t.used);
    lemma_number_of_digits(t.ends);
    lemma_number_of_digits(t.children.len() as u64);
    let b: int = 2 + u.len() as int;
    let c: int = b + 1 + e.len();
    let d: int = c + 1 + k.len();
    assert(r.len() == d);
    assert(r[0] == t.label);
    assert(r[1] == SEP);
    assert forall|x: int| 2 <= x < b implies r[x] == u[x - 2] && r[x] != SEP by {
        assert(is_digit(u[x - 2]));
    }
    assert(r[b] == SEP);
    assert forall|x: int| b + 1 <= x < c implies r[x] == e[x - b - 1] && r[x] != SEP by {
        assert(is_digit(e[x - b - 1]));
    }
    assert(r[c] == SEP);
    assert forall|x: int| c + 1 <= x < d implies r[x] == k[x - c - 1] && r[x] != SEP by {
        assert(is_digit(k[x - c - 1]));
    }
    assert(r.last() == k[k.len() - 1]);
    assert(is_digit(k[k.len() - 1]));
    lemma_trimmed_same(r);
    lemma_stop_at(r, 0, 1);
    lemma_stop_at(r, 2, b);
    lemma_stop_at(r, b + 1, c);
    lemma_stop_at(r, c + 1, d);
    reveal_with_fuel(field_start, 4);
    assert(r.subrange(0, 1) =~= seq![t.label]);
    assert(r.subrange(2, b) =~= u);
    assert(r.subrange(b + 1, c) =~= e);
    assert(r.subrange(c + 1, d) =~= k);
}

/// Where the lines from `pos` on are the records of a plain tree, reading at
/// `pos` gives that tree and ends behind its last record.
pub proof fn lemma_decode_lines(t: Tree, lines: Seq<Seq<char>>, pos: nat)
    requires
        t.plain(),
        pos + t.lines().len() <= lines.len(),
        lines.subrange(pos as int, (pos + t.lines().len()) as int) == t.lines(),
    ensures
        decode(lines, pos) == Ok::<(Tree, nat), ReadError>((t, pos + t.lines().len())),
    decreases t, 1nat, 0nat,
{
    let own = t.lines();
    let below = t.lines_from(0);
    assert(own[0] == t.record());
    assert(lines[pos as int] == lines.subrange(pos as int, (pos + own.len()) as int)[0]);
    lemma_record_reads(t);
    assert forall|x: int| 0 <= x < below.len() implies lines.subrange(
        (pos + 1) as int,
        (pos + 1 + below.len()) as int,
    )[x] == below[x] by {
        assert(lines.subrange(pos as int, (pos + own.len()) as int)[x + 1] == own[x + 1]);
    }
    assert(lines.subrange((pos + 1) as int, (pos + 1 + below.len()) as int) =~= below);
    lemma_decode_lines_from(t, 0, lines, pos + 1);
    assert(t.children.skip(0) =~= t.children);
}

/// Where the lines from `pos` on are the records of the subtrees of a plain
/// tree from child `j` on, reading that many trees at `pos` gives those subtrees.
pub proof fn lemma_decode_lines_from(t: Tree, j: nat, lines: Seq<Seq<char>>, pos: nat)
    requires
        t.plain(),
        j <= t.children.len(),
        pos + t.lines_from(j).len() <= lines.len(),
        lines.subrange(pos as int, (pos + t.lines_from(j).len()) as int) == t.lines_from(j),
    ensures
        decode_children(lines, pos, (t.children.len() - j) as nat) == Ok::<
            (Seq<Tree>, nat),
            ReadError,
        >((t.children.skip(j as int), pos + t.lines_from(j).len())),
    decreases t, 0nat, t.children.len() - j,
{
    if j == t.children.len() {
        assert(t.children.skip(j as int) =~= Seq::<Tree>::empty());
    } else {
        let kid = t.children[j as int];
        let first = kid.lines();
        let more = t.lines_from(j + 1);
        let all = t.lines_from(j);
        assert(all == first + more);
        assert(first.len() >= 1);
        assert forall|x: int| 0 <= x < first.len() implies lines.subrange(
            pos as int,
            (pos + first.len()) as int,
        )[x] == first[x] by {
            assert(lines.subrange(pos as int, (pos + all.len()) as int)[x] == all[x]);
        }
        assert(lines.subrange(pos as int, (pos + first.len()) as int) =~= first);
        lemma_decode_lines(kid, lines, pos);
        let next = pos + first.len();
        assert forall|x: int| 0 <= x < more.len() implies lines.subrange(
            next as int,
            (next + more.len()) as int,
        )[x] == more[x] by {
            assert(lines.subrange(pos as int, (pos + all.len()) as int)[x + first.len()] == all[x
                + first.len()]);
        }
        assert(lines.subrange(next as int, (next + more.len()) as int) =~= more);
        lemma_decode_lines_from(t, j + 1, lines, next);
        assert(seq![kid] + t.children.skip(j + 1 as int) =~= t.children.skip(j as int));
    }
}

/// Reading the records of a plain tree gives the tree back: the same labels,
/// the same counters, the same children in the same order.
pub proof fn lemma_round_trip(t: Tree)
    requires
        t.plain(),
    ensures
        decoded(t.lines()) == Ok::<Tree, ReadError>(t),
{
    let lines = t.lines();
    assert(lines.subrange(0, lines.len() as int) =~= lines);
    lemma_decode_lines(t, lines, 0);
}

/// A line that begins at `i` ends at the first line feed behind it, or at the end.
pub proof fn lemma_line_end_at(s: Seq<char>, i: int, j: int)
    requires
        0 <= i <= j <= s.len(),
        forall|x: int| i <= x < j ==> s[x] != '\n',
        j == s.len() || s[j] == '\n',
    ensures
        line_end(s, i) == j,
    decreases j - i,
{
    if i < j {
        lemma_line_end_at(s, i + 1, j);
    }
}

/// Lines without line feeds, each closed by one and put into one text, are
/// what the text splits into.
pub proof fn lemma_split_unlines(lines: Seq<Seq<char>>)
    requires
        forall|i: int| 0 <= i < lines.len() ==> unbroken(#[trigger] lines[i]),
    ensures
        split_lines(unlines(lines)) == lines,
    decreases lines.len(),
{
    if lines.len() > 0 {
        let first = lines[0];
        let rest = lines.drop_first();
        let text = unlines(lines);
        let e = first.len() as int;
        assert(unbroken(first));
        assert(text == first.push('\n') + unlines(rest));
        assert forall|x: int| 0 <= x < e implies text[x] != '\n' by {
            assert(text[x] == first[x]);
        }
        assert(text[e] == '\n');
        lemma_line_end_at(text, 0, e);
        assert(text.take(e) =~= first);
        assert(text.skip(e + 1) =~= unlines(rest));
        assert forall|i: int| 0 <= i < rest.len() implies unbroken(#[trigger] rest[i]) by {
            assert(rest[i] == lines[i + 1]);
        }
        lemma_split_unlines(rest);
        assert(seq![first] + rest =~= lines);
    }
}

/// The record of a node whose label is no line feed holds no line feed.
pub proof fn lemma_record_unbroken(t: Tree)
    requires
        t.label != '\n',
    ensures
        unbroken(t.record()),
{
    let u = digits(t.used as nat);
    let e = digits(t.ends as nat);
    let k = digits(t.children.len());
    let r = t.record();
    lemma_digits_value(t.used as nat);
    lemma_digits_value(t.ends as nat);
    lemma_digits_value(t.children.len());
    let b: int = 2 + u.len() as int;
    let c: int = b + 1 + e.len();
    let d: int = c + 1 + k.len();
    assert forall|x: int| 0 <= x < r.len() implies r[x] != '\n' by {
        if 2 <= x < b {
            assert(r[x] == u[x - 2]);
            assert(is_digit(u[x - 2]));
        } else if b + 1 <= x < c {
            assert(r[x] == e[x - b - 1]);
            assert(is_digit(e[x - b - 1]));
        } else if c + 1 <= x < d {
            assert(r[x] == k[x - c - 1]);
            assert(is_digit(k[x - c - 1]));
        } else if x == 0 {
            assert(r[x] == t.label);
        } else {
            assert(r[x] == SEP);
        }
    }
}

/// In a tree without line-feed labels no record holds a line feed.
pub proof fn lemma_lines_unbroken(t: Tree)
    requires
        t.unbroken(),
    ensures
        forall|i: int| 0 <= i < t.lines().len() ==> unbroken(#[trigger] t.lines()[i]),
    decreases t, 1nat, 0nat,
{
    lemma_record_unbroken(t);
    lemma_lines_from_unbroken(t, 0);
    let below = t.lines_from(0);
    assert forall|i: int| 0 <= i < t.lines().len() implies unbroken(#[trigger] t.lines()[i]) by {
        if i > 0 {
            assert(t.lines()[i] == below[i - 1]);
        }
    }
}

/// In a tree without line-feed labels no record below the root holds a line feed.
pub proof fn lemma_lines_from_unbroken(t: Tree, j: nat)
    requires
        t.unbroken(),
    ensures
        forall|i: int| 0 <= i < t.lines_from(j).len() ==> unbroken(#[trigger] t.lines_from(j)[i]),
    decreases t, 0nat, t.children.len() - j,
{
    if j < t.children.len() {
        let first = t.children[j as int].lines();
        let more = t.lines_from(j + 1);
        lemma_lines_unbroken(t.children[j as int]);
        lemma_lines_from_unbroken(t, j + 1);
        assert forall|i: int| 0 <= i < t.lines_from(j).len() implies unbroken(
            #[trigger] t.lines_from(j)[i],
        ) by {
            if i < first.len() {
                assert(t.lines_from(j)[i] == first[i]);
            } else {
                assert(t.lines_from(j)[i] == more[i - first.len()]);
            }
        }
    }
}

/// The text form of a tree without line-feed labels splits at its line feeds
/// into the records of the tree, one to a line.
pub proof fn lemma_text_splits(t: Tree)
    requires
        t.unbroken(),
    ensures
        split_lines(t.text()) == t.lines(),
{
    lemma_lines_unbroken(t);
    lemma_split_unlines(t.lines());
}

/// What is written reads back: the text form of a tree, split at its line
/// feeds and read, gives the tree as it was, with the same labels, counters and
/// children in the same order. This holds whatever the labels are, white space
/// among them, but for the two characters that the text form itself is made
/// with: the separator and the line feed.
pub proof fn lemma_text_round_trip(t: Tree)
    requires
        t.plain(),
        t.unbroken(),
    ensures
        decoded(split_lines(t.text())) == Ok::<Tree, ReadError>(t),
{
    lemma_text_splits(t);
    lemma_round_trip(t);
}

} // verus!
