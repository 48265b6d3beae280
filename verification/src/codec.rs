//! The text form of a trie: one record per node, parents before children.
//!
//! No bracket marks where a subtree ends. Each record says how many children
//! its node has, and that many subtrees follow it, each in the same form.

use crate::decimal::{digits, push_decimal};
use crate::model::Tree;
use crate::node::Node;
use crate::record::{parse_record, record_of, ReadError, Record, SEP};
use vstd::prelude::*;

verus! {

/// The lines, each closed by a line feed, in one text.
pub open spec fn unlines(lines: Seq<Seq<char>>) -> Seq<char>
    decreases lines.len(),
{
    if lines.len() == 0 {
        Seq::empty()
    } else {
        lines[0].push('\n') + unlines(lines.drop_first())
    }
}

/// The first position from `i` on that holds a line feed; the length of `s` if
/// there is none.
pub open spec fn line_end(s: Seq<char>, i: int) -> int
    decreases s.len() - i,
{
    if 0 <= i < s.len() && s[i] != '\n' {
        line_end(s, i + 1)
    } else {
        i
    }
}

/// The lines of a text: what stands before each line feed, without it. What
/// stands behind the last line feed is a line too, unless it is empty.
pub open spec fn split_lines(s: Seq<char>) -> Seq<Seq<char>>
    decreases s.len(),
{
    if s.len() == 0 {
        Seq::empty()
    } else {
        let e = line_end(s, 0);
        if 0 <= e < s.len() {
            seq![s.take(e)] + split_lines(s.skip(e + 1))
        } else {
            seq![s]
        }
    }
}

/// The line holds no line feed.
pub open spec fn unbroken(line: Seq<char>) -> bool {
    forall|i: int| 0 <= i < line.len() ==> line[i] != '\n'
}

impl Tree {
    /// The record of this node: label, `used`, end-of-word count and number of
    /// children, parted by separators.
    pub open spec fn record(self) -> Seq<char> {
        seq![self.label, SEP] + digits(self.used as nat) + seq![SEP] + digits(self.ends as nat)
            + seq![SEP] + digits(self.children.len())
    }

    /// The records of the tree in preorder: the node's own, then those of each
    /// of its subtrees in turn.
    pub open spec fn lines(self) -> Seq<Seq<char>>
        decreases self, 1nat, 0nat,
    {
        seq![self.record()] + self.lines_from(0)
    }

    /// The records of the subtrees from child `j` on.
    pub open spec fn lines_from(self, j: nat) -> Seq<Seq<char>>
        decreases self, 0nat, self.children.len() - j,
    {
        if j >= self.children.len() {
            Seq::empty()
        } else {
            self.children[j as int].lines() + self.lines_from(j + 1)
        }
    }

    /// The text form of the tree: its records, one to a line.
    pub open spec fn text(self) -> Seq<char> {
        unlines(self.lines())
    }
}

/// The tree whose records begin at line `pos`, and the line at which they end;
/// or the first failure met on the way.
pub open spec fn decode(lines: Seq<Seq<char>>, pos: nat) -> Result<(Tree, nat), ReadError>
    decreases lines.len() - pos, 0nat,
{
    if pos >= lines.len() {
        Err(ReadError::NoMoreLines)
    } else {
        match record_of(lines[pos as int]) {
            Err(e) => Err(e),
            Ok(r) => match decode_children(lines, pos + 1, r.kids as nat) {
                Err(e) => Err(e),
                Ok((kids, end)) => Ok(
                    (Tree { label: r.label, used: r.used, ends: r.ends, children: kids }, end),
                ),
            },
        }
    }
}

/// The `n` trees whose records follow one another from line `pos` on, and the
/// line at which they end; or the first failure met on the way. A tree ends
/// behind the line at which it begins and within the lines; the test on `next`
/// lets the definition rest on that.
pub open spec fn decode_children(lines: Seq<Seq<char>>, pos: nat, n: nat) -> Result<
    (Seq<Tree>, nat),
    ReadError,
>
    decreases lines.len() - pos, n + 1,
{
    if n == 0 {
        Ok((Seq::empty(), pos))
    } else {
        match decode(lines, pos) {
            Err(e) => Err(e),
            Ok((kid, next)) => if next <= pos || next > lines.len() {
                Err(ReadError::NoMoreLines)
            } else {
                match decode_children(lines, next, (n - 1) as nat) {
                    Err(e) => Err(e),
                    Ok((rest, end)) => Ok((seq![kid] + rest, end)),
                }
            },
        }
    }
}

/// The tree that the lines hold from the first line on. Lines behind its last
/// record are not looked at.
pub open spec fn decoded(lines: Seq<Seq<char>>) -> Result<Tree, ReadError> {
    match decode(lines, 0) {
        Ok((t, _)) => Ok(t),
        Err(e) => Err(e),
    }
}

/// What reading comes to when `kids` have been read and `rest` is what the
/// remaining lines give.
pub open spec fn after(kids: Seq<Tree>, rest: Result<(Seq<Tree>, nat), ReadError>) -> Result<
    (Seq<Tree>, nat),
    ReadError,
> {
    match rest {
        Ok((more, end)) => Ok((kids + more, end)),
        Err(e) => Err(e),
    }
}

/// The text of two runs of lines is the text of the first and then that of the second.
pub proof fn lemma_unlines_concat(a: Seq<Seq<char>>, b: Seq<Seq<char>>)
    ensures
        unlines(a + b) == unlines(a) + unlines(b),
    decreases a.len(),
{
    if a.len() == 0 {
        assert(a + b =~= b);
        assert(unlines(a) + unlines(b) =~= unlines(b));
    } else {
        assert((a + b).drop_first() =~= a.drop_first() + b);
        lemma_unlines_concat(a.drop_first(), b);
        assert(unlines(a + b) =~= unlines(a) + unlines(b));
    }
}

/// A tree that is read ends behind the line at which it begins, and within the lines.
pub proof fn lemma_decode_advances(lines: Seq<Seq<char>>, pos: nat)
    ensures
        decode(lines, pos) matches Ok(r) ==> pos < r.1 <= lines.len(),
    decreases lines.len() - pos, 0nat,
{
    if pos < lines.len() {
        match record_of(lines[pos as int]) {
            Ok(r) => {
                lemma_decode_children_advances(lines, pos + 1, r.kids as nat);
            },
            Err(_) => {},
        }
    }
}

/// Trees that are read one after the other end within the lines, one line at
/// least for each of them behind the line at which they begin.
pub proof fn lemma_decode_children_advances(lines: Seq<Seq<char>>, pos: nat, n: nat)
    requires
        pos <= lines.len(),
    ensures
        decode_children(lines, pos, n) matches Ok(r) ==> pos + n <= r.1 <= lines.len() && r.0.len()
            == n,
    decreases lines.len() - pos, n + 1,
{
    if n > 0 {
        lemma_decode_advances(lines, pos);
        match decode(lines, pos) {
            Ok((_, next)) => {
                if pos < next <= lines.len() {
                    lemma_decode_children_advances(lines, next, (n - 1) as nat);
                }
            },
            Err(_) => {},
        }
    }
}

/// Reading one more tree, after `kids`, comes to the same as reading it with the rest.
proof fn lemma_decode_children_step(lines: Seq<Seq<char>>, pos: nat, n: nat, kids: Seq<Tree>)
    requires
        n > 0,
        decode(lines, pos) is Ok,
    ensures
        after(kids, decode_children(lines, pos, n)) == after(
            kids.push(decode(lines, pos)->Ok_0.0),
            decode_children(lines, decode(lines, pos)->Ok_0.1, (n - 1) as nat),
        ),
{
    lemma_decode_advances(lines, pos);
    let (kid, next) = decode(lines, pos)->Ok_0;
    match decode_children(lines, next, (n - 1) as nat) {
        Ok((rest, end)) => {
            assert(kids + (seq![kid] + rest) =~= kids.push(kid) + rest);
        },
        Err(_) => {},
    }
}

impl Node {
    /// Appends the text form of the subtree to `out`: the node's record on a
    /// line of its own, then each child's subtree in turn. The depth of the
    /// calls is the height of the subtree.
    pub fn write(&self, out: &mut String)
        ensures
            final(out)@ == old(out)@ + self@.text(),
        decreases self,
    {
        proof {
            self.lemma_view();
        }
        let ghost goal = old(out)@ + self@.text();
        out.push(self.c);
        out.push(SEP);
        push_decimal(out, self.used);
        out.push(SEP);
        push_decimal(out, self.eowc);
        out.push(SEP);
        push_decimal(out, self.children.len() as u64);
        out.push('\n');
        proof {
            assert(out@ =~= old(out)@ + self@.record().push('\n'));
            let rest = self@.lines_from(0);
            assert((seq![self@.record()] + rest).drop_first() =~= rest);
            assert(goal =~= out@ + unlines(rest));
        }
        let mut i: usize = 0;
        while i < self.children.len()
            invariant
                0 <= i <= self.children@.len(),
                self@.children.len() == self.children@.len(),
                forall|j: int|
                    0 <= j < self.children@.len() ==> #[trigger] self@.children[j]
                        == self.children@[j]@,
                goal == out@ + unlines(self@.lines_from(i as nat)),
            decreases self.children@.len() - i,
        {
            self.children[i].write(out);
            proof {
                let kid = self@.children[i as int];
                let rest = self@.lines_from((i + 1) as nat);
                lemma_unlines_concat(kid.lines(), rest);
                assert(goal =~= out@ + unlines(rest));
            }
            i = i + 1;
        }
        proof {
            assert(goal =~= out@);
        }
    }

    /// Reads the subtree whose records begin at line `pos`: the node's own
    /// record, then as many subtrees as it announces. Gives the node and the
    /// line behind its last record. The depth of the calls is the height of the
    /// subtree that the lines describe, which the number of lines bounds.
    pub fn read(lines: &Vec<String>, pos: usize) -> (r: Result<(Node, usize), ReadError>)
        ensures
            match r {
                Ok((n, end)) => decode(lines.deep_view(), pos as nat) == Ok::<
                    (Tree, nat),
                    ReadError,
                >((n@, end as nat)) && pos < end <= lines@.len(),
                Err(e) => decode(lines.deep_view(), pos as nat) == Err::<(Tree, nat), ReadError>(e),
            },
        decreases lines@.len() - pos,
    {
        let ghost all = lines.deep_view();
        proof {
            assert(all.len() == lines@.len());
        }
        if pos >= lines.len() {
            return Err(ReadError::NoMoreLines);
        }
        proof {
            assert(all[pos as int] == lines@[pos as int]@);
        }
        let rec = match parse_record(lines[pos].as_str()) {
            Ok(rec) => rec,
            Err(e) => { return Err(e); },
        };
        let mut node = Node::new_with_stats(rec.label, rec.used, rec.ends);
        let ghost mut kids: Seq<Tree> = Seq::empty();
        let mut cur: usize = pos + 1;
        let mut i: u64 = 0;
        proof {
            node.lemma_view();
            assert(kids + Seq::<Tree>::empty() =~= kids);
            lemma_decode_children_advances(all, (pos + 1) as nat, rec.kids as nat);
        }
        while i < rec.kids
            invariant
                all == lines.deep_view(),
                all.len() == lines@.len(),
                pos < cur <= lines@.len(),
                0 <= i <= rec.kids,
                record_of(all[pos as int]) == Ok::<Record, ReadError>(rec),
                node.c == rec.label,
                node.used == rec.used,
                node.eowc == rec.ends,
                kids.len() == node.children@.len(),
                forall|j: int| 0 <= j < kids.len() ==> #[trigger] kids[j] == node.children@[j]@,
                decode_children(all, (pos + 1) as nat, rec.kids as nat) == after(
                    kids,
                    decode_children(all, cur as nat, (rec.kids - i) as nat),
                ),
            decreases rec.kids - i,
        {
            match Node::read(lines, cur) {
                Err(e) => {
                    return Err(e);
                },
                Ok((child, next)) => {
                    proof {
                        lemma_decode_children_step(all, cur as nat, (rec.kids - i) as nat, kids);
                        kids = kids.push(child@);
                    }
                    node.children.push(child);
                    cur = next;
                },
            }
            i = i + 1;
        }
        proof {
            node.lemma_view();
            assert(kids + Seq::<Tree>::empty() =~= kids);
            assert(node@.children =~= kids);
        }
        Ok((node, cur))
    }
}

} // verus!
