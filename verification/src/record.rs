//! One line of the text form: the record of a single node.
//!
//! A record holds four fields, parted by the unit separator: the node's label,
//! its two counters, and the number of its children.

use crate::decimal::{number, parse_number};
use crate::text::chars_of;
use vstd::prelude::*;

verus! {

/// The character that parts the fields of a record.
pub const SEP: char = '\u{1f}';

/// What one line says of a node.
#[derive(Clone, Copy, Debug, PartialEq, Eq, Structural)]
pub struct Record {
    pub label: char,
    pub used: u64,
    pub ends: u64,
    pub kids: u64,
}

/// Why a run of lines is not the text form of a trie.
#[derive(Clone, Copy, Debug, PartialEq, Eq, Structural)]
pub enum ReadError {
    /// The lines ended where the record of a node was due.
    NoMoreLines,
    /// The label field does not hold exactly one character.
    LabelLength,
    /// The line ends after the label.
    MissingUsed,
    /// The field of the `used` counter is no number.
    BadUsed,
    /// The line ends after the `used` counter.
    MissingEnds,
    /// The field of the end-of-word counter is no number.
    BadEnds,
    /// The line ends after the end-of-word counter.
    MissingChildCount,
    /// The field of the child count is no number.
    BadChildCount,
}

impl ReadError {
    /// The failure in words.
    pub open spec fn description(self) -> Seq<char> {
        match self {
            ReadError::NoMoreLines => "No more lines while building node!"@,
            ReadError::LabelLength => "Parsed node character is wrong length!"@,
            ReadError::MissingUsed => "Failed to get used from line split"@,
            ReadError::BadUsed => "Could not parse used value to u64!"@,
            ReadError::MissingEnds => "Failed to get eowc from line split"@,
            ReadError::BadEnds => "Could not parse eowc value to u64!"@,
            ReadError::MissingChildCount => "Failed to get child count from line split"@,
            ReadError::BadChildCount => "Could not parse child count value to u64!"@,
        }
    }

    /// The failure in words, naming the field or the step that failed.
    pub fn message(&self) -> (r: &'static str)
        ensures
            r@ == self.description(),
    {
        match self {
            ReadError::NoMoreLines => "No more lines while building node!",
            ReadError::LabelLength => "Parsed node character is wrong length!",
            ReadError::MissingUsed => "Failed to get used from line split",
            ReadError::BadUsed => "Could not parse used value to u64!",
            ReadError::MissingEnds => "Failed to get eowc from line split",
            ReadError::BadEnds => "Could not parse eowc value to u64!",
            ReadError::MissingChildCount => "Failed to get child count from line split",
            ReadError::BadChildCount => "Could not parse child count value to u64!",
        }
    }
}

/// `c` is white space in the sense of Unicode.
pub open spec fn is_space(c: char) -> bool {
    ||| '\u{9}' <= c <= '\u{d}'
    ||| c == ' '
    ||| c == '\u{85}'
    ||| c == '\u{a0}'
    ||| c == '\u{1680}'
    ||| '\u{2000}' <= c <= '\u{200a}'
    ||| c == '\u{2028}'
    ||| c == '\u{2029}'
    ||| c == '\u{202f}'
    ||| c == '\u{205f}'
    ||| c == '\u{3000}'
}

/// Where `s` ends once the white space at its end, up to position `j`, is taken off.
pub open spec fn trail(s: Seq<char>, j: int) -> int
    decreases j,
{
    if 0 < j <= s.len() && is_space(s[j - 1]) {
        trail(s, j - 1)
    } else {
        j
    }
}

/// `s` without the white space at its end. What stands at its beginning is
/// left as it is, white space or not: there the label stands.
pub open spec fn trimmed(s: Seq<char>) -> Seq<char> {
    s.take(trail(s, s.len() as int))
}

/// The first position from `i` on that holds a separator; the length of `s` if
/// there is none.
pub open spec fn stop(s: Seq<char>, i: int) -> int
    decreases s.len() - i,
{
    if 0 <= i < s.len() && s[i] != SEP {
        stop(s, i + 1)
    } else {
        i
    }
}

/// Where field `k` of `s` begins, if `s` has that many fields. Field zero
/// begins at the start; each further one begins behind a separator.
pub open spec fn field_start(s: Seq<char>, k: nat) -> Option<int>
    decreases k,
{
    if k == 0 {
        Some(0)
    } else {
        match field_start(s, (k - 1) as nat) {
            Some(b) => if stop(s, b) < s.len() {
                Some(stop(s, b) + 1)
            } else {
                None
            },
            None => None,
        }
    }
}

/// Field `k` of `s`: what stands between its beginning and the next separator.
pub open spec fn field(s: Seq<char>, k: nat) -> Option<Seq<char>> {
    match field_start(s, k) {
        Some(b) => Some(s.subrange(b, stop(s, b))),
        None => None,
    }
}

/// What the line says, or why it is no record. White space at the end of the
/// line is passed over, and nothing else is: the label is taken as it stands,
/// whatever character it is. Of the fields the first four count, in the order label, `used`, end-of-word
/// count, child count; the first of them that is missing or ill-formed decides
/// the failure.
pub open spec fn record_of(line: Seq<char>) -> Result<Record, ReadError> {
    let t = trimmed(line);
    let label = s_or_empty(field(t, 0));
    if label.len() != 1 {
        Err(ReadError::LabelLength)
    } else {
        match field(t, 1) {
            None => Err(ReadError::MissingUsed),
            Some(u) => match number(u) {
                None => Err(ReadError::BadUsed),
                Some(used) => match field(t, 2) {
                    None => Err(ReadError::MissingEnds),
                    Some(e) => match number(e) {
                        None => Err(ReadError::BadEnds),
                        Some(ends) => match field(t, 3) {
                            None => Err(ReadError::MissingChildCount),
                            Some(k) => match number(k) {
                                None => Err(ReadError::BadChildCount),
                                Some(kids) => Ok(Record { label: label[0], used, ends, kids }),
                            },
                        },
                    },
                },
            },
        }
    }
}

/// The field, or the empty text where there is none.
pub open spec fn s_or_empty(f: Option<Seq<char>>) -> Seq<char> {
    match f {
        Some(s) => s,
        None => Seq::empty(),
    }
}

/// Tells white space from the rest.
pub fn is_whitespace(c: char) -> (r: bool)
    ensures
        r == is_space(c),
{
    ('\u{9}' <= c && c <= '\u{d}') || c == ' ' || c == '\u{85}' || c == '\u{a0}' || c == '\u{1680}'
        || ('\u{2000}' <= c && c <= '\u{200a}') || c == '\u{2028}' || c == '\u{2029}' || c
        == '\u{202f}' || c == '\u{205f}' || c == '\u{3000}'
}

/// The characters of `s` without the white space at its end.
pub fn trim_end(s: &Vec<char>) -> (t: Vec<char>)
    ensures
        t@ == trimmed(s@),
{
    let mut hi: usize = s.len();
    while 0 < hi && is_whitespace(s[hi - 1])
        invariant
            0 <= hi <= s@.len(),
            trail(s@, s@.len() as int) == trail(s@, hi as int),
        decreases hi,
    {
        hi = hi - 1;
    }
    let mut t: Vec<char> = Vec::new();
    let mut i: usize = 0;
    while i < hi
        invariant
            0 <= i <= hi <= s@.len(),
            t@ == s@.take(i as int),
        decreases hi - i,
    {
        t.push(s[i]);
        proof {
            assert(t@ =~= s@.take(i + 1));
        }
        i = i + 1;
    }
    t
}

/// The field of `t` that begins at `from`, and where it stops.
pub fn take_field(t: &Vec<char>, from: usize) -> (r: (Vec<char>, usize))
    requires
        from <= t@.len(),
    ensures
        r.1 == stop(t@, from as int),
        from <= r.1 <= t@.len(),
        r.0@ == t@.subrange(from as int, r.1 as int),
{
    let mut f: Vec<char> = Vec::new();
    let mut i: usize = from;
    while i < t.len() && t[i] != SEP
        invariant
            from <= i <= t@.len(),
            stop(t@, from as int) == stop(t@, i as int),
            f@ == t@.subrange(from as int, i as int),
        decreases t@.len() - i,
    {
        f.push(t[i]);
        proof {
            assert(f@ =~= t@.subrange(from as int, i + 1));
        }
        i = i + 1;
    }
    (f, i)
}

/// Reads one line as the record of a node.
pub fn parse_record(line: &str) -> (r: Result<Record, ReadError>)
    ensures
        r == record_of(line@),
{
    let chars = chars_of(line);
    let t = trim_end(&chars);
    proof {
        reveal_with_fuel(field_start, 4);
    }
    let (label, e0) = take_field(&t, 0);
    if label.len() != 1 {
        return Err(ReadError::LabelLength);
    }
    if e0 == t.len() {
        return Err(ReadError::MissingUsed);
    }
    let (u, e1) = take_field(&t, e0 + 1);
    let used: u64 = match parse_number(&u) {
        Some(v) => v,
        None => { return Err(ReadError::BadUsed); },
    };
    if e1 == t.len() {
        return Err(ReadError::MissingEnds);
    }
    let (e, e2) = take_field(&t, e1 + 1);
    let ends: u64 = match parse_number(&e) {
        Some(v) => v,
        None => { return Err(ReadError::BadEnds); },
    };
    if e2 == t.len() {
        return Err(ReadError::MissingChildCount);
    }
    let (k, _e3) = take_field(&t, e2 + 1);
    let kids: u64 = match parse_number(&k) {
        Some(v) => v,
        None => { return Err(ReadError::BadChildCount); },
    };
    Ok(Record { label: label[0], used, ends, kids })
}

} // verus!
