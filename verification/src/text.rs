//! Line and position arithmetic over a character-based text snapshot.
//!
//! A text is a sequence of characters; lines are separated by `'\n'`.  A
//! position is an absolute character offset, always in `[0, len]`.

use vstd::prelude::*;

verus! {

/// Number of newline characters strictly before position `upto`.
pub open spec fn count_newlines(s: Seq<char>, upto: int) -> nat
    decreases upto,
{
    if upto <= 0 {
        0
    } else {
        count_newlines(s, upto - 1) + (if s[upto - 1] == '\n' {
            1nat
        } else {
            0nat
        })
    }
}

/// The line index a position sits on: how many newlines come before it.
pub open spec fn line_of(s: Seq<char>, pos: int) -> nat {
    count_newlines(s, pos)
}

/// Number of lines of the text: one more than its number of newlines.
pub open spec fn num_lines(s: Seq<char>) -> nat {
    count_newlines(s, s.len() as int) + 1
}

/// First position of the line reached after skipping `line` more line
/// breaks, scanning from position `p`; the text end if no such line exists.
pub open spec fn line_start_from(s: Seq<char>, line: nat, p: nat) -> nat
    decreases s.len() - p,
{
    if p >= s.len() {
        s.len()
    } else if line == 0 {
        p
    } else if s[p as int] == '\n' {
        line_start_from(s, (line - 1) as nat, p + 1)
    } else {
        line_start_from(s, line, p + 1)
    }
}

/// First position of line `line`; the text end for lines past the last.
pub open spec fn line_start(s: Seq<char>, line: nat) -> nat {
    line_start_from(s, line, 0)
}

/// There can be no more newlines than characters.
pub proof fn lemma_count_newlines_le(s: Seq<char>, upto: int)
    requires
        0 <= upto,
    ensures
        count_newlines(s, upto) <= upto,
    decreases upto,
{
    if upto > 0 {
        lemma_count_newlines_le(s, upto - 1);
    }
}

/// A line start never lies past the text end.
pub proof fn lemma_line_start_le(s: Seq<char>, line: nat, p: nat)
    requires
        p <= s.len(),
    ensures
        p <= line_start_from(s, line, p) <= s.len(),
    decreases s.len() - p,
{
    if p < s.len() && line > 0 {
        if s[p as int] == '\n' {
            lemma_line_start_le(s, (line - 1) as nat, p + 1);
        } else {
            lemma_line_start_le(s, line, p + 1);
        }
    }
}

/// Newline counts only grow with the prefix.
pub proof fn lemma_count_mono(s: Seq<char>, a: int, b: int)
    requires
        0 <= a <= b,
    ensures
        count_newlines(s, a) <= count_newlines(s, b),
    decreases b - a,
{
    if a < b {
        lemma_count_mono(s, a, b - 1);
    }
}

proof fn lemma_line_start_from_le(s: Seq<char>, p: nat, pos: nat)
    requires
        p <= pos <= s.len(),
    ensures
        line_start_from(
            s,
            (count_newlines(s, pos as int) - count_newlines(s, p as int)) as nat,
            p,
        ) <= pos,
    decreases pos - p,
{
    lemma_count_mono(s, p as int, pos as int);
    let cnt = (count_newlines(s, pos as int) - count_newlines(s, p as int)) as nat;
    if p == pos {
    } else {
        assert(count_newlines(s, p as int + 1) == count_newlines(s, p as int) + (if s[p as int]
            == '\n' {
            1nat
        } else {
            0nat
        }));
        lemma_count_mono(s, p as int + 1, pos as int);
        if cnt == 0 {
        } else {
            lemma_line_start_from_le(s, p + 1, pos);
        }
    }
}

/// The start of the line a position is on never lies past that position.
pub proof fn lemma_line_start_of_le(s: Seq<char>, pos: nat)
    requires
        pos <= s.len(),
    ensures
        line_start(s, line_of(s, pos as int)) <= pos,
{
    lemma_line_start_from_le(s, 0, pos);
}

proof fn lemma_line_start_from_mono(s: Seq<char>, a: nat, b: nat, p: nat)
    requires
        a <= b,
        p <= s.len(),
    ensures
        line_start_from(s, a, p) <= line_start_from(s, b, p),
    decreases s.len() - p,
{
    if p < s.len() {
        if a == 0 {
            lemma_line_start_le(s, b, p);
        } else if s[p as int] == '\n' {
            lemma_line_start_from_mono(s, (a - 1) as nat, (b - 1) as nat, p + 1);
        } else {
            lemma_line_start_from_mono(s, a, b, p + 1);
        }
    }
}

/// Later lines never start earlier.
pub proof fn lemma_line_start_mono(s: Seq<char>, a: nat, b: nat)
    requires
        a <= b,
    ensures
        line_start(s, a) <= line_start(s, b),
{
    lemma_line_start_from_mono(s, a, b, 0);
}

/// The line a position is on: the number of newlines before it.
pub fn char_to_line(text: &Vec<char>, pos: usize) -> (r: usize)
    requires
        pos <= text@.len(),
    ensures
        r == line_of(text@, pos as int),
{
    let mut count: usize = 0;
    let mut i: usize = 0;
    while i < pos
        invariant
            i <= pos <= text@.len(),
            count == count_newlines(text@, i as int),
            count <= i,
        decreases pos - i,
    {
        if text[i] == '\n' {
            count = count + 1;
        }
        i = i + 1;
    }
    count
}

/// Total number of lines of the text.
pub fn len_lines(text: &Vec<char>) -> (r: usize)
    requires
        text@.len() < usize::MAX,
    ensures
        r == num_lines(text@),
{
    let count = char_to_line(text, text.len());
    proof {
        lemma_count_newlines_le(text@, text@.len() as int);
    }
    count + 1
}

/// First position of line `line`, clamped to the text end for lines past
/// the last.
pub fn line_to_char(text: &Vec<char>, line: usize) -> (r: usize)
    ensures
        r == line_start(text@, line as nat),
        r <= text@.len(),
{
    let mut p: usize = 0;
    let mut rem: usize = line;
    loop
        invariant
            p <= text@.len(),
            line_start(text@, line as nat) == line_start_from(text@, rem as nat, p as nat),
        decreases text@.len() - p, rem,
    {
        if p >= text.len() {
            return text.len();
        }
        if rem == 0 {
            return p;
        }
        if text[p] == '\n' {
            rem = rem - 1;
        }
        p = p + 1;
    }
}

} // verus!
