//! The movement engine: pure functions from a text, a position, a
//! direction, a granularity and a count to a new position.
//!
//! Character motion steps over grapheme clusters and never lands inside
//! one.  Line motion keeps the column, best effort, and clamps to the
//! first and last line.  Word motion scans over runs of one character
//! class (word characters, punctuation, whitespace).

use vstd::prelude::*;

use crate::graphemes::{nth_next_boundary, nth_prev_boundary};
use crate::graphemes::{nth_next_grapheme_boundary, nth_prev_grapheme_boundary};
use crate::text::{char_to_line, len_lines, line_of, line_start, line_to_char, num_lines};

verus! {

/// Which way a movement goes.
#[derive(Clone, Copy, Debug, PartialEq, Eq, Structural)]
pub enum Direction {
    Forward,
    Backward,
}

/// The unit a movement steps over.
#[derive(Clone, Copy, Debug, PartialEq, Eq, Structural)]
pub enum Granularity {
    Character,
    Line,
    Word,
}

/// The three character classes word motion distinguishes.
#[derive(Clone, Copy, Debug, PartialEq, Eq, Structural)]
pub enum CharClass {
    Word,
    Space,
    Punct,
}

/// Whether `c` is alphanumeric under Unicode rules; the classification
/// depends on the character alone.
pub uninterp spec fn is_alphanumeric_of(c: char) -> bool;

/// Whether `c` is whitespace under Unicode rules; the classification
/// depends on the character alone.
pub uninterp spec fn is_whitespace_of(c: char) -> bool;

/// Relies on `char::is_alphanumeric`: a fixed classification from the
/// Unicode tables, a function of the character alone.
#[verifier::external_body]
fn char_is_alphanumeric(c: char) -> (r: bool)
    ensures
        r == is_alphanumeric_of(c),
{
    c.is_alphanumeric()
}

/// Relies on `char::is_whitespace`: a fixed classification from the
/// Unicode tables, a function of the character alone.
#[verifier::external_body]
fn char_is_whitespace(c: char) -> (r: bool)
    ensures
        r == is_whitespace_of(c),
{
    c.is_whitespace()
}

/// Word characters are Unicode alphanumerics and the underscore;
/// whitespace is Unicode whitespace; everything else is punctuation.
pub open spec fn class_of(c: char) -> CharClass {
    if is_alphanumeric_of(c) || c == '_' {
        CharClass::Word
    } else if is_whitespace_of(c) {
        CharClass::Space
    } else {
        CharClass::Punct
    }
}

/// The character class of `c`.
pub fn char_class(c: char) -> (r: CharClass)
    ensures
        r == class_of(c),
{
    if char_is_alphanumeric(c) || c == '_' {
        CharClass::Word
    } else if char_is_whitespace(c) {
        CharClass::Space
    } else {
        CharClass::Punct
    }
}

/// First position at or after `p` whose character is not of class `cl`,
/// clamped to the text end.
pub open spec fn skip_while_class(s: Seq<char>, p: nat, cl: CharClass) -> nat
    decreases s.len() - p,
{
    if p >= s.len() {
        s.len()
    } else if class_of(s[p as int]) == cl {
        skip_while_class(s, p + 1, cl)
    } else {
        p
    }
}

pub proof fn lemma_skip_class_bounds(s: Seq<char>, p: nat, cl: CharClass)
    requires
        p <= s.len(),
    ensures
        p <= skip_while_class(s, p, cl) <= s.len(),
    decreases s.len() - p,
{
    if p < s.len() && class_of(s[p as int]) == cl {
        lemma_skip_class_bounds(s, p + 1, cl);
    }
}

/// Last position of the run of same-class characters that starts at `q`.
pub open spec fn run_end(s: Seq<char>, q: nat) -> nat
    decreases s.len() - q,
{
    if q + 1 >= s.len() {
        q
    } else if class_of(s[q as int + 1]) == class_of(s[q as int]) {
        run_end(s, q + 1)
    } else {
        q
    }
}

/// First position of the run of same-class characters that ends at `q`.
pub open spec fn run_start(s: Seq<char>, q: nat) -> nat
    decreases q,
{
    if q == 0 || q >= s.len() {
        q
    } else if class_of(s[q - 1]) == class_of(s[q as int]) {
        run_start(s, (q - 1) as nat)
    } else {
        q
    }
}

/// Last position at or before `q` whose character is not whitespace,
/// clamped to the text start.
pub open spec fn skip_ws_back(s: Seq<char>, q: nat) -> nat
    decreases q,
{
    if q == 0 || q >= s.len() {
        q
    } else if class_of(s[q as int]) == CharClass::Space {
        skip_ws_back(s, (q - 1) as nat)
    } else {
        q
    }
}

/// Start of the next word: skip the run under the cursor, then whitespace.
pub open spec fn next_word_start_spec(s: Seq<char>, p: nat) -> nat {
    if p >= s.len() {
        s.len()
    } else {
        skip_while_class(s, skip_while_class(s, p, class_of(s[p as int])), CharClass::Space)
    }
}

/// End of the next word: step once, skip whitespace, then walk to the end
/// of the run, so that repeated calls always make progress.
pub open spec fn next_word_end_spec(s: Seq<char>, p: nat) -> nat {
    if p + 1 >= s.len() {
        s.len()
    } else {
        run_end(s, skip_while_class(s, p + 1, CharClass::Space))
    }
}

/// Start of the previous word: step back once, skip whitespace backward,
/// then walk to the start of the run.
pub open spec fn prev_word_start_spec(s: Seq<char>, p: nat) -> nat {
    let pc = if p <= s.len() {
        p
    } else {
        s.len()
    };
    if pc == 0 {
        0
    } else {
        run_start(s, skip_ws_back(s, (pc - 1) as nat))
    }
}

/// One position past the text start or end never moves out of bounds.
pub proof fn lemma_word_specs_bounded(s: Seq<char>, p: nat)
    ensures
        next_word_start_spec(s, p) <= s.len(),
        next_word_end_spec(s, p) <= s.len(),
        prev_word_start_spec(s, p) <= s.len(),
{
    if p < s.len() {
        lemma_skip_class_bounds(s, p, class_of(s[p as int]));
        lemma_skip_class_bounds(s, skip_while_class(s, p, class_of(s[p as int])), CharClass::Space);
    }
    if p + 1 < s.len() {
        lemma_skip_class_bounds(s, p + 1, CharClass::Space);
        lemma_run_end_bounds(s, skip_while_class(s, p + 1, CharClass::Space));
    }
    let pc = if p <= s.len() {
        p
    } else {
        s.len()
    };
    if pc > 0 {
        lemma_skip_ws_back_bounds(s, (pc - 1) as nat);
        lemma_run_start_bounds(s, skip_ws_back(s, (pc - 1) as nat));
    }
}

pub proof fn lemma_run_end_bounds(s: Seq<char>, q: nat)
    requires
        q <= s.len(),
    ensures
        q <= run_end(s, q) <= s.len(),
    decreases s.len() - q,
{
    if q + 1 < s.len() && class_of(s[q as int + 1]) == class_of(s[q as int]) {
        lemma_run_end_bounds(s, q + 1);
    }
}

pub proof fn lemma_run_start_bounds(s: Seq<char>, q: nat)
    ensures
        run_start(s, q) <= q,
    decreases q,
{
    if 0 < q < s.len() && class_of(s[q - 1]) == class_of(s[q as int]) {
        lemma_run_start_bounds(s, (q - 1) as nat);
    }
}

pub proof fn lemma_skip_ws_back_bounds(s: Seq<char>, q: nat)
    ensures
        skip_ws_back(s, q) <= q,
    decreases q,
{
    if 0 < q < s.len() && class_of(s[q as int]) == CharClass::Space {
        lemma_skip_ws_back_bounds(s, (q - 1) as nat);
    }
}

/// Start of the next word after `pos`.
pub fn next_word_start(text: &Vec<char>, pos: usize) -> (r: usize)
    requires
        pos <= text@.len(),
    ensures
        r == next_word_start_spec(text@, pos as nat),
        r <= text@.len(),
{
    let tl = text.len();
    if pos >= tl {
        return tl;
    }
    let cl = char_class(text[pos]);
    let mut p = pos;
    while p < tl && char_class(text[p]) == cl
        invariant
            pos <= p <= tl,
            tl == text@.len(),
            cl == class_of(text@[pos as int]),
            skip_while_class(text@, pos as nat, cl) == skip_while_class(text@, p as nat, cl),
        decreases tl - p,
    {
        p = p + 1;
    }
    let mut q = p;
    while q < tl && char_class(text[q]) == CharClass::Space
        invariant
            p <= q <= tl,
            tl == text@.len(),
            skip_while_class(text@, p as nat, CharClass::Space) == skip_while_class(
                text@,
                q as nat,
                CharClass::Space,
            ),
        decreases tl - q,
    {
        q = q + 1;
    }
    q
}

/// End of the next word after `pos` (the position of its last character).
pub fn next_word_end(text: &Vec<char>, pos: usize) -> (r: usize)
    requires
        pos <= text@.len(),
    ensures
        r == next_word_end_spec(text@, pos as nat),
        r <= text@.len(),
{
    let tl = text.len();
    if pos >= tl || pos + 1 >= tl {
        return tl;
    }
    let mut q = pos + 1;
    while q < tl && char_class(text[q]) == CharClass::Space
        invariant
            pos + 1 <= q <= tl,
            tl == text@.len(),
            skip_while_class(text@, (pos + 1) as nat, CharClass::Space) == skip_while_class(
                text@,
                q as nat,
                CharClass::Space,
            ),
        decreases tl - q,
    {
        q = q + 1;
    }
    proof {
        lemma_skip_class_bounds(text@, (pos + 1) as nat, CharClass::Space);
        assert(skip_while_class(text@, (pos + 1) as nat, CharClass::Space) == q as nat);
    }
    let mut p = q;
    loop
        invariant
            p <= tl,
            tl == text@.len(),
            pos + 1 < tl,
            skip_while_class(text@, (pos + 1) as nat, CharClass::Space) == q as nat,
            run_end(text@, q as nat) == run_end(text@, p as nat),
        decreases tl - p,
    {
        if p >= tl {
            return p;
        }
        if p + 1 >= tl {
            return p;
        }
        if char_class(text[p + 1]) == char_class(text[p]) {
            p = p + 1;
        } else {
            return p;
        }
    }
}

/// Start of the word before `pos`.
pub fn prev_word_start(text: &Vec<char>, pos: usize) -> (r: usize)
    ensures
        r == prev_word_start_spec(text@, pos as nat),
        r <= text@.len(),
{
    let tl = text.len();
    let pc = if pos <= tl {
        pos
    } else {
        tl
    };
    if pc == 0 {
        return 0;
    }
    let mut q = pc - 1;
    while q != 0 && q < tl && char_class(text[q]) == CharClass::Space
        invariant
            q <= tl,
            tl == text@.len(),
            skip_ws_back(text@, (pc - 1) as nat) == skip_ws_back(text@, q as nat),
        decreases q,
    {
        q = q - 1;
    }
    proof {
        lemma_skip_ws_back_bounds(text@, (pc - 1) as nat);
        assert(skip_ws_back(text@, (pc - 1) as nat) == q as nat);
    }
    let mut p = q;
    loop
        invariant
            p <= q <= tl,
            tl == text@.len(),
            1 <= pc <= tl,
            pc == (if pos <= tl {
                pos
            } else {
                tl
            }),
            skip_ws_back(text@, (pc - 1) as nat) == q as nat,
            run_start(text@, q as nat) == run_start(text@, p as nat),
        decreases p,
    {
        if p == 0 || p >= tl {
            return p;
        }
        if char_class(text[p - 1]) == char_class(text[p]) {
            p = p - 1;
        } else {
            return p;
        }
    }
}

/// Word motion applied `count` times.
pub open spec fn word_moves(s: Seq<char>, pos: nat, dir: Direction, count: nat) -> nat
    decreases count,
{
    if count == 0 {
        pos
    } else {
        let prev = word_moves(s, pos, dir, (count - 1) as nat);
        match dir {
            Direction::Forward => next_word_start_spec(s, prev),
            Direction::Backward => prev_word_start_spec(s, prev),
        }
    }
}

/// Line motion: move the line index by `count`, clamped to the first and
/// last line, keeping the column where the target line is wide enough.
pub open spec fn line_move_spec(s: Seq<char>, pos: nat, dir: Direction, count: nat) -> nat {
    let line = line_of(s, pos as int);
    let last_line = (num_lines(s) - 1) as nat;
    let target = match dir {
        Direction::Forward => if line + count <= last_line {
            line + count
        } else {
            last_line
        },
        Direction::Backward => if line >= count {
            (line - count) as nat
        } else {
            0
        },
    };
    let start_cur = line_start(s, line);
    let col = (pos - start_cur) as nat;
    let start_t = line_start(s, target);
    let next_t = line_start(s, target + 1);
    let width = if target == last_line {
        (s.len() - start_t) as nat
    } else if next_t > start_t {
        (next_t - 1 - start_t) as nat
    } else {
        0
    };
    if col <= width {
        (start_t + col) as nat
    } else {
        (start_t + width) as nat
    }
}

/// One movement step of the given granularity, `count` units at once.
pub open spec fn move_pos_spec(
    s: Seq<char>,
    pos: nat,
    dir: Direction,
    gran: Granularity,
    count: nat,
) -> nat {
    match gran {
        Granularity::Character => match dir {
            Direction::Forward => nth_next_boundary(s, pos, count),
            Direction::Backward => nth_prev_boundary(s, pos, count),
        },
        Granularity::Line => line_move_spec(s, pos, dir, count),
        Granularity::Word => word_moves(s, pos, dir, count),
    }
}

/// The position reached by moving from `pos` in `dir` by `count` units of
/// `gran`; clamped to the document bounds, and for character granularity
/// always a grapheme boundary.
pub fn move_pos(
    text: &Vec<char>,
    pos: usize,
    dir: Direction,
    gran: Granularity,
    count: usize,
) -> (r: usize)
    requires
        pos <= text@.len(),
        text@.len() < usize::MAX,
    ensures
        r == move_pos_spec(text@, pos as nat, dir, gran, count as nat),
        r <= text@.len(),
{
    match gran {
        Granularity::Character => match dir {
            Direction::Forward => {
                let r = nth_next_grapheme_boundary(text, pos, count);
                r
            },
            Direction::Backward => {
                let r = nth_prev_grapheme_boundary(text, pos, count);
                r
            },
        },
        Granularity::Line => move_line(text, pos, dir, count),
        Granularity::Word => {
            let mut cur = pos;
            let mut j: usize = 0;
            while j < count
                invariant
                    j <= count,
                    cur <= text@.len(),
                    cur == word_moves(text@, pos as nat, dir, j as nat),
                decreases count - j,
            {
                cur = match dir {
                    Direction::Forward => next_word_start(text, cur),
                    Direction::Backward => prev_word_start(text, cur),
                };
                j = j + 1;
            }
            cur
        },
    }
}

/// Line-granularity motion, column preserved best effort.
fn move_line(text: &Vec<char>, pos: usize, dir: Direction, count: usize) -> (r: usize)
    requires
        pos <= text@.len(),
        text@.len() < usize::MAX,
    ensures
        r == line_move_spec(text@, pos as nat, dir, count as nat),
        r <= text@.len(),
{
    let line = char_to_line(text, pos);
    let last_line = len_lines(text) - 1;
    let target = match dir {
        Direction::Forward => {
            if count <= last_line && line <= last_line - count {
                line + count
            } else {
                last_line
            }
        },
        Direction::Backward => {
            if line >= count {
                line - count
            } else {
                0
            }
        },
    };
    let start_cur = line_to_char(text, line);
    proof {
        crate::text::lemma_line_start_of_le(text@, pos as nat);
        crate::text::lemma_count_mono(text@, pos as int, text@.len() as int);
        crate::text::lemma_count_newlines_le(text@, text@.len() as int);
    }
    let col = pos - start_cur;
    let start_t = line_to_char(text, target);
    let next_t = line_to_char(text, target + 1);
    let width = if target == last_line {
        text.len() - start_t
    } else if next_t > start_t {
        next_t - 1 - start_t
    } else {
        0
    };
    proof {
        crate::text::lemma_count_newlines_le(text@, text@.len() as int);
    }
    if col <= width {
        start_t + col
    } else {
        start_t + width
    }
}

} // verus!
