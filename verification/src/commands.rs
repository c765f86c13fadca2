//! The command layer: each command takes the current view and a repeat
//! count and effects the change on the view's document in place.
//!
//! Movement commands replace the selection; edit commands build a
//! transaction, apply it, and (for one-shot edits) commit the staged
//! changes as a single history revision.  Commands that insert text stage
//! their edits; the stage is flushed into one revision when the mode
//! machine returns to normal mode.

use vstd::prelude::*;

use crate::changeset::apply_ops;
use crate::document::{clamp_ranges, mapped_ranges, EditorView, Mode, reg_lookup, PADDING};
use crate::error::EngineError;
use crate::graphemes::{next_grapheme_boundary, prev_grapheme_boundary};
use crate::movement::{move_pos_spec, Direction, Granularity};
use crate::prompt::Prompt;
use crate::selection::{fragment_of, ranges_normalized, Range, Selection};
use crate::state::{extended_ranges, moved_points, ranges_in_bounds, word_end_moves, State};
use crate::text::{
    char_to_line, len_lines, lemma_count_mono, lemma_count_newlines_le, lemma_line_start_mono,
    line_of, line_start, line_to_char, num_lines,
};
use crate::transaction::{edits_applied, edits_valid, edit_views, Edit, SpecEdit, Transaction};

verus! {

/// Width of one indent unit, in columns.
pub const TAB_WIDTH: usize = 4;

/// The parts of a view a pure movement command never touches.
pub open spec fn only_selection_changed(oldv: EditorView, newv: EditorView) -> bool {
    &&& newv.doc.state.doc@ == oldv.doc.state.doc@
    &&& newv.doc.mode == oldv.doc.mode
    &&& newv.doc.changes == oldv.doc.changes
    &&& newv.doc.history == oldv.doc.history
    &&& newv.doc.version == oldv.doc.version
    &&& newv.doc.old_state == oldv.doc.old_state
    &&& newv.first_line == oldv.first_line
}

/// What a collapsed-cursor movement command promises: everything but the
/// selection kept, and wherever the moved cursors are already in order,
/// the new selection is exactly those cursors.
pub open spec fn moved_selection_ok(
    oldv: EditorView,
    newv: EditorView,
    dir: Direction,
    gran: Granularity,
    count: nat,
) -> bool {
    let mid = moved_points(oldv.doc.state.doc@, oldv.doc.state.selection.ranges@, dir, gran, count);
    &&& only_selection_changed(oldv, newv)
    &&& (ranges_normalized(mid) ==> newv.doc.state.selection.ranges@ == mid
        && newv.doc.state.selection.primary_index == oldv.doc.state.selection.primary_index)
}

/// The same for anchor-keeping (extending) movement.
pub open spec fn extended_selection_ok(
    oldv: EditorView,
    newv: EditorView,
    dir: Direction,
    gran: Granularity,
    count: nat,
) -> bool {
    let mid = extended_ranges(
        oldv.doc.state.doc@,
        oldv.doc.state.selection.ranges@,
        dir,
        gran,
        count,
    );
    &&& only_selection_changed(oldv, newv)
    &&& (ranges_normalized(mid) ==> newv.doc.state.selection.ranges@ == mid
        && newv.doc.state.selection.primary_index == oldv.doc.state.selection.primary_index)
}

fn do_move(view: &mut EditorView, dir: Direction, gran: Granularity, count: usize)
    requires
        old(view).well_formed(),
        old(view).doc.state.doc@.len() < usize::MAX,
    ensures
        final(view).well_formed(),
        moved_selection_ok(*old(view), *final(view), dir, gran, count as nat),
{
    let sel = view.doc.state.move_selection(dir, gran, count);
    let ghost mid = moved_points(
        view.doc.state.doc@,
        view.doc.state.selection.ranges@,
        dir,
        gran,
        count as nat,
    );
    view.doc.set_selection(sel);
    proof {
        if ranges_normalized(mid) {
            assert(ranges_in_bounds(sel.ranges@, old(view).doc.state.doc@.len()));
        }
    }
}

fn do_extend(view: &mut EditorView, dir: Direction, gran: Granularity, count: usize)
    requires
        old(view).well_formed(),
        old(view).doc.state.doc@.len() < usize::MAX,
    ensures
        final(view).well_formed(),
        extended_selection_ok(*old(view), *final(view), dir, gran, count as nat),
{
    let sel = view.doc.state.extend_selection(dir, gran, count);
    let ghost mid = extended_ranges(
        view.doc.state.doc@,
        view.doc.state.selection.ranges@,
        dir,
        gran,
        count as nat,
    );
    view.doc.set_selection(sel);
    proof {
        if ranges_normalized(mid) {
            assert(ranges_in_bounds(sel.ranges@, old(view).doc.state.doc@.len()));
        }
    }
}

/// Move every cursor one or more grapheme clusters to the left.
pub fn move_char_left(view: &mut EditorView, count: usize)
    requires
        old(view).well_formed(),
        old(view).doc.state.doc@.len() < usize::MAX,
    ensures
        final(view).well_formed(),
        moved_selection_ok(
            *old(view),
            *final(view),
            Direction::Backward,
            Granularity::Character,
            count as nat,
        ),
{
    do_move(view, Direction::Backward, Granularity::Character, count);
}

/// Move every cursor one or more grapheme clusters to the right.
pub fn move_char_right(view: &mut EditorView, count: usize)
    requires
        old(view).well_formed(),
        old(view).doc.state.doc@.len() < usize::MAX,
    ensures
        final(view).well_formed(),
        moved_selection_ok(
            *old(view),
            *final(view),
            Direction::Forward,
            Granularity::Character,
            count as nat,
        ),
{
    do_move(view, Direction::Forward, Granularity::Character, count);
}

/// Move every cursor up by lines, keeping the column best effort.
pub fn move_line_up(view: &mut EditorView, count: usize)
    requires
        old(view).well_formed(),
        old(view).doc.state.doc@.len() < usize::MAX,
    ensures
        final(view).well_formed(),
        moved_selection_ok(
            *old(view),
            *final(view),
            Direction::Backward,
            Granularity::Line,
            count as nat,
        ),
{
    do_move(view, Direction::Backward, Granularity::Line, count);
}

/// Move every cursor down by lines, keeping the column best effort.
pub fn move_line_down(view: &mut EditorView, count: usize)
    requires
        old(view).well_formed(),
        old(view).doc.state.doc@.len() < usize::MAX,
    ensures
        final(view).well_formed(),
        moved_selection_ok(
            *old(view),
            *final(view),
            Direction::Forward,
            Granularity::Line,
            count as nat,
        ),
{
    do_move(view, Direction::Forward, Granularity::Line, count);
}

/// Extend every range one or more clusters to the left.
pub fn extend_char_left(view: &mut EditorView, count: usize)
    requires
        old(view).well_formed(),
        old(view).doc.state.doc@.len() < usize::MAX,
    ensures
        final(view).well_formed(),
        extended_selection_ok(
            *old(view),
            *final(view),
            Direction::Backward,
            Granularity::Character,
            count as nat,
        ),
{
    do_extend(view, Direction::Backward, Granularity::Character, count);
}

/// Extend every range one or more clusters to the right.
pub fn extend_char_right(view: &mut EditorView, count: usize)
    requires
        old(view).well_formed(),
        old(view).doc.state.doc@.len() < usize::MAX,
    ensures
        final(view).well_formed(),
        extended_selection_ok(
            *old(view),
            *final(view),
            Direction::Forward,
            Granularity::Character,
            count as nat,
        ),
{
    do_extend(view, Direction::Forward, Granularity::Character, count);
}

/// Extend every range up by lines.
pub fn extend_line_up(view: &mut EditorView, count: usize)
    requires
        old(view).well_formed(),
        old(view).doc.state.doc@.len() < usize::MAX,
    ensures
        final(view).well_formed(),
        extended_selection_ok(
            *old(view),
            *final(view),
            Direction::Backward,
            Granularity::Line,
            count as nat,
        ),
{
    do_extend(view, Direction::Backward, Granularity::Line, count);
}

/// Extend every range down by lines.
pub fn extend_line_down(view: &mut EditorView, count: usize)
    requires
        old(view).well_formed(),
        old(view).doc.state.doc@.len() < usize::MAX,
    ensures
        final(view).well_formed(),
        extended_selection_ok(
            *old(view),
            *final(view),
            Direction::Forward,
            Granularity::Line,
            count as nat,
        ),
{
    do_extend(view, Direction::Forward, Granularity::Line, count);
}

/// Place the cursor at the start of the next word.
pub fn move_next_word_start(view: &mut EditorView, count: usize)
    requires
        old(view).well_formed(),
        old(view).doc.state.doc@.len() < usize::MAX,
    ensures
        final(view).well_formed(),
        only_selection_changed(*old(view), *final(view)),
        final(view).doc.state.selection.ranges@ =~= seq![
            point_at(
                move_pos_spec(
                    old(view).doc.state.doc@,
                    old(view).doc.state.selection.ranges@[old(
                        view,
                    ).doc.state.selection.primary_index as int].head as nat,
                    Direction::Forward,
                    Granularity::Word,
                    count as nat,
                ),
            ),
        ],
{
    let cursor = view.doc.selection().cursor();
    let pos = view.doc.state.move_pos(cursor, Direction::Forward, Granularity::Word, count);
    view.doc.set_selection(Selection::point(pos));
}

/// Place the cursor at the start of the previous word.
pub fn move_prev_word_start(view: &mut EditorView, count: usize)
    requires
        old(view).well_formed(),
        old(view).doc.state.doc@.len() < usize::MAX,
    ensures
        final(view).well_formed(),
        only_selection_changed(*old(view), *final(view)),
        final(view).doc.state.selection.ranges@ =~= seq![
            point_at(
                move_pos_spec(
                    old(view).doc.state.doc@,
                    old(view).doc.state.selection.ranges@[old(
                        view,
                    ).doc.state.selection.primary_index as int].head as nat,
                    Direction::Backward,
                    Granularity::Word,
                    count as nat,
                ),
            ),
        ],
{
    let cursor = view.doc.selection().cursor();
    let pos = view.doc.state.move_pos(cursor, Direction::Backward, Granularity::Word, count);
    view.doc.set_selection(Selection::point(pos));
}

/// Place the cursor on the last character of the next word.
pub fn move_next_word_end(view: &mut EditorView, count: usize)
    requires
        old(view).well_formed(),
    ensures
        final(view).well_formed(),
        only_selection_changed(*old(view), *final(view)),
        final(view).doc.state.selection.ranges@ =~= seq![
            point_at(
                word_end_moves(
                    old(view).doc.state.doc@,
                    old(view).doc.state.selection.ranges@[old(
                        view,
                    ).doc.state.selection.primary_index as int].head as nat,
                    count as nat,
                ),
            ),
        ],
{
    let cursor = view.doc.selection().cursor();
    let pos = State::move_next_word_end(view.doc.text(), cursor, count);
    view.doc.set_selection(Selection::point(pos));
}

/// A zero-width range at a position known to fit in a machine word.
pub open spec fn point_at(p: nat) -> Range {
    Range { anchor: p as usize, head: p as usize }
}

/// Jump to the very start of the document and return to normal mode.
pub fn move_file_start(view: &mut EditorView, count: usize)
    requires
        old(view).well_formed(),
    ensures
        final(view).well_formed(),
        final(view).doc.state.doc@ == old(view).doc.state.doc@,
        final(view).doc.state.selection.ranges@ =~= seq![Range { anchor: 0usize, head: 0usize }],
        final(view).doc.mode == Mode::Normal,
{
    view.doc.set_selection(Selection::point(0));
    view.doc.mode = Mode::Normal;
}

/// Jump to the start of the second-to-last line and return to normal mode.
pub fn move_file_end(view: &mut EditorView, count: usize)
    requires
        old(view).well_formed(),
        old(view).doc.state.doc@.len() < usize::MAX,
    ensures
        final(view).well_formed(),
        final(view).doc.state.doc@ == old(view).doc.state.doc@,
        final(view).doc.state.selection.ranges@ =~= seq![
            point_at(
                line_start(
                    old(view).doc.state.doc@,
                    (num_lines(old(view).doc.state.doc@) - 1 - (if num_lines(
                        old(view).doc.state.doc@,
                    ) >= 2 {
                        1nat
                    } else {
                        0nat
                    })) as nat,
                ),
            ),
        ],
        final(view).doc.mode == Mode::Normal,
{
    let lines = len_lines(view.doc.text());
    let target = if lines >= 2 {
        lines - 2
    } else {
        0
    };
    let pos = line_to_char(view.doc.text(), target);
    view.doc.set_selection(Selection::point(pos));
    view.doc.mode = Mode::Normal;
}

/// Whether the cursor's line lies inside the window, with `PADDING` lines
/// of context required above and below.
pub fn check_cursor_in_view(view: &mut EditorView) -> (r: bool)
    requires
        old(view).well_formed(),
        old(view).doc.state.doc@.len() < usize::MAX,
        old(view).first_line + old(view).size.1 as nat + PADDING <= usize::MAX,
    ensures
        *final(view) == *old(view),
        r == ({
            let line = line_of(
                old(view).doc.state.doc@,
                old(view).doc.state.selection.ranges@[old(
                    view,
                ).doc.state.selection.primary_index as int].head as int,
            );
            let doc_end = old(view).first_line + (if old(view).size.1 >= 1 {
                (old(view).size.1 - 1) as nat
            } else {
                0nat
            });
            !((line > (if doc_end >= PADDING {
                (doc_end - PADDING) as nat
            } else {
                0nat
            }) || line < old(view).first_line + PADDING))
        }),
{
    let cursor = view.doc.selection().cursor();
    let line = char_to_line(view.doc.text(), cursor);
    let height_minus = if view.size.1 >= 1 {
        (view.size.1 - 1) as usize
    } else {
        0
    };
    let doc_end = view.first_line + height_minus;
    let lower = if doc_end >= PADDING {
        doc_end - PADDING
    } else {
        0
    };
    if line > lower || line < view.first_line + PADDING {
        return false;
    }
    true
}

/// Enter goto mode, awaiting the key that resolves the target.
pub fn goto_mode(view: &mut EditorView, count: usize)
    requires
        old(view).well_formed(),
    ensures
        final(view).well_formed(),
        final(view).doc.mode == Mode::Goto,
        final(view).doc.state == old(view).doc.state,
        final(view).doc.history == old(view).doc.history,
        final(view).doc.changes == old(view).doc.changes,
        final(view).doc.version == old(view).doc.version,
{
    view.doc.mode = Mode::Goto;
}

/// Entering command mode is deliberately not supported.
pub fn command_mode(view: &mut EditorView, count: usize) -> (r: Result<(), EngineError>)
    requires
        old(view).well_formed(),
    ensures
        final(view).well_formed(),
        *final(view) == *old(view),
        r == Err::<(), EngineError>(EngineError::NotSupported),
{
    Err(EngineError::NotSupported)
}

/// Selection-aware re-indentation is deliberately not supported.
pub fn indent_selection(view: &mut EditorView, count: usize) -> (r: Result<(), EngineError>)
    requires
        old(view).well_formed(),
    ensures
        final(view).well_formed(),
        *final(view) == *old(view),
        r == Err::<(), EngineError>(EngineError::NotSupported),
{
    Err(EngineError::NotSupported)
}

/// Feed a typed character to the prompt.
pub fn insert_char_prompt(prompt: &mut Prompt, c: char)
    requires
        old(prompt).well_formed(),
        old(prompt).line@.len() < usize::MAX,
    ensures
        final(prompt).well_formed(),
        final(prompt).line@ == old(prompt).line@.insert(old(prompt).cursor as int, c),
        final(prompt).cursor == old(prompt).cursor + 1,
{
    prompt.insert_char(c);
}

/// Collapse every range onto its head.
pub fn collapse_selection(view: &mut EditorView, count: usize)
    requires
        old(view).well_formed(),
    ensures
        final(view).well_formed(),
        only_selection_changed(*old(view), *final(view)),
        ({
            let mid = Seq::new(
                old(view).doc.state.selection.ranges@.len(),
                |i: int|
                    Range {
                        anchor: old(view).doc.state.selection.ranges@[i].head,
                        head: old(view).doc.state.selection.ranges@[i].head,
                    },
            );
            ranges_normalized(mid) ==> final(view).doc.state.selection.ranges@ == mid
                && final(view).doc.state.selection.primary_index == old(
                view,
            ).doc.state.selection.primary_index
        }),
{
    let ghost mid = Seq::new(
        old(view).doc.state.selection.ranges@.len(),
        |i: int|
            Range {
                anchor: old(view).doc.state.selection.ranges@[i].head,
                head: old(view).doc.state.selection.ranges@[i].head,
            },
    );
    let mut out: Vec<Range> = Vec::new();
    let mut i: usize = 0;
    while i < view.doc.state.selection.ranges.len()
        invariant
            view.well_formed(),
            view == old(view),
            i <= view.doc.state.selection.ranges@.len(),
            out@.len() == i,
            mid == Seq::new(
                view.doc.state.selection.ranges@.len(),
                |k: int|
                    Range {
                        anchor: view.doc.state.selection.ranges@[k].head,
                        head: view.doc.state.selection.ranges@[k].head,
                    },
            ),
            forall|k: int| 0 <= k < i ==> out@[k] == mid[k],
            forall|k: int|
                0 <= k < i ==> (#[trigger] out@[k]).anchor <= view.doc.state.doc@.len()
                    && out@[k].head <= view.doc.state.doc@.len(),
        decreases view.doc.state.selection.ranges@.len() - i,
    {
        let h = view.doc.state.selection.ranges[i].head;
        out.push(Range { anchor: h, head: h });
        i = i + 1;
    }
    proof {
        assert(out@ =~= mid);
    }
    let res = Selection::new(out, view.doc.state.selection.primary_index);
    let sel = match res {
        Ok(s) => s,
        Err(_) => {
            proof {
                assert(false);
            }
            Selection::point(0)
        },
    };
    view.doc.set_selection(sel);
    proof {
        if ranges_normalized(mid) {
            assert(ranges_in_bounds(sel.ranges@, old(view).doc.state.doc@.len()));
        }
    }
}

/// Swap the anchor and head of every range.
pub fn flip_selections(view: &mut EditorView, count: usize)
    requires
        old(view).well_formed(),
    ensures
        final(view).well_formed(),
        only_selection_changed(*old(view), *final(view)),
        ({
            let mid = Seq::new(
                old(view).doc.state.selection.ranges@.len(),
                |i: int|
                    Range {
                        anchor: old(view).doc.state.selection.ranges@[i].head,
                        head: old(view).doc.state.selection.ranges@[i].anchor,
                    },
            );
            ranges_normalized(mid) ==> final(view).doc.state.selection.ranges@ == mid
                && final(view).doc.state.selection.primary_index == old(
                view,
            ).doc.state.selection.primary_index
        }),
{
    let ghost mid = Seq::new(
        old(view).doc.state.selection.ranges@.len(),
        |i: int|
            Range {
                anchor: old(view).doc.state.selection.ranges@[i].head,
                head: old(view).doc.state.selection.ranges@[i].anchor,
            },
    );
    let mut out: Vec<Range> = Vec::new();
    let mut i: usize = 0;
    while i < view.doc.state.selection.ranges.len()
        invariant
            view.well_formed(),
            view == old(view),
            i <= view.doc.state.selection.ranges@.len(),
            out@.len() == i,
            mid == Seq::new(
                view.doc.state.selection.ranges@.len(),
                |k: int|
                    Range {
                        anchor: view.doc.state.selection.ranges@[k].head,
                        head: view.doc.state.selection.ranges@[k].anchor,
                    },
            ),
            forall|k: int| 0 <= k < i ==> out@[k] == mid[k],
            forall|k: int|
                0 <= k < i ==> (#[trigger] out@[k]).anchor <= view.doc.state.doc@.len()
                    && out@[k].head <= view.doc.state.doc@.len(),
        decreases view.doc.state.selection.ranges@.len() - i,
    {
        let rg = view.doc.state.selection.ranges[i];
        out.push(Range { anchor: rg.head, head: rg.anchor });
        i = i + 1;
    }
    proof {
        assert(out@ =~= mid);
    }
    let res = Selection::new(out, view.doc.state.selection.primary_index);
    let sel = match res {
        Ok(s) => s,
        Err(_) => {
            proof {
                assert(false);
            }
            Selection::point(0)
        },
    };
    view.doc.set_selection(sel);
    proof {
        if ranges_normalized(mid) {
            assert(ranges_in_bounds(sel.ranges@, old(view).doc.state.doc@.len()));
        }
    }
}

/// Select the whole line under the primary cursor.
pub fn select_line(view: &mut EditorView, count: usize)
    requires
        old(view).well_formed(),
        old(view).doc.state.doc@.len() < usize::MAX,
    ensures
        final(view).well_formed(),
        only_selection_changed(*old(view), *final(view)),
        ({
            let s = old(view).doc.state.doc@;
            let line = line_of(
                s,
                old(view).doc.state.selection.ranges@[old(
                    view,
                ).doc.state.selection.primary_index as int].head as int,
            );
            let start = line_start(s, line);
            let end = if line_start(s, line + 1) >= 1 {
                (line_start(s, line + 1) - 1) as nat
            } else {
                0nat
            };
            final(view).doc.state.selection.ranges@ =~= seq![
                Range { anchor: start as usize, head: end as usize },
            ]
        }),
{
    let pos = view.doc.selection().primary();
    let line = char_to_line(view.doc.text(), pos.head);
    proof {
        lemma_count_newlines_le(view.doc.state.doc@, pos.head as int);
    }
    let start = line_to_char(view.doc.text(), line);
    let next = line_to_char(view.doc.text(), line + 1);
    let end = if next >= 1 {
        next - 1
    } else {
        0
    };
    proof {
        crate::text::lemma_line_start_of_le(view.doc.state.doc@, pos.head as nat);
    }
    view.doc.set_selection(Selection::single(start, end));
}

/// Copy the text of every range, in order, into the default register.
pub fn yank(view: &mut EditorView, count: usize)
    requires
        old(view).well_formed(),
    ensures
        final(view).well_formed(),
        final(view).doc == old(view).doc,
        final(view).first_line == old(view).first_line,
        reg_lookup(final(view).registers.entries@, '"') == Option::Some(
            Seq::new(
                old(view).doc.state.selection.ranges@.len(),
                |i: int|
                    fragment_of(
                        old(view).doc.state.doc@,
                        old(view).doc.state.selection.ranges@[i],
                    ),
            ),
        ),
        forall|n2: char|
            n2 != '"' ==> #[trigger] reg_lookup(final(view).registers.entries@, n2) == reg_lookup(
                old(view).registers.entries@,
                n2,
            ),
{
    let values = view.doc.state.selection.fragments(&view.doc.state.doc);
    proof {
        assert(values@.map_values(|v: Vec<char>| crate::document::chars_view(v)) =~= Seq::new(
            old(view).doc.state.selection.ranges@.len(),
            |i: int|
                fragment_of(
                    old(view).doc.state.doc@,
                    old(view).doc.state.selection.ranges@[i],
                ),
        ));
    }
    view.registers.set('"', values);
}

/// Strictly ascending values.
pub open spec fn strictly_sorted(x: Seq<usize>) -> bool {
    forall|i: int, j: int| 0 <= i < j < x.len() ==> x[i] < x[j]
}

/// `l` is the line under some cursor head of `rs`.
pub open spec fn head_line_covered(s: Seq<char>, rs: Seq<Range>, l: usize) -> bool {
    exists|j: int| 0 <= j < rs.len() && l == line_of(s, (#[trigger] rs[j]).head as int)
}

/// `l` lies on a line touched by some range of `rs`.
pub open spec fn line_covered(s: Seq<char>, rs: Seq<Range>, l: usize) -> bool {
    exists|j: int|
        0 <= j < rs.len() && line_of(s, (#[trigger] rs[j]).from_spec() as int) <= l && l <= line_of(
            s,
            rs[j].to_spec() as int,
        )
}

/// The distinct lines under the cursor heads, ascending.
#[verifier::rlimit(100)]
#[verifier::spinoff_prover]
fn selection_lines(state: &State) -> (r: Vec<usize>)
    requires
        state.well_formed(),
        state.doc@.len() < usize::MAX,
    ensures
        lines_of_selection(*state, r@),
{
    let ghost s = state.doc@;
    let ghost rs = state.selection.ranges@;
    let mut out: Vec<usize> = Vec::new();
    let mut j: usize = 0;
    while j < state.selection.ranges.len()
        invariant
            state.well_formed(),
            state.doc@.len() < usize::MAX,
            s == state.doc@,
            rs == state.selection.ranges@,
            j <= rs.len(),
            out@.len() <= j,
            strictly_sorted(out@),
            forall|k: int| 0 <= k < out@.len() ==> head_line_covered(s, rs, #[trigger] out@[k]),
            forall|q: int|
                0 <= q < j ==> exists|k: int|
                    0 <= k < out@.len() && #[trigger] out@[k] == line_of(
                        s,
                        (#[trigger] rs[q]).head as int,
                    ),
            j > 0 ==> out@.len() > 0 && out@.last() == line_of(s, rs[j - 1].head as int),
        decreases rs.len() - j,
    {
        let h = state.selection.ranges[j].head;
        let ln = char_to_line(&state.doc, h);
        let ghost out0 = out@;
        let mut pushed = false;
        if j > 0 {
            proof {
                crate::selection::lemma_normalized_global(rs);
                lemma_count_mono(s, rs[j - 1].head as int, h as int);
            }
            let last = out[out.len() - 1];
            if ln > last {
                out.push(ln);
                pushed = true;
                proof {
                    assert forall|a: int, b: int| 0 <= a < b < out@.len() implies out@[a]
                        < out@[b] by {
                        if b < out@.len() - 1 {
                            assert(out@[a] == out0[a] && out@[b] == out0[b]);
                        } else {
                            assert(out@[b] == ln);
                            assert(out@[a] == out0[a]);
                            if a < out0.len() - 1 {
                                assert(out0[a] < out0[out0.len() - 1]);
                            }
                            assert(out0[out0.len() - 1] == last);
                        }
                    }
                }
            } else {
                proof {
                    assert(ln == last);
                }
            }
        } else {
            out.push(ln);
            pushed = true;
        }
        proof {
            assert forall|k: int| 0 <= k < out@.len() implies head_line_covered(
                s,
                rs,
                #[trigger] out@[k],
            ) by {
                if k < out0.len() {
                    assert(out@[k] == out0[k]);
                } else {
                    assert(out@[k] == ln);
                    assert(ln == line_of(s, rs[j as int].head as int));
                }
            }
            assert forall|q: int| 0 <= q < j + 1 implies exists|k: int|
                0 <= k < out@.len() && #[trigger] out@[k] == line_of(
                    s,
                    (#[trigger] rs[q]).head as int,
                ) by {
                if q < j {
                    let k0 = choose|k: int|
                        0 <= k < out0.len() && #[trigger] out0[k] == line_of(
                            s,
                            rs[q].head as int,
                        );
                    assert(out@[k0] == out0[k0]);
                } else {
                    assert(out@[out@.len() - 1] == line_of(s, rs[q].head as int));
                }
            }
        }
        j = j + 1;
    }
    proof {
        if rs.len() > 0 {
            assert(exists|k: int|
                0 <= k < out@.len() && #[trigger] out@[k] == line_of(s, rs[0].head as int));
        }
    }
    out
}

/// Position of the last character before the line break of line `l`.
pub open spec fn line_end_pos(s: Seq<char>, l: nat) -> nat {
    if line_start(s, l + 1) >= 2 {
        (line_start(s, l + 1) - 2) as nat
    } else {
        0
    }
}

/// `lines` is exactly the ascending list of distinct lines under the
/// selection's cursor heads.
pub open spec fn lines_of_selection(st: State, lines: Seq<usize>) -> bool {
    &&& strictly_sorted(lines)
    &&& (st.selection.ranges@.len() > 0 ==> lines.len() > 0)
    &&& (forall|k: int|
        0 <= k < lines.len() ==> head_line_covered(st.doc@, st.selection.ranges@, #[trigger] lines[k]))
    &&& (forall|j: int|
        0 <= j < st.selection.ranges@.len() ==> exists|k: int|
            0 <= k < lines.len() && #[trigger] lines[k] == line_of(
                st.doc@,
                (#[trigger] st.selection.ranges@[j]).head as int,
            ))
}

/// The line set a per-line cursor command works from.
pub open spec fn covers_selection_lines(oldv: EditorView, lines: Seq<usize>) -> bool {
    &&& lines_of_selection(oldv.doc.state, lines)
    &&& lines.len() > 0
}

/// A per-line cursor command's result: one zero-width range per covered
/// line, at the end of each line, kept exactly whenever those cursors are
/// already in ascending order.
pub open spec fn per_line_end_ok(st: State, newv: EditorView, lines: Seq<usize>) -> bool {
    let mid = Seq::new(lines.len(), |i: int| point_at(line_end_pos(st.doc@, lines[i] as nat)));
    &&& lines_of_selection(st, lines)
    &&& lines.len() > 0
    &&& (ranges_normalized(mid) ==> newv.doc.state.selection.ranges@ == mid
        && newv.doc.state.selection.primary_index == 0)
}

/// The same at the start of each line.
pub open spec fn per_line_start_ok(st: State, newv: EditorView, lines: Seq<usize>) -> bool {
    let mid = Seq::new(lines.len(), |i: int| point_at(line_start(st.doc@, lines[i] as nat)));
    &&& lines_of_selection(st, lines)
    &&& lines.len() > 0
    &&& (ranges_normalized(mid) ==> newv.doc.state.selection.ranges@ == mid
        && newv.doc.state.selection.primary_index == 0)
}

/// One zero-width range at the end of every distinct line touched by a
/// cursor.
#[verifier::rlimit(100)]
#[verifier::spinoff_prover]
pub fn move_line_end(view: &mut EditorView, count: usize)
    requires
        old(view).well_formed(),
        old(view).doc.state.doc@.len() < usize::MAX,
    ensures
        final(view).well_formed(),
        only_selection_changed(*old(view), *final(view)),
        exists|lines: Seq<usize>| #[trigger] per_line_end_ok(old(view).doc.state, *final(view), lines),
{
    let lines = selection_lines(&view.doc.state);
    let ghost s = view.doc.state.doc@;
    let ghost mid = Seq::new(lines@.len(), |i: int| point_at(line_end_pos(s, lines@[i] as nat)));
    proof {
        assert(old(view).doc.state == view.doc.state);
        assert(covers_selection_lines(*old(view), lines@));
    }
    let mut ranges: Vec<Range> = Vec::new();
    let mut i: usize = 0;
    while i < lines.len()
        invariant
            view.well_formed(),
            view == old(view),
            s == view.doc.state.doc@,
            s.len() < usize::MAX,
            covers_selection_lines(*old(view), lines@),
            mid == Seq::new(lines@.len(), |k: int| point_at(line_end_pos(s, lines@[k] as nat))),
            i <= lines@.len(),
            ranges@.len() == i,
            forall|k: int| 0 <= k < i ==> ranges@[k] == mid[k],
            forall|k: int|
                0 <= k < i ==> (#[trigger] ranges@[k]).anchor <= s.len() && ranges@[k].head
                    <= s.len(),
        decreases lines@.len() - i,
    {
        proof {
            assert(lines_of_selection(old(view).doc.state, lines@));
            assert(head_line_covered(s, view.doc.state.selection.ranges@, lines@[i as int]));
            let wj = choose|j: int|
                0 <= j < view.doc.state.selection.ranges@.len() && lines@[i as int] == line_of(
                    s,
                    (#[trigger] view.doc.state.selection.ranges@[j]).head as int,
                );
            lemma_count_newlines_le(s, view.doc.state.selection.ranges@[wj].head as int);
        }
        let next = line_to_char(&view.doc.state.doc, lines[i] + 1);
        let pos = if next >= 2 {
            next - 2
        } else {
            0
        };
        ranges.push(Range { anchor: pos, head: pos });
        i = i + 1;
    }
    proof {
        assert(ranges@ =~= mid);
        assert(lines@.len() > 0);
    }
    let res = Selection::new(ranges, 0);
    let sel = match res {
        Ok(sl) => sl,
        Err(_) => {
            proof {
                assert(false);
            }
            Selection::point(0)
        },
    };
    view.doc.set_selection(sel);
    proof {
        if ranges_normalized(mid) {
            assert(ranges_in_bounds(sel.ranges@, s.len()));
        }
        assert(per_line_end_ok(old(view).doc.state, *view, lines@));
    }
}

/// One zero-width range at the start of every distinct line touched by a
/// cursor.
#[verifier::rlimit(100)]
#[verifier::spinoff_prover]
pub fn move_line_start(view: &mut EditorView, count: usize)
    requires
        old(view).well_formed(),
        old(view).doc.state.doc@.len() < usize::MAX,
    ensures
        final(view).well_formed(),
        only_selection_changed(*old(view), *final(view)),
        exists|lines: Seq<usize>| #[trigger] per_line_start_ok(old(view).doc.state, *final(view), lines),
{
    let lines = selection_lines(&view.doc.state);
    let ghost s = view.doc.state.doc@;
    let ghost mid = Seq::new(lines@.len(), |i: int| point_at(line_start(s, lines@[i] as nat)));
    proof {
        assert(old(view).doc.state == view.doc.state);
        assert(covers_selection_lines(*old(view), lines@));
    }
    let mut ranges: Vec<Range> = Vec::new();
    let mut i: usize = 0;
    while i < lines.len()
        invariant
            view.well_formed(),
            view == old(view),
            s == view.doc.state.doc@,
            s.len() < usize::MAX,
            covers_selection_lines(*old(view), lines@),
            mid == Seq::new(lines@.len(), |k: int| point_at(line_start(s, lines@[k] as nat))),
            i <= lines@.len(),
            ranges@.len() == i,
            forall|k: int| 0 <= k < i ==> ranges@[k] == mid[k],
            forall|k: int|
                0 <= k < i ==> (#[trigger] ranges@[k]).anchor <= s.len() && ranges@[k].head
                    <= s.len(),
        decreases lines@.len() - i,
    {
        let pos = line_to_char(&view.doc.state.doc, lines[i]);
        ranges.push(Range { anchor: pos, head: pos });
        i = i + 1;
    }
    proof {
        assert(ranges@ =~= mid);
        assert(lines@.len() > 0);
    }
    let res = Selection::new(ranges, 0);
    let sel = match res {
        Ok(sl) => sl,
        Err(_) => {
            proof {
                assert(false);
            }
            Selection::point(0)
        },
    };
    view.doc.set_selection(sel);
    proof {
        if ranges_normalized(mid) {
            assert(ranges_in_bounds(sel.ranges@, s.len()));
        }
        assert(per_line_start_ok(old(view).doc.state, *view, lines@));
    }
}

/// Scroll up one window, relocating the cursor if it left the view.
pub fn page_up(view: &mut EditorView, count: usize)
    requires
        old(view).well_formed(),
        old(view).doc.state.doc@.len() < usize::MAX,
        old(view).first_line + old(view).size.1 as nat + PADDING <= usize::MAX,
    ensures
        final(view).well_formed(),
        final(view).doc.state.doc@ == old(view).doc.state.doc@,
        final(view).doc.mode == old(view).doc.mode,
        final(view).doc.history == old(view).doc.history,
        old(view).first_line < PADDING ==> *final(view) == *old(view),
        old(view).first_line >= PADDING ==> final(view).first_line == (if old(view).first_line
            >= old(view).size.1 as nat {
            (old(view).first_line - old(view).size.1 as nat) as nat
        } else {
            0nat
        }),
{
    if view.first_line < PADDING {
        return;
    }
    let h = view.size.1 as usize;
    view.first_line = if view.first_line >= h {
        view.first_line - h
    } else {
        0
    };
    if !check_cursor_in_view(view) {
        let target = view.last_line();
        let tl = if target >= PADDING {
            target - PADDING
        } else {
            0
        };
        let pos = line_to_char(&view.doc.state.doc, tl);
        view.doc.set_selection(Selection::point(pos));
    }
}

/// Scroll down one window, relocating the cursor to the new top line.
pub fn page_down(view: &mut EditorView, count: usize)
    requires
        old(view).well_formed(),
        old(view).doc.state.doc@.len() < usize::MAX,
        old(view).first_line + old(view).size.1 as nat + PADDING <= usize::MAX,
    ensures
        final(view).well_formed(),
        final(view).doc.state.doc@ == old(view).doc.state.doc@,
        final(view).doc.mode == old(view).doc.mode,
        final(view).doc.history == old(view).doc.history,
        final(view).first_line == old(view).first_line + old(view).size.1 as nat + PADDING,
        final(view).first_line < num_lines(old(view).doc.state.doc@)
            ==> final(view).doc.state.selection.ranges@ =~= seq![
            point_at(line_start(old(view).doc.state.doc@, final(view).first_line as nat)),
        ],
{
    view.first_line = view.first_line + view.size.1 as usize + PADDING;
    let lines = len_lines(&view.doc.state.doc);
    if view.first_line < lines {
        let pos = line_to_char(&view.doc.state.doc, view.first_line);
        view.doc.set_selection(Selection::point(pos));
    }
}

/// Scroll up half a window.
pub fn half_page_up(view: &mut EditorView, count: usize)
    requires
        old(view).well_formed(),
        old(view).doc.state.doc@.len() < usize::MAX,
        old(view).first_line + old(view).size.1 as nat + PADDING <= usize::MAX,
    ensures
        final(view).well_formed(),
        final(view).doc.state.doc@ == old(view).doc.state.doc@,
        final(view).doc.mode == old(view).doc.mode,
        final(view).doc.history == old(view).doc.history,
        old(view).first_line < PADDING ==> *final(view) == *old(view),
        old(view).first_line >= PADDING ==> final(view).first_line == (if old(view).first_line
            >= (old(view).size.1 / 2) as nat {
            (old(view).first_line - (old(view).size.1 / 2) as nat) as nat
        } else {
            0nat
        }),
{
    if view.first_line < PADDING {
        return;
    }
    let h = (view.size.1 / 2) as usize;
    view.first_line = if view.first_line >= h {
        view.first_line - h
    } else {
        0
    };
    if !check_cursor_in_view(view) {
        let target = view.last_line();
        let tl = if target >= PADDING {
            target - PADDING
        } else {
            0
        };
        let pos = line_to_char(&view.doc.state.doc, tl);
        view.doc.set_selection(Selection::point(pos));
    }
}

/// Scroll down half a window.
pub fn half_page_down(view: &mut EditorView, count: usize)
    requires
        old(view).well_formed(),
        old(view).doc.state.doc@.len() < usize::MAX,
        old(view).first_line + old(view).size.1 as nat + old(view).size.1 as nat + PADDING
            <= usize::MAX,
    ensures
        final(view).well_formed(),
        final(view).doc.state.doc@ == old(view).doc.state.doc@,
        final(view).doc.mode == old(view).doc.mode,
        final(view).doc.history == old(view).doc.history,
        ({
            let grew = (old(view).first_line + old(view).size.1 as nat) < num_lines(
                old(view).doc.state.doc@,
            );
            final(view).first_line == (if grew {
                old(view).first_line + (old(view).size.1 / 2) as int
            } else {
                old(view).first_line as int
            })
        }),
{
    let lines = len_lines(&view.doc.state.doc);
    let h = view.size.1 as usize;
    if view.first_line + h < lines {
        view.first_line = view.first_line + (view.size.1 / 2) as usize;
    }
    if !check_cursor_in_view(view) {
        let pos = line_to_char(&view.doc.state.doc, view.first_line);
        view.doc.set_selection(Selection::point(pos));
    }
}

/// Switch to insert mode, committing whatever was staged as one history
/// revision.
pub fn enter_insert_mode(view: &mut EditorView)
    requires
        old(view).well_formed(),
        old(view).doc.version < u64::MAX,
    ensures
        final(view).well_formed(),
        final(view).doc.mode == Mode::Insert,
        final(view).doc.state == old(view).doc.state,
        final(view).doc.restore_cursor == old(view).doc.restore_cursor,
        final(view).doc.indent_hints == old(view).doc.indent_hints,
        final(view).first_line == old(view).first_line,
        final(view).registers == old(view).registers,
        final(view).size == old(view).size,
        old(view).doc.pending_clear() ==> final(view).doc.history == old(view).doc.history
            && final(view).doc.version == old(view).doc.version && final(view).doc.changes == old(
            view,
        ).doc.changes && final(view).doc.old_state == old(view).doc.old_state,
        !old(view).doc.pending_clear() ==> final(view).doc.pending_clear()
            && final(view).doc.version == old(view).doc.version + 1
            && final(view).doc.history.cursor == old(view).doc.history.cursor + 1
            && final(view).doc.history.revisions@.last().after@ == old(view).doc.state.doc@,
{
    view.doc.mode = Mode::Insert;
    view.doc.commit_pending();
}

/// Enter insert mode with every cursor at the start of its range.
pub fn insert_mode(view: &mut EditorView, count: usize)
    requires
        old(view).well_formed(),
        old(view).doc.version < u64::MAX,
    ensures
        final(view).well_formed(),
        final(view).doc.mode == Mode::Insert,
        final(view).doc.state.doc@ == old(view).doc.state.doc@,
        old(view).doc.pending_clear() ==> final(view).doc.history == old(view).doc.history
            && final(view).doc.version == old(view).doc.version && final(view).doc.changes == old(
            view,
        ).doc.changes,
        !old(view).doc.pending_clear() ==> final(view).doc.pending_clear()
            && final(view).doc.version == old(view).doc.version + 1
            && final(view).doc.history.cursor == old(view).doc.history.cursor + 1,
        ({
            let mid = Seq::new(
                old(view).doc.state.selection.ranges@.len(),
                |i: int|
                    Range {
                        anchor: (old(view).doc.state.selection.ranges@[i].to_spec()) as usize,
                        head: (old(view).doc.state.selection.ranges@[i].from_spec()) as usize,
                    },
            );
            ranges_normalized(mid) ==> final(view).doc.state.selection.ranges@ == mid
                && final(view).doc.state.selection.primary_index == old(
                view,
            ).doc.state.selection.primary_index
        }),
{
    enter_insert_mode(view);
    let ghost mid = Seq::new(
        view.doc.state.selection.ranges@.len(),
        |i: int|
            Range {
                anchor: (view.doc.state.selection.ranges@[i].to_spec()) as usize,
                head: (view.doc.state.selection.ranges@[i].from_spec()) as usize,
            },
    );
    let mut out: Vec<Range> = Vec::new();
    let mut i: usize = 0;
    while i < view.doc.state.selection.ranges.len()
        invariant
            view.well_formed(),
            i <= view.doc.state.selection.ranges@.len(),
            out@.len() == i,
            mid == Seq::new(
                view.doc.state.selection.ranges@.len(),
                |k: int|
                    Range {
                        anchor: (view.doc.state.selection.ranges@[k].to_spec()) as usize,
                        head: (view.doc.state.selection.ranges@[k].from_spec()) as usize,
                    },
            ),
            forall|k: int| 0 <= k < i ==> out@[k] == mid[k],
            forall|k: int|
                0 <= k < i ==> (#[trigger] out@[k]).anchor <= view.doc.state.doc@.len()
                    && out@[k].head <= view.doc.state.doc@.len(),
        decreases view.doc.state.selection.ranges@.len() - i,
    {
        let rg = view.doc.state.selection.ranges[i];
        out.push(Range { anchor: rg.to(), head: rg.from() });
        i = i + 1;
    }
    proof {
        assert(out@ =~= mid);
    }
    let res = Selection::new(out, view.doc.state.selection.primary_index);
    let sel = match res {
        Ok(sl) => sl,
        Err(_) => {
            proof {
                assert(false);
            }
            Selection::point(0)
        },
    };
    let ghost len0 = view.doc.state.doc@.len();
    view.doc.set_selection(sel);
    proof {
        if ranges_normalized(mid) {
            assert(ranges_in_bounds(sel.ranges@, len0));
        }
    }
}

/// Enter insert mode with every cursor just past the end of its range
/// (the next grapheme boundary after it), committing whatever was staged.
#[verifier::rlimit(100)]
#[verifier::spinoff_prover]
pub fn append_mode(view: &mut EditorView, count: usize)
    requires
        old(view).well_formed(),
        old(view).doc.version < u64::MAX,
    ensures
        final(view).well_formed(),
        final(view).doc.mode == Mode::Insert,
        final(view).doc.restore_cursor,
        final(view).doc.state.doc@ == old(view).doc.state.doc@,
        old(view).doc.pending_clear() ==> final(view).doc.history == old(view).doc.history
            && final(view).doc.version == old(view).doc.version,
        !old(view).doc.pending_clear() ==> final(view).doc.pending_clear()
            && final(view).doc.version == old(view).doc.version + 1
            && final(view).doc.history.cursor == old(view).doc.history.cursor + 1,
        ({
            let s = old(view).doc.state.doc@;
            let mid = Seq::new(
                old(view).doc.state.selection.ranges@.len(),
                |i: int|
                    Range {
                        anchor: (old(view).doc.state.selection.ranges@[i].from_spec()) as usize,
                        head: crate::graphemes::first_boundary_after(
                            crate::graphemes::cluster_lens_of(s),
                            old(view).doc.state.selection.ranges@[i].to_spec() as int,
                            0,
                        ) as usize,
                    },
            );
            ranges_normalized(mid) ==> final(view).doc.state.selection.ranges@ == mid
                && final(view).doc.state.selection.primary_index == old(
                view,
            ).doc.state.selection.primary_index
        }),
{
    enter_insert_mode(view);
    view.doc.restore_cursor = true;
    let ghost s = view.doc.state.doc@;
    let ghost rs = view.doc.state.selection.ranges@;
    let ghost mid = Seq::new(
        rs.len(),
        |i: int|
            Range {
                anchor: (rs[i].from_spec()) as usize,
                head: crate::graphemes::first_boundary_after(
                    crate::graphemes::cluster_lens_of(s),
                    rs[i].to_spec() as int,
                    0,
                ) as usize,
            },
    );
    let mut out: Vec<Range> = Vec::new();
    let mut i: usize = 0;
    while i < view.doc.state.selection.ranges.len()
        invariant
            view.well_formed(),
            s == view.doc.state.doc@,
            rs == view.doc.state.selection.ranges@,
            mid == Seq::new(
                rs.len(),
                |k: int|
                    Range {
                        anchor: (rs[k].from_spec()) as usize,
                        head: crate::graphemes::first_boundary_after(
                            crate::graphemes::cluster_lens_of(s),
                            rs[k].to_spec() as int,
                            0,
                        ) as usize,
                    },
            ),
            i <= rs.len(),
            out@.len() == i,
            forall|k: int| 0 <= k < i ==> out@[k] == mid[k],
            forall|k: int|
                0 <= k < i ==> (#[trigger] out@[k]).anchor <= s.len() && out@[k].head <= s.len(),
        decreases rs.len() - i,
    {
        let rg = view.doc.state.selection.ranges[i];
        let e = next_grapheme_boundary(&view.doc.state.doc, rg.to());
        out.push(Range { anchor: rg.from(), head: e });
        i = i + 1;
    }
    proof {
        assert(out@ =~= mid);
    }
    let res = Selection::new(out, view.doc.state.selection.primary_index);
    let sel = match res {
        Ok(sl) => sl,
        Err(_) => {
            proof {
                assert(false);
            }
            Selection::point(0)
        },
    };
    view.doc.set_selection(sel);
    proof {
        if ranges_normalized(mid) {
            assert(ranges_in_bounds(sel.ranges@, s.len()));
        }
    }
}

/// Return to normal mode: flush the staged edits into one history
/// revision and, when leaving an append-style insertion, pull each cursor
/// back one grapheme so it rests on the last typed character.
#[verifier::rlimit(100)]
#[verifier::spinoff_prover]
pub fn normal_mode(view: &mut EditorView, count: usize)
    requires
        old(view).well_formed(),
        old(view).doc.version < u64::MAX,
    ensures
        final(view).well_formed(),
        final(view).doc.mode == Mode::Normal,
        final(view).doc.state.doc@ == old(view).doc.state.doc@,
        !final(view).doc.restore_cursor,
        old(view).doc.pending_clear() ==> final(view).doc.history == old(view).doc.history
            && final(view).doc.version == old(view).doc.version,
        !old(view).doc.pending_clear() ==> final(view).doc.pending_clear()
            && final(view).doc.version == old(view).doc.version + 1
            && final(view).doc.history.cursor == old(view).doc.history.cursor + 1
            && final(view).doc.history.revisions@.last().after@ == old(view).doc.state.doc@,
        !old(view).doc.restore_cursor ==> final(view).doc.state.selection == old(
            view,
        ).doc.state.selection,
        old(view).doc.restore_cursor ==> ({
            let s = old(view).doc.state.doc@;
            let mid = Seq::new(
                old(view).doc.state.selection.ranges@.len(),
                |i: int|
                    Range {
                        anchor: (old(view).doc.state.selection.ranges@[i].from_spec()) as usize,
                        head: crate::graphemes::last_boundary_before(
                            crate::graphemes::cluster_lens_of(s),
                            old(view).doc.state.selection.ranges@[i].to_spec() as int,
                            0,
                        ) as usize,
                    },
            );
            ranges_normalized(mid) ==> final(view).doc.state.selection.ranges@ == mid
                && final(view).doc.state.selection.primary_index == old(
                view,
            ).doc.state.selection.primary_index
        }),
{
    view.doc.mode = Mode::Normal;
    view.doc.commit_pending();
    if view.doc.restore_cursor {
        let ghost s = view.doc.state.doc@;
        let ghost rs = view.doc.state.selection.ranges@;
        let ghost mid = Seq::new(
            rs.len(),
            |i: int|
                Range {
                    anchor: (rs[i].from_spec()) as usize,
                    head: crate::graphemes::last_boundary_before(
                        crate::graphemes::cluster_lens_of(s),
                        rs[i].to_spec() as int,
                        0,
                    ) as usize,
                },
        );
        let mut out: Vec<Range> = Vec::new();
        let mut i: usize = 0;
        while i < view.doc.state.selection.ranges.len()
            invariant
                view.well_formed(),
                s == view.doc.state.doc@,
                rs == view.doc.state.selection.ranges@,
                mid == Seq::new(
                    rs.len(),
                    |k: int|
                        Range {
                            anchor: (rs[k].from_spec()) as usize,
                            head: crate::graphemes::last_boundary_before(
                                crate::graphemes::cluster_lens_of(s),
                                rs[k].to_spec() as int,
                                0,
                            ) as usize,
                        },
                ),
                i <= rs.len(),
                out@.len() == i,
                forall|k: int| 0 <= k < i ==> out@[k] == mid[k],
                forall|k: int|
                    0 <= k < i ==> (#[trigger] out@[k]).anchor <= s.len() && out@[k].head
                        <= s.len(),
            decreases rs.len() - i,
        {
            let rg = view.doc.state.selection.ranges[i];
            let e = prev_grapheme_boundary(&view.doc.state.doc, rg.to());
            out.push(Range { anchor: rg.from(), head: e });
            i = i + 1;
        }
        proof {
            assert(out@ =~= mid);
        }
        let res = Selection::new(out, view.doc.state.selection.primary_index);
        let sel = match res {
            Ok(sl) => sl,
            Err(_) => {
                proof {
                    assert(false);
                }
                Selection::point(0)
            },
        };
        view.doc.set_selection(sel);
        view.doc.restore_cursor = false;
        proof {
            if ranges_normalized(mid) {
                assert(ranges_in_bounds(sel.ranges@, s.len()));
            }
        }
    }
}

/// Enter insert mode with one cursor at the start of every selected line.
pub fn prepend_to_line(view: &mut EditorView, count: usize)
    requires
        old(view).well_formed(),
        old(view).doc.version < u64::MAX,
        old(view).doc.state.doc@.len() < usize::MAX,
    ensures
        final(view).well_formed(),
        final(view).doc.mode == Mode::Insert,
        final(view).doc.state.doc@ == old(view).doc.state.doc@,
        old(view).doc.pending_clear() ==> final(view).doc.history == old(view).doc.history
            && final(view).doc.version == old(view).doc.version,
        !old(view).doc.pending_clear() ==> final(view).doc.pending_clear()
            && final(view).doc.version == old(view).doc.version + 1
            && final(view).doc.history.cursor == old(view).doc.history.cursor + 1,
        exists|lines: Seq<usize>|
            #[trigger] per_line_start_ok(old(view).doc.state, *final(view), lines),
{
    enter_insert_mode(view);
    move_line_start(view, count);
    proof {
        let lines = choose|lines: Seq<usize>|
            #[trigger] per_line_start_ok(old(view).doc.state, *view, lines);
        assert(per_line_start_ok(old(view).doc.state, *view, lines));
    }
}

/// Enter insert mode with one cursor at the end of every selected line.
pub fn append_to_line(view: &mut EditorView, count: usize)
    requires
        old(view).well_formed(),
        old(view).doc.version < u64::MAX,
        old(view).doc.state.doc@.len() < usize::MAX,
    ensures
        final(view).well_formed(),
        final(view).doc.mode == Mode::Insert,
        final(view).doc.state.doc@ == old(view).doc.state.doc@,
        old(view).doc.pending_clear() ==> final(view).doc.history == old(view).doc.history
            && final(view).doc.version == old(view).doc.version,
        !old(view).doc.pending_clear() ==> final(view).doc.pending_clear()
            && final(view).doc.version == old(view).doc.version + 1
            && final(view).doc.history.cursor == old(view).doc.history.cursor + 1,
        exists|lines: Seq<usize>|
            #[trigger] per_line_end_ok(old(view).doc.state, *final(view), lines),
{
    enter_insert_mode(view);
    move_line_end(view, count);
    proof {
        let lines = choose|lines: Seq<usize>|
            #[trigger] per_line_end_ok(old(view).doc.state, *view, lines);
        assert(per_line_end_ok(old(view).doc.state, *view, lines));
    }
}

/// Commit the staged edits of the view's document, if any, as one
/// history revision recorded against the snapshot of the last commit.
pub fn append_changes_to_history(view: &mut EditorView)
    requires
        old(view).well_formed(),
        old(view).doc.version < u64::MAX,
    ensures
        final(view).well_formed(),
        final(view).doc.state == old(view).doc.state,
        final(view).doc.mode == old(view).doc.mode,
        final(view).first_line == old(view).first_line,
        final(view).registers == old(view).registers,
        old(view).doc.pending_clear() ==> final(view).doc == old(view).doc,
        !old(view).doc.pending_clear() ==> ({
            let rev = final(view).doc.history.revisions@.last();
            &&& final(view).doc.pending_clear()
            &&& final(view).doc.version == old(view).doc.version + 1
            &&& final(view).doc.history.cursor == old(view).doc.history.cursor + 1
            &&& final(view).doc.history.revisions@.len() == old(view).doc.history.cursor + 1
            &&& rev.before@ == old(view).doc.old_state.doc@
            &&& rev.after@ == old(view).doc.state.doc@
            &&& match rev.revert.selection {
                Option::Some(sb) => sb.ranges@ == old(view).doc.old_state.selection.ranges@
                    && sb.primary_index == old(view).doc.old_state.selection.primary_index,
                Option::None => false,
            }
            &&& match rev.transaction.selection {
                Option::Some(sa) => sa.ranges@ == old(view).doc.state.selection.ranges@
                    && sa.primary_index == old(view).doc.state.selection.primary_index,
                Option::None => false,
            }
            &&& final(view).doc.old_state.doc@ == old(view).doc.state.doc@
            &&& final(view).doc.old_state.selection.ranges@ == old(
                view,
            ).doc.state.selection.ranges@
        }),
{
    view.doc.commit_pending();
}

/// Undo the last committed revision, restoring its pre-edit text and
/// selection exactly; with nothing to undo, the view is untouched.
pub fn undo(view: &mut EditorView, count: usize)
    requires
        old(view).well_formed(),
        old(view).doc.pending_clear(),
        old(view).doc.version < u64::MAX,
    ensures
        final(view).well_formed(),
        final(view).doc.pending_clear(),
        final(view).doc.mode == old(view).doc.mode,
        final(view).doc.history.revisions@ == old(view).doc.history.revisions@,
        final(view).first_line == old(view).first_line,
        final(view).registers == old(view).registers,
        old(view).doc.history.cursor == 0 ==> *final(view) == *old(view),
        old(view).doc.history.cursor > 0 ==> ({
            let rev = old(view).doc.history.revisions@[old(view).doc.history.cursor - 1];
            &&& final(view).doc.state.doc@ == rev.before@
            &&& match rev.revert.selection {
                Option::Some(s) => final(view).doc.state.selection.ranges@ == s.ranges@
                    && final(view).doc.state.selection.primary_index == s.primary_index,
                Option::None => false,
            }
            &&& final(view).doc.history.cursor == old(view).doc.history.cursor - 1
            &&& final(view).doc.version == old(view).doc.version + 1
        }),
{
    let _ = view.doc.undo();
}

/// Redo the next revision, restoring its post-edit text and selection
/// exactly; with nothing to redo (for instance after a commit discarded
/// the redo tail), the view is untouched.
pub fn redo(view: &mut EditorView, count: usize)
    requires
        old(view).well_formed(),
        old(view).doc.pending_clear(),
        old(view).doc.version < u64::MAX,
    ensures
        final(view).well_formed(),
        final(view).doc.pending_clear(),
        final(view).doc.mode == old(view).doc.mode,
        final(view).doc.history.revisions@ == old(view).doc.history.revisions@,
        final(view).first_line == old(view).first_line,
        final(view).registers == old(view).registers,
        old(view).doc.history.cursor == old(view).doc.history.revisions@.len()
            ==> *final(view) == *old(view),
        old(view).doc.history.cursor < old(view).doc.history.revisions@.len() ==> ({
            let rev = old(view).doc.history.revisions@[old(view).doc.history.cursor as int];
            &&& final(view).doc.state.doc@ == rev.after@
            &&& match rev.transaction.selection {
                Option::Some(s) => final(view).doc.state.selection.ranges@ == s.ranges@
                    && final(view).doc.state.selection.primary_index == s.primary_index,
                Option::None => false,
            }
            &&& final(view).doc.history.cursor == old(view).doc.history.cursor + 1
            &&& final(view).doc.version == old(view).doc.version + 1
        }),
{
    let _ = view.doc.redo();
}

/// The edits that remove every selected span, end inclusive.
pub open spec fn delete_edits(rs: Seq<Range>, len: nat) -> Seq<SpecEdit> {
    Seq::new(
        rs.len(),
        |i: int|
            SpecEdit {
                from: rs[i].from_spec(),
                to: if rs[i].to_spec() + 1 <= len {
                    (rs[i].to_spec() + 1) as nat
                } else {
                    len
                },
                ins: Seq::empty(),
            },
    )
}

/// Characters removed by the first `k` edits.
pub open spec fn removed_prefix(des: Seq<SpecEdit>, k: int) -> nat
    decreases k,
{
    if k <= 0 {
        0
    } else {
        removed_prefix(des, k - 1) + (if des[k - 1].to >= des[k - 1].from {
            (des[k - 1].to - des[k - 1].from) as nat
        } else {
            0
        })
    }
}

/// Where each deleted span collapses to: its start, shifted left by
/// everything removed before it.
pub open spec fn delete_points(des: Seq<SpecEdit>) -> Seq<Range> {
    Seq::new(
        des.len(),
        |i: int|
            point_at(
                if des[i].from >= removed_prefix(des, i) {
                    (des[i].from - removed_prefix(des, i)) as nat
                } else {
                    0
                },
            ),
    )
}

/// What a one-shot edit command did to the history: either the edit was
/// committed as exactly one new revision recording the pre-edit text and
/// selection, or it changed nothing and nothing was committed.
pub open spec fn one_shot_commit_ok(oldv: EditorView, newv: EditorView) -> bool {
    &&& newv.doc.pending_clear()
    &&& ((newv.doc.version == oldv.doc.version + 1 && ({
        let rev = newv.doc.history.revisions@.last();
        &&& newv.doc.history.cursor == oldv.doc.history.cursor + 1
        &&& newv.doc.history.revisions@.len() == oldv.doc.history.cursor + 1
        &&& rev.before@ == oldv.doc.state.doc@
        &&& rev.after@ == newv.doc.state.doc@
        &&& match rev.revert.selection {
            Option::Some(sb) => sb.ranges@ == oldv.doc.state.selection.ranges@
                && sb.primary_index == oldv.doc.state.selection.primary_index,
            Option::None => false,
        }
    })) || (newv.doc.version == oldv.doc.version && newv.doc.state.doc@ == oldv.doc.state.doc@
        && newv.doc.history == oldv.doc.history))
}

/// The collapsed cursors of a valid end-inclusive delete, computed by
/// shifting each span start left by everything removed before it.
#[verifier::rlimit(100)]
#[verifier::spinoff_prover]
fn delete_collapse_points(ranges: &Vec<Range>, len: usize, Ghost(des): Ghost<Seq<SpecEdit>>) -> (r:
    Vec<Range>)
    requires
        des == delete_edits(ranges@, len as nat),
        edits_valid(des, len as nat),
        forall|i: int|
            0 <= i < ranges@.len() ==> (#[trigger] ranges@[i]).anchor <= len && ranges@[i].head
                <= len,
    ensures
        r@ == delete_points(des),
        r@.len() == ranges@.len(),
        forall|k: int|
            0 <= k < r@.len() ==> (#[trigger] r@[k]).anchor <= len && r@[k].head <= len,
{
    let ghost mid = delete_points(des);
    let mut points: Vec<Range> = Vec::new();
    let mut acc: usize = 0;
    let mut j: usize = 0;
    while j < ranges.len()
        invariant
            des == delete_edits(ranges@, len as nat),
            edits_valid(des, len as nat),
            forall|i: int|
                0 <= i < ranges@.len() ==> (#[trigger] ranges@[i]).anchor <= len
                    && ranges@[i].head <= len,
            mid == delete_points(des),
            j <= ranges@.len(),
            points@.len() == j,
            acc == removed_prefix(des, j as int),
            j > 0 ==> acc <= des[j - 1].to,
            j == 0 ==> acc == 0,
            forall|k: int| 0 <= k < j ==> points@[k] == mid[k],
            forall|k: int|
                0 <= k < j ==> (#[trigger] points@[k]).anchor <= len && points@[k].head <= len,
        decreases ranges@.len() - j,
    {
        let rg = ranges[j];
        let to1 = if rg.to() < len {
            rg.to() + 1
        } else {
            len
        };
        proof {
            assert(des[j as int].from == rg.from_spec());
            assert(des[j as int].to == to1 as nat);
            if j > 0 {
                assert(des[j - 1].to <= des[j as int].from);
            }
        }
        let pos = if rg.from() >= acc {
            rg.from() - acc
        } else {
            0
        };
        points.push(Range { anchor: pos, head: pos });
        proof {
            assert(removed_prefix(des, j as int + 1) == removed_prefix(des, j as int) + (to1
                - rg.from_spec()) as nat);
        }
        acc = acc + (to1 - rg.from());
        j = j + 1;
    }
    proof {
        assert(points@ =~= mid);
    }
    points
}

/// Delete every selected span (the character under each cursor included),
/// collapse each cursor onto its deletion point, and commit the edit as
/// one revision recording the pre-delete selection.  Overlapping spans
/// (adjacent cursors under the end-inclusive delete) are a caller
/// contract violation: the document is then left untouched rather than
/// partially edited.
#[verifier::rlimit(100)]
#[verifier::spinoff_prover]
pub fn delete_selection(view: &mut EditorView, count: usize)
    requires
        old(view).well_formed(),
        old(view).doc.pending_clear(),
        old(view).doc.version < u64::MAX,
    ensures
        final(view).well_formed(),
        final(view).doc.mode == old(view).doc.mode,
        final(view).doc.version <= old(view).doc.version + 1,
        ({
            let des = delete_edits(
                old(view).doc.state.selection.ranges@,
                old(view).doc.state.doc@.len(),
            );
            &&& (!edits_valid(des, old(view).doc.state.doc@.len())
                ==> *final(view) == *old(view))
            &&& (edits_valid(des, old(view).doc.state.doc@.len()) ==> ({
                &&& final(view).doc.state.doc@ == edits_applied(
                    des,
                    old(view).doc.state.doc@,
                    0,
                )
                &&& one_shot_commit_ok(*old(view), *final(view))
                &&& ({
                    let mid = delete_points(des);
                    ranges_normalized(mid) ==> final(view).doc.state.selection.ranges@
                        == clamp_ranges(mid, final(view).doc.state.doc@.len())
                        && final(view).doc.state.selection.primary_index == old(
                        view,
                    ).doc.state.selection.primary_index
                })
            }))
        }),
{
    let ghost des = delete_edits(
        view.doc.state.selection.ranges@,
        view.doc.state.doc@.len(),
    );
    let len = view.doc.state.doc.len();
    let mut edits: Vec<Edit> = Vec::new();
    let mut i: usize = 0;
    while i < view.doc.state.selection.ranges.len()
        invariant
            view.well_formed(),
            view == old(view),
            len == view.doc.state.doc@.len(),
            des == delete_edits(view.doc.state.selection.ranges@, view.doc.state.doc@.len()),
            i <= view.doc.state.selection.ranges@.len(),
            edits@.len() == i,
            forall|k: int| 0 <= k < i ==> edit_views(edits@)[k] == des[k],
        decreases view.doc.state.selection.ranges@.len() - i,
    {
        let rg = view.doc.state.selection.ranges[i];
        let to1 = if rg.to() < len {
            rg.to() + 1
        } else {
            len
        };
        edits.push(Edit { from: rg.from(), to: to1, insert: None });
        proof {
            assert(edit_views(edits@)[i as int] == crate::transaction::edit_view(
                edits@[i as int],
            ));
        }
        i = i + 1;
    }
    proof {
        assert(edit_views(edits@) =~= des);
    }
    let res = Transaction::change(&view.doc.state, edits);
    match res {
        Ok(tx) => {
            proof {
                crate::changeset::lemma_identity_shape_applies(
                    view.doc.changes.ops@,
                    view.doc.old_state.doc@,
                );
            }
            view.doc.snapshot_before_edit();
            let points = delete_collapse_points(
                &view.doc.state.selection.ranges,
                len,
                Ghost(des),
            );
            let sres = Selection::new(points, view.doc.state.selection.primary_index);
            let sel = match sres {
                Ok(sl) => sl,
                Err(_) => {
                    proof {
                        assert(false);
                    }
                    Selection::point(0)
                },
            };
            let tx2 = tx.with_selection(sel);
            view.doc.apply(&tx2);
            let ghost pre = *view;
            view.doc.commit_pending();
            proof {
                if pre.doc.pending_clear() {
                    crate::changeset::lemma_identity_shape_applies(
                        pre.doc.changes.ops@,
                        pre.doc.old_state.doc@,
                    );
                }
            }
        },
        Err(_) => {},
    }
}

/// Delete every selected span, commit the deletion as one revision, and
/// enter insert mode with each cursor collapsed onto its deletion point.
#[verifier::rlimit(100)]
#[verifier::spinoff_prover]
pub fn change_selection(view: &mut EditorView, count: usize)
    requires
        old(view).well_formed(),
        old(view).doc.pending_clear(),
        old(view).doc.version < u64::MAX - 1,
    ensures
        final(view).well_formed(),
        final(view).doc.mode == Mode::Insert,
        final(view).doc.pending_clear(),
        final(view).doc.version <= old(view).doc.version + 1,
        ({
            let des = delete_edits(
                old(view).doc.state.selection.ranges@,
                old(view).doc.state.doc@.len(),
            );
            &&& (!edits_valid(des, old(view).doc.state.doc@.len())
                ==> final(view).doc.state.doc@ == old(view).doc.state.doc@)
            &&& (edits_valid(des, old(view).doc.state.doc@.len()) ==> ({
                &&& final(view).doc.state.doc@ == edits_applied(
                    des,
                    old(view).doc.state.doc@,
                    0,
                )
                &&& ({
                    let mid = delete_points(des);
                    ranges_normalized(mid) ==> final(view).doc.state.selection.ranges@
                        == clamp_ranges(mid, final(view).doc.state.doc@.len())
                        && final(view).doc.state.selection.primary_index == old(
                        view,
                    ).doc.state.selection.primary_index
                })
            }))
        }),
{
    delete_selection(view, count);
    let ghost des = delete_edits(
        old(view).doc.state.selection.ranges@,
        old(view).doc.state.doc@.len(),
    );
    let ghost inter = *view;
    insert_mode(view, count);
    proof {
        // After the delete, every range is a plain cursor, so flipping
        // anchor and head leaves the selection exactly as it was.
        let mid2 = Seq::new(
            inter.doc.state.selection.ranges@.len(),
            |i: int|
                Range {
                    anchor: (inter.doc.state.selection.ranges@[i].to_spec()) as usize,
                    head: (inter.doc.state.selection.ranges@[i].from_spec()) as usize,
                },
        );
        if edits_valid(des, old(view).doc.state.doc@.len()) {
            let mid = delete_points(des);
            if ranges_normalized(mid) {
                assert(inter.doc.state.selection.ranges@ == clamp_ranges(
                    mid,
                    inter.doc.state.doc@.len(),
                ));
                assert forall|i: int| 0 <= i < mid2.len() implies mid2[i]
                    == inter.doc.state.selection.ranges@[i] by {
                    assert(inter.doc.state.selection.ranges@[i].anchor
                        == inter.doc.state.selection.ranges@[i].head);
                }
                assert(mid2 =~= inter.doc.state.selection.ranges@);
                assert(ranges_normalized(mid2));
            }
        }
    }
}

/// `lines` lists lines touched by the selection, ascending: every listed
/// line is covered by some range, and every range's last line is listed.
pub open spec fn lines_of_ranges(st: State, lines: Seq<usize>) -> bool {
    &&& strictly_sorted(lines)
    &&& (st.selection.ranges@.len() > 0 ==> lines.len() > 0)
    &&& (forall|k: int|
        0 <= k < lines.len() ==> line_covered(st.doc@, st.selection.ranges@, #[trigger] lines[k]))
    &&& (forall|q: int|
        0 <= q < st.selection.ranges@.len() ==> exists|k: int|
            0 <= k < lines.len() && #[trigger] lines[k] == line_of(
                st.doc@,
                (#[trigger] st.selection.ranges@[q]).to_spec() as int,
            ))
}

/// Every line number touched by the current selection, ascending, without
/// duplicates.
#[verifier::rlimit(100)]
#[verifier::spinoff_prover]
pub fn get_lines(view: &EditorView) -> (r: Vec<usize>)
    requires
        view.well_formed(),
        view.doc.state.doc@.len() < usize::MAX,
    ensures
        lines_of_ranges(view.doc.state, r@),
        forall|k: int| 0 <= k < r@.len() ==> (#[trigger] r@[k]) as nat <= view.doc.state.doc@.len(),
{
    let ghost s = view.doc.state.doc@;
    let ghost rs = view.doc.state.selection.ranges@;
    let mut out: Vec<usize> = Vec::new();
    let mut j: usize = 0;
    while j < view.doc.state.selection.ranges.len()
        invariant
            view.well_formed(),
            view.doc.state.doc@.len() < usize::MAX,
            s == view.doc.state.doc@,
            rs == view.doc.state.selection.ranges@,
            j <= rs.len(),
            strictly_sorted(out@),
            forall|k: int| 0 <= k < out@.len() ==> line_covered(s, rs, #[trigger] out@[k]),
            forall|k: int| 0 <= k < out@.len() ==> (#[trigger] out@[k]) as nat <= s.len(),
            forall|q: int|
                0 <= q < j ==> exists|k: int|
                    0 <= k < out@.len() && #[trigger] out@[k] == line_of(
                        s,
                        (#[trigger] rs[q]).to_spec() as int,
                    ),
            j == 0 ==> out@.len() == 0,
            j > 0 ==> out@.len() > 0 && out@.last() == line_of(s, rs[j - 1].to_spec() as int),
        decreases rs.len() - j,
    {
        let rg = view.doc.state.selection.ranges[j];
        let start_l = char_to_line(&view.doc.state.doc, rg.from());
        let end_l = char_to_line(&view.doc.state.doc, rg.to());
        proof {
            lemma_count_mono(s, rg.from_spec() as int, rg.to_spec() as int);
            lemma_count_newlines_le(s, rg.to_spec() as int);
            if j > 0 {
                crate::selection::lemma_normalized_global(rs);
                lemma_count_mono(s, rs[j - 1].to_spec() as int, rg.from_spec() as int);
            }
        }
        let from0: usize = if j > 0 {
            let last = out[out.len() - 1];
            if start_l > last {
                start_l
            } else {
                start_l + 1
            }
        } else {
            start_l
        };
        let ghost out_before = out@;
        let mut l = from0;
        while l <= end_l
            invariant
                s.len() < usize::MAX,
                from0 <= l,
                l <= end_l + 1,
                end_l == line_of(s, rs[j as int].to_spec() as int),
                end_l as nat <= s.len(),
                start_l == line_of(s, rs[j as int].from_spec() as int),
                start_l <= end_l,
                from0 == start_l || from0 == start_l + 1,
                j < rs.len(),
                rs == view.doc.state.selection.ranges@,
                s == view.doc.state.doc@,
                strictly_sorted(out@),
                forall|k: int| 0 <= k < out@.len() ==> line_covered(s, rs, #[trigger] out@[k]),
                forall|k: int| 0 <= k < out@.len() ==> (#[trigger] out@[k]) as nat <= s.len(),
                forall|k: int| 0 <= k < out_before.len() ==> out@[k] == out_before[k],
                out@.len() >= out_before.len(),
                l > from0 ==> out@.len() > 0 && out@.last() == l - 1,
                l == from0 ==> out@ == out_before,
                out@.len() > 0 ==> out@.last() < l,
                from0 == start_l + 1 ==> out_before.len() > 0 && out_before.last() == start_l,
            decreases end_l + 1 - l,
        {
            let ghost out0 = out@;
            out.push(l);
            proof {
                assert forall|a: int, b: int| 0 <= a < b < out@.len() implies out@[a]
                    < out@[b] by {
                    if b < out@.len() - 1 {
                        assert(out@[a] == out0[a] && out@[b] == out0[b]);
                    } else {
                        assert(out@[b] == l);
                        if a < out0.len() {
                            assert(out@[a] == out0[a]);
                            if a < out0.len() - 1 {
                                assert(out0[a] < out0[out0.len() - 1]);
                            }
                        }
                    }
                }
                assert forall|k: int| 0 <= k < out@.len() implies line_covered(
                    s,
                    rs,
                    #[trigger] out@[k],
                ) by {
                    if k < out0.len() {
                        assert(out@[k] == out0[k]);
                    } else {
                        assert(out@[k] == l);
                        assert(line_of(s, rs[j as int].from_spec() as int) <= l <= line_of(
                            s,
                            rs[j as int].to_spec() as int,
                        ));
                    }
                }
            }
            l = l + 1;
        }
        proof {
            if l > from0 {
                assert(out@.last() == end_l);
            } else {
                assert(from0 == start_l + 1 && start_l == end_l);
                assert(out@ == out_before);
                assert(out@.last() == end_l);
            }
            assert forall|q: int| 0 <= q < j + 1 implies exists|k: int|
                0 <= k < out@.len() && #[trigger] out@[k] == line_of(
                    s,
                    (#[trigger] rs[q]).to_spec() as int,
                ) by {
                if q < j {
                    let k0 = choose|k: int|
                        0 <= k < out_before.len() && #[trigger] out_before[k] == line_of(
                            s,
                            rs[q].to_spec() as int,
                        );
                    assert(out@[k0] == out_before[k0]);
                } else {
                    assert(out@[out@.len() - 1] == end_l);
                }
            }
        }
        j = j + 1;
    }
    proof {
        if rs.len() > 0 {
            assert(exists|k: int|
                0 <= k < out@.len() && #[trigger] out@[k] == line_of(s, rs[0].to_spec() as int));
        }
    }
    out
}

/// The edits that put one indent unit at the start of each given line.
pub open spec fn indent_edits(s: Seq<char>, lines: Seq<usize>) -> Seq<SpecEdit> {
    Seq::new(
        lines.len(),
        |i: int|
            SpecEdit {
                from: line_start(s, lines[i] as nat),
                to: line_start(s, lines[i] as nat),
                ins: Seq::new(TAB_WIDTH as nat, |q: int| ' '),
            },
    )
}

/// Indent every selected line by one unit and commit the edit.
#[verifier::rlimit(100)]
#[verifier::spinoff_prover]
pub fn indent(view: &mut EditorView, count: usize)
    requires
        old(view).well_formed(),
        old(view).doc.pending_clear(),
        old(view).doc.version < u64::MAX,
        old(view).doc.state.doc@.len() < usize::MAX,
    ensures
        final(view).well_formed(),
        final(view).doc.mode == old(view).doc.mode,
        exists|lines: Seq<usize>|
            {
                &&& #[trigger] lines_of_ranges(old(view).doc.state, lines)
                &&& (edits_valid(
                    indent_edits(old(view).doc.state.doc@, lines),
                    old(view).doc.state.doc@.len(),
                ) ==> final(view).doc.state.doc@ == edits_applied(
                    indent_edits(old(view).doc.state.doc@, lines),
                    old(view).doc.state.doc@,
                    0,
                ) && one_shot_commit_ok(*old(view), *final(view)))
                &&& (!edits_valid(
                    indent_edits(old(view).doc.state.doc@, lines),
                    old(view).doc.state.doc@.len(),
                ) ==> *final(view) == *old(view))
            },
{
    let ghost s = view.doc.state.doc@;
    let lines = get_lines(view);
    let ghost goal = indent_edits(s, lines@);
    let mut edits: Vec<Edit> = Vec::new();
    let mut i: usize = 0;
    while i < lines.len()
        invariant
            view.well_formed(),
            view == old(view),
            s == view.doc.state.doc@,
            goal == indent_edits(s, lines@),
            i <= lines@.len(),
            edits@.len() == i,
            forall|k: int| 0 <= k < i ==> edit_views(edits@)[k] == goal[k],
        decreases lines@.len() - i,
    {
        let pos = line_to_char(&view.doc.state.doc, lines[i]);
        let mut ins: Vec<char> = Vec::new();
        let mut q: usize = 0;
        while q < TAB_WIDTH
            invariant
                q <= TAB_WIDTH,
                ins@.len() == q,
                forall|w: int| 0 <= w < q ==> ins@[w] == ' ',
            decreases TAB_WIDTH - q,
        {
            ins.push(' ');
            q = q + 1;
        }
        proof {
            assert(ins@ =~= Seq::new(TAB_WIDTH as nat, |w: int| ' '));
        }
        edits.push(Edit { from: pos, to: pos, insert: Some(ins) });
        proof {
            assert(edit_views(edits@)[i as int] == crate::transaction::edit_view(
                edits@[i as int],
            ));
        }
        i = i + 1;
    }
    proof {
        assert(edit_views(edits@) =~= goal);
    }
    let res = Transaction::change(&view.doc.state, edits);
    match res {
        Ok(tx) => {
            proof {
                crate::changeset::lemma_identity_shape_applies(
                    view.doc.changes.ops@,
                    view.doc.old_state.doc@,
                );
            }
            view.doc.snapshot_before_edit();
            view.doc.apply(&tx);
            let ghost pre = *view;
            view.doc.commit_pending();
            proof {
                if pre.doc.pending_clear() {
                    crate::changeset::lemma_identity_shape_applies(
                        pre.doc.changes.ops@,
                        pre.doc.old_state.doc@,
                    );
                }
            }
        },
        Err(_) => {},
    }
    proof {
        assert(lines_of_ranges(old(view).doc.state, lines@));
    }
}

/// The leading indentation width of the line starting at `p`, scanning
/// spaces one column at a time and rounding a tab up to the next unit,
/// stopping at one full unit.
pub open spec fn unindent_width_from(s: Seq<char>, p: nat, w: nat) -> nat
    decreases s.len() - p,
{
    if p >= s.len() {
        w
    } else if s[p as int] == ' ' {
        if w + 1 >= TAB_WIDTH as nat {
            w + 1
        } else {
            unindent_width_from(s, p + 1, w + 1)
        }
    } else if s[p as int] == '\t' {
        (w / (TAB_WIDTH as nat) + 1) * (TAB_WIDTH as nat)
    } else {
        w
    }
}

/// Measure the leading indentation of the line starting at `start`.
fn leading_width(text: &Vec<char>, start: usize) -> (r: usize)
    requires
        start <= text@.len(),
    ensures
        r == unindent_width_from(text@, start as nat, 0),
        r <= TAB_WIDTH,
{
    let tl = text.len();
    let mut p = start;
    let mut w: usize = 0;
    loop
        invariant
            w < TAB_WIDTH,
            start <= p <= tl,
            tl == text@.len(),
            unindent_width_from(text@, start as nat, 0) == unindent_width_from(
                text@,
                p as nat,
                w as nat,
            ),
        decreases tl - p,
    {
        if p >= tl {
            return w;
        }
        let c = text[p];
        if c == ' ' {
            if w + 1 >= TAB_WIDTH {
                return w + 1;
            }
            w = w + 1;
            p = p + 1;
        } else if c == '\t' {
            return (w / TAB_WIDTH + 1) * TAB_WIDTH;
        } else {
            return w;
        }
    }
}

/// The edits that strip the measured leading indentation of each line.
pub open spec fn unindent_edits(s: Seq<char>, lines: Seq<usize>) -> Seq<SpecEdit> {
    Seq::new(
        lines.len(),
        |i: int|
            SpecEdit {
                from: line_start(s, lines[i] as nat),
                to: line_start(s, lines[i] as nat) + unindent_width_from(
                    s,
                    line_start(s, lines[i] as nat),
                    0,
                ),
                ins: Seq::empty(),
            },
    )
}

/// Remove up to one indent unit from the start of every selected line and
/// commit the edit.
#[verifier::rlimit(100)]
#[verifier::spinoff_prover]
pub fn unindent(view: &mut EditorView, count: usize)
    requires
        old(view).well_formed(),
        old(view).doc.pending_clear(),
        old(view).doc.version < u64::MAX,
        old(view).doc.state.doc@.len() + TAB_WIDTH < usize::MAX,
    ensures
        final(view).well_formed(),
        final(view).doc.mode == old(view).doc.mode,
        exists|lines: Seq<usize>|
            {
                &&& #[trigger] lines_of_ranges(old(view).doc.state, lines)
                &&& (edits_valid(
                    unindent_edits(old(view).doc.state.doc@, lines),
                    old(view).doc.state.doc@.len(),
                ) ==> final(view).doc.state.doc@ == edits_applied(
                    unindent_edits(old(view).doc.state.doc@, lines),
                    old(view).doc.state.doc@,
                    0,
                ) && one_shot_commit_ok(*old(view), *final(view)))
                &&& (!edits_valid(
                    unindent_edits(old(view).doc.state.doc@, lines),
                    old(view).doc.state.doc@.len(),
                ) ==> *final(view) == *old(view))
            },
{
    let ghost s = view.doc.state.doc@;
    let lines = get_lines(view);
    let ghost goal = unindent_edits(s, lines@);
    let mut edits: Vec<Edit> = Vec::new();
    let mut i: usize = 0;
    while i < lines.len()
        invariant
            view.well_formed(),
            view == old(view),
            s == view.doc.state.doc@,
            s.len() + TAB_WIDTH < usize::MAX,
            goal == unindent_edits(s, lines@),
            i <= lines@.len(),
            edits@.len() == i,
            forall|k: int| 0 <= k < i ==> edit_views(edits@)[k] == goal[k],
        decreases lines@.len() - i,
    {
        let start = line_to_char(&view.doc.state.doc, lines[i]);
        let w = leading_width(&view.doc.state.doc, start);
        let to = start + w;
        edits.push(Edit { from: start, to, insert: None });
        proof {
            assert(edit_views(edits@)[i as int] == crate::transaction::edit_view(
                edits@[i as int],
            ));
        }
        i = i + 1;
    }
    proof {
        assert(edit_views(edits@) =~= goal);
    }
    let res = Transaction::change(&view.doc.state, edits);
    match res {
        Ok(tx) => {
            proof {
                crate::changeset::lemma_identity_shape_applies(
                    view.doc.changes.ops@,
                    view.doc.old_state.doc@,
                );
            }
            view.doc.snapshot_before_edit();
            view.doc.apply(&tx);
            let ghost pre = *view;
            view.doc.commit_pending();
            proof {
                if pre.doc.pending_clear() {
                    crate::changeset::lemma_identity_shape_applies(
                        pre.doc.changes.ops@,
                        pre.doc.old_state.doc@,
                    );
                }
            }
        },
        Err(_) => {},
    }
    proof {
        assert(lines_of_ranges(old(view).doc.state, lines@));
    }
}

/// The edits that open a fresh line below each given line.
pub open spec fn open_edits(s: Seq<char>, lines: Seq<usize>) -> Seq<SpecEdit> {
    Seq::new(
        lines.len(),
        |i: int|
            SpecEdit {
                from: line_start(s, lines[i] as nat + 1),
                to: line_start(s, lines[i] as nat + 1),
                ins: seq!['\n'],
            },
    )
}

/// The edits and cursor positions that open a line below each given line.
#[verifier::rlimit(100)]
#[verifier::spinoff_prover]
fn build_open_edits(st: &State, lines: &Vec<usize>) -> (r: (Vec<Edit>, Vec<Range>))
    requires
        st.well_formed(),
        st.doc@.len() < usize::MAX,
        lines_of_selection(*st, lines@),
    ensures
        edit_views(r.0@) == open_edits(st.doc@, lines@),
        r.1@ == Seq::new(
            lines@.len(),
            |i: int| point_at(line_start(st.doc@, lines@[i] as nat + 1)),
        ),
        r.0@.len() == lines@.len(),
        r.1@.len() == lines@.len(),
        forall|k: int|
            0 <= k < r.1@.len() ==> (#[trigger] r.1@[k]).anchor <= st.doc@.len()
                && r.1@[k].head <= st.doc@.len(),
{
    let ghost s = st.doc@;
    let ghost goal = open_edits(s, lines@);
    let ghost midp = Seq::new(lines@.len(), |i: int| point_at(line_start(s, lines@[i] as nat + 1)));
    let mut edits: Vec<Edit> = Vec::new();
    let mut positions: Vec<Range> = Vec::new();
    let mut i: usize = 0;
    while i < lines.len()
        invariant
            st.well_formed(),
            s == st.doc@,
            s.len() < usize::MAX,
            lines_of_selection(*st, lines@),
            goal == open_edits(s, lines@),
            midp == Seq::new(lines@.len(), |k: int| point_at(line_start(s, lines@[k] as nat + 1))),
            i <= lines@.len(),
            edits@.len() == i,
            positions@.len() == i,
            forall|k: int| 0 <= k < i ==> edit_views(edits@)[k] == goal[k],
            forall|k: int| 0 <= k < i ==> positions@[k] == midp[k],
            forall|k: int|
                0 <= k < i ==> (#[trigger] positions@[k]).anchor <= s.len() && positions@[k].head
                    <= s.len(),
        decreases lines@.len() - i,
    {
        proof {
            assert(head_line_covered(s, st.selection.ranges@, lines@[i as int]));
            let wj = choose|j: int|
                0 <= j < st.selection.ranges@.len() && lines@[i as int] == line_of(
                    s,
                    (#[trigger] st.selection.ranges@[j]).head as int,
                );
            lemma_count_newlines_le(s, st.selection.ranges@[wj].head as int);
        }
        let pos = line_to_char(&st.doc, lines[i] + 1);
        let mut ins: Vec<char> = Vec::new();
        ins.push('\n');
        proof {
            assert(ins@ =~= seq!['\n']);
        }
        edits.push(Edit { from: pos, to: pos, insert: Some(ins) });
        positions.push(Range { anchor: pos, head: pos });
        proof {
            assert(edit_views(edits@)[i as int] == crate::transaction::edit_view(
                edits@[i as int],
            ));
        }
        i = i + 1;
    }
    proof {
        assert(edit_views(edits@) =~= goal);
        assert(positions@ =~= midp);
    }
    (edits, positions)
}

/// Open a new line below every line with a cursor and enter insert mode
/// with one cursor on each fresh line.
#[verifier::rlimit(100)]
#[verifier::spinoff_prover]
pub fn open_below(view: &mut EditorView, count: usize)
    requires
        old(view).well_formed(),
        old(view).doc.version < u64::MAX,
        old(view).doc.state.doc@.len() < usize::MAX,
    ensures
        final(view).well_formed(),
        final(view).doc.mode == Mode::Insert,
        old(view).doc.pending_clear() ==> final(view).doc.history == old(view).doc.history,
        !old(view).doc.pending_clear() ==> final(view).doc.version >= old(view).doc.version + 1
            && final(view).doc.history.cursor == old(view).doc.history.cursor + 1,
        exists|lines: Seq<usize>|
            {
                &&& #[trigger] lines_of_selection(old(view).doc.state, lines)
                &&& (edits_valid(
                    open_edits(old(view).doc.state.doc@, lines),
                    old(view).doc.state.doc@.len(),
                ) ==> ({
                    &&& final(view).doc.state.doc@ == edits_applied(
                        open_edits(old(view).doc.state.doc@, lines),
                        old(view).doc.state.doc@,
                        0,
                    )
                    &&& ({
                        let midp = Seq::new(
                            lines.len(),
                            |i: int|
                                point_at(
                                    line_start(old(view).doc.state.doc@, lines[i] as nat + 1),
                                ),
                        );
                        ranges_normalized(midp) ==> final(view).doc.state.selection.ranges@
                            == clamp_ranges(midp, final(view).doc.state.doc@.len())
                            && final(view).doc.state.selection.primary_index == 0
                    })
                }))
                &&& (!edits_valid(
                    open_edits(old(view).doc.state.doc@, lines),
                    old(view).doc.state.doc@.len(),
                ) ==> final(view).doc.state.doc@ == old(view).doc.state.doc@)
            },
{
    let ghost s = view.doc.state.doc@;
    let lines = selection_lines(&view.doc.state);
    enter_insert_mode(view);
    let ghost goal = open_edits(s, lines@);
    let built = build_open_edits(&view.doc.state, &lines);
    let edits = built.0;
    let positions = built.1;
    proof {
        assert(lines@.len() > 0);
    }
    let res = Transaction::change(&view.doc.state, edits);
    match res {
        Ok(tx) => {
            let sres = Selection::new(positions, 0);
            let sel = match sres {
                Ok(sl) => sl,
                Err(_) => {
                    proof {
                        assert(false);
                    }
                    Selection::point(0)
                },
            };
            let tx2 = tx.with_selection(sel);
            view.doc.apply(&tx2);
        },
        Err(_) => {},
    }
    proof {
        assert(lines_of_selection(old(view).doc.state, lines@));
    }
}

/// Some yanked value ends with a line break, making the paste linewise.
pub open spec fn any_linewise(vals: Seq<Seq<char>>) -> bool {
    exists|i: int|
        0 <= i < vals.len() && (#[trigger] vals[i]).len() > 0 && vals[i][vals[i].len() - 1] == '\n'
}

/// The edits a paste makes: one insertion per range, consuming the yanked
/// values in order and repeating the last one; linewise pastes land at the
/// start of the next line, others just after the cursor.
pub open spec fn paste_edits(
    s: Seq<char>,
    rs: Seq<Range>,
    vals: Seq<Seq<char>>,
    linewise: bool,
) -> Seq<SpecEdit> {
    Seq::new(
        rs.len(),
        |i: int|
            {
                let v = if i < vals.len() {
                    vals[i]
                } else {
                    vals[vals.len() - 1]
                };
                let p = if linewise {
                    line_start(s, line_of(s, rs[i].head as int) + 1)
                } else if rs[i].head + 1 <= s.len() {
                    (rs[i].head + 1) as nat
                } else {
                    s.len()
                };
                SpecEdit { from: p, to: p, ins: v }
            },
    )
}

/// Insert the yanked texts at every cursor — after the cursor, or for
/// linewise values at the start of the next line — and commit the edit.
#[verifier::rlimit(100)]
#[verifier::spinoff_prover]
pub fn paste(view: &mut EditorView, count: usize)
    requires
        old(view).well_formed(),
        old(view).doc.pending_clear(),
        old(view).doc.version < u64::MAX,
        old(view).doc.state.doc@.len() < usize::MAX,
    ensures
        final(view).well_formed(),
        final(view).doc.mode == old(view).doc.mode,
        reg_lookup(old(view).registers.entries@, '"') is None ==> *final(view) == *old(view),
        ({
            match reg_lookup(old(view).registers.entries@, '"') {
                Option::Some(vals) => {
                    &&& (vals.len() == 0 ==> *final(view) == *old(view))
                    &&& (vals.len() > 0 ==> ({
                        let pes = paste_edits(
                            old(view).doc.state.doc@,
                            old(view).doc.state.selection.ranges@,
                            vals,
                            any_linewise(vals),
                        );
                        &&& (edits_valid(pes, old(view).doc.state.doc@.len())
                            ==> final(view).doc.state.doc@ == edits_applied(
                            pes,
                            old(view).doc.state.doc@,
                            0,
                        ) && one_shot_commit_ok(*old(view), *final(view)))
                        &&& (!edits_valid(pes, old(view).doc.state.doc@.len())
                            ==> *final(view) == *old(view))
                    }))
                },
                Option::None => true,
            }
        }),
{
    let ghost s = view.doc.state.doc@;
    let ghost rs = view.doc.state.selection.ranges@;
    let got = view.registers.get('"');
    let values = match got {
        Some(v) => v,
        None => {
            return ;
        },
    };
    if values.len() == 0 {
        return ;
    }
    let ghost vals = reg_lookup(view.registers.entries@, '"')->Some_0;
    proof {
        assert(values@.map_values(|x: Vec<char>| crate::document::chars_view(x)) == vals);
    }
    // Whether any value makes this a linewise paste.
    let mut linewise = false;
    let mut q: usize = 0;
    while q < values.len()
        invariant
            q <= values@.len(),
            vals == values@.map_values(|x: Vec<char>| crate::document::chars_view(x)),
            linewise <==> (exists|i: int|
                0 <= i < q && (#[trigger] vals[i]).len() > 0 && vals[i][vals[i].len() - 1]
                    == '\n'),
        decreases values@.len() - q,
    {
        let v = &values[q];
        if v.len() > 0 && v[v.len() - 1] == '\n' {
            linewise = true;
            proof {
                assert(vals[q as int].len() > 0 && vals[q as int][vals[q as int].len() - 1]
                    == '\n');
            }
        }
        q = q + 1;
    }
    proof {
        assert(linewise <==> any_linewise(vals));
    }
    let ghost pes = paste_edits(s, rs, vals, linewise);
    let len = view.doc.state.doc.len();
    let mut edits: Vec<Edit> = Vec::new();
    let mut i: usize = 0;
    while i < view.doc.state.selection.ranges.len()
        invariant
            view.well_formed(),
            view == old(view),
            s == view.doc.state.doc@,
            rs == view.doc.state.selection.ranges@,
            len == s.len(),
            s.len() < usize::MAX,
            values@.len() > 0,
            vals == values@.map_values(|x: Vec<char>| crate::document::chars_view(x)),
            pes == paste_edits(s, rs, vals, linewise),
            i <= rs.len(),
            edits@.len() == i,
            forall|k: int| 0 <= k < i ==> edit_views(edits@)[k] == pes[k],
        decreases rs.len() - i,
    {
        let h = view.doc.state.selection.ranges[i].head;
        let vi = if i < values.len() {
            i
        } else {
            values.len() - 1
        };
        let vcopy = crate::changeset::clone_chars(&values[vi]);
        let pos: usize = if linewise {
            let ln = char_to_line(&view.doc.state.doc, h);
            proof {
                lemma_count_newlines_le(s, h as int);
            }
            line_to_char(&view.doc.state.doc, ln + 1)
        } else {
            if h < len {
                h + 1
            } else {
                len
            }
        };
        edits.push(Edit { from: pos, to: pos, insert: Some(vcopy) });
        proof {
            assert(edit_views(edits@)[i as int] == crate::transaction::edit_view(
                edits@[i as int],
            ));
        }
        i = i + 1;
    }
    proof {
        assert(edit_views(edits@) =~= pes);
    }
    let res = Transaction::change(&view.doc.state, edits);
    match res {
        Ok(tx) => {
            proof {
                crate::changeset::lemma_identity_shape_applies(
                    view.doc.changes.ops@,
                    view.doc.old_state.doc@,
                );
            }
            view.doc.snapshot_before_edit();
            view.doc.apply(&tx);
            let ghost pre = *view;
            view.doc.commit_pending();
            proof {
                if pre.doc.pending_clear() {
                    crate::changeset::lemma_identity_shape_applies(
                        pre.doc.changes.ops@,
                        pre.doc.old_state.doc@,
                    );
                }
            }
        },
        Err(_) => {},
    }
}

/// Split every range into the pieces between its line breaks: no
/// produced span keeps a newline in its interior.
pub fn split_selection_on_newline(view: &mut EditorView, count: usize)
    requires
        old(view).well_formed(),
    ensures
        final(view).well_formed(),
        only_selection_changed(*old(view), *final(view)),
{
    let mut out: Vec<Range> = Vec::new();
    let mut j: usize = 0;
    while j < view.doc.state.selection.ranges.len()
        invariant
            view.well_formed(),
            view == old(view),
            j <= view.doc.state.selection.ranges@.len(),
            out@.len() >= j,
            forall|k: int|
                0 <= k < out@.len() ==> (#[trigger] out@[k]).anchor <= view.doc.state.doc@.len()
                    && out@[k].head <= view.doc.state.doc@.len(),
        decreases view.doc.state.selection.ranges@.len() - j,
    {
        let rg = view.doc.state.selection.ranges[j];
        let start = rg.from();
        let to = rg.to();
        let mut seg_start = start;
        let mut p = start;
        while p < to
            invariant
                view.well_formed(),
                view == old(view),
                j < view.doc.state.selection.ranges@.len(),
                rg == view.doc.state.selection.ranges@[j as int],
                start == rg.from_spec(),
                to == rg.to_spec(),
                to <= view.doc.state.doc@.len(),
                out@.len() >= j,
                start <= seg_start <= p <= to,
                forall|k: int|
                    0 <= k < out@.len() ==> (#[trigger] out@[k]).anchor
                        <= view.doc.state.doc@.len() && out@[k].head
                        <= view.doc.state.doc@.len(),
            decreases to - p,
        {
            if view.doc.state.doc[p] == '\n' {
                out.push(Range { anchor: seg_start, head: p });
                seg_start = p + 1;
            }
            p = p + 1;
        }
        out.push(Range { anchor: seg_start, head: to });
        j = j + 1;
    }
    let res = Selection::new(out, view.doc.state.selection.primary_index);
    let sel = match res {
        Ok(sl) => sl,
        Err(_) => {
            proof {
                assert(false);
            }
            Selection::point(0)
        },
    };
    view.doc.set_selection(sel);
}

} // verus!