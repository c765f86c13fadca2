//! Insert-mode commands: typing characters, newlines with indentation,
//! and deleting around the cursors.  Their edits stay staged until the
//! mode machine returns to normal mode.

use vstd::prelude::*;

use crate::commands::TAB_WIDTH;
use crate::document::{clamp_ranges, EditorView};
use crate::graphemes::{
    nth_next_boundary, nth_next_grapheme_boundary, nth_prev_boundary, nth_prev_grapheme_boundary,
};
use crate::selection::{ranges_normalized, Range, Selection};
use crate::transaction::{
    edit_views, edits_applied, edits_valid, insert_edits, Edit, SpecEdit, Transaction,
};

verus! {

/// Sum of the first `k` insertion lengths.
pub open spec fn lens_prefix(lens: Seq<nat>, k: int) -> nat
    decreases k,
{
    if k <= 0 {
        0
    } else {
        lens_prefix(lens, k - 1) + lens[k - 1]
    }
}

/// A uniform length list sums to count times the length.
pub proof fn lemma_uniform_total(n: nat, len: nat, k: int)
    requires
        0 <= k <= n,
    ensures
        lens_prefix(uniform_lens(n, len), k) == k * len,
    decreases k,
{
    if k > 0 {
        lemma_uniform_total(n, len, k - 1);
        assert(uniform_lens(n, len)[k - 1] == len);
        assert(lens_prefix(uniform_lens(n, len), k) == lens_prefix(uniform_lens(n, len), k - 1)
            + uniform_lens(n, len)[k - 1]);
        assert((k - 1) * len + len == k * len) by (nonlinear_arith);
        assert(lens_prefix(uniform_lens(n, len), k) == k * len);
    } else {
        assert(k * len == 0) by (nonlinear_arith)
            requires
                k == 0,
        ;
    }
}

pub proof fn lemma_lens_prefix_le(lens: Seq<nat>, i: int, j: int)
    requires
        0 <= i <= j,
    ensures
        lens_prefix(lens, i) <= lens_prefix(lens, j),
    decreases j - i,
{
    if i < j {
        lemma_lens_prefix_le(lens, i, j - 1);
    }
}

/// Where the ranges land after inserting `lens[i]` characters at the head
/// of range `i`, in ascending order: a cursor sits just after what it
/// inserted, and an anchor shifts with the text around it.
pub open spec fn shifted_ranges(rs: Seq<Range>, lens: Seq<nat>) -> Seq<Range> {
    Seq::new(
        rs.len(),
        |i: int|
            Range {
                anchor: (rs[i].anchor + lens_prefix(lens, i) + (if rs[i].head <= rs[i].anchor {
                    lens[i]
                } else {
                    0
                })) as usize,
                head: (rs[i].head + lens_prefix(lens, i + 1)) as usize,
            },
    )
}

/// The same insertion length at every cursor.
pub open spec fn uniform_lens(n: nat, len: nat) -> Seq<nat> {
    Seq::new(n, |i: int| len)
}

/// Insert `text` at every cursor head, in ascending order, and place each
/// cursor just after its insertion.
#[verifier::rlimit(100)]
#[verifier::spinoff_prover]
fn insert_at_heads(view: &mut EditorView, text: Vec<char>)
    requires
        old(view).well_formed(),
        old(view).doc.state.doc@.len() + old(view).doc.state.selection.ranges@.len()
            * text@.len() <= usize::MAX,
    ensures
        final(view).well_formed(),
        final(view).doc.mode == old(view).doc.mode,
        final(view).doc.history == old(view).doc.history,
        final(view).doc.version == old(view).doc.version,
        final(view).doc.old_state == old(view).doc.old_state,
        final(view).first_line == old(view).first_line,
        final(view).doc.state.doc@ == edits_applied(
            insert_edits(old(view).doc.state.selection.ranges@, text@),
            old(view).doc.state.doc@,
            0,
        ),
        ({
            let rs = old(view).doc.state.selection.ranges@;
            let mid = shifted_ranges(rs, uniform_lens(rs.len(), text@.len()));
            ranges_normalized(mid) ==> final(view).doc.state.selection.ranges@ == clamp_ranges(
                mid,
                final(view).doc.state.doc@.len(),
            ) && final(view).doc.state.selection.primary_index == old(
                view,
            ).doc.state.selection.primary_index
        }),
    {
    let ghost rs = view.doc.state.selection.ranges@;
    let ghost lens = uniform_lens(rs.len(), text@.len());
    let ghost mid = shifted_ranges(rs, lens);
    let ln = text.len();
    let mut points: Vec<Range> = Vec::new();
    let mut off: usize = 0;
    let mut i: usize = 0;
    while i < view.doc.state.selection.ranges.len()
        invariant
            view.well_formed(),
            view == old(view),
            rs == view.doc.state.selection.ranges@,
            ln == text@.len(),
            view.doc.state.doc@.len() + rs.len() * ln <= usize::MAX,
            lens == uniform_lens(rs.len(), ln as nat),
            mid == shifted_ranges(rs, lens),
            i <= rs.len(),
            points@.len() == i,
            off == lens_prefix(lens, i as int),
            forall|k: int| 0 <= k < i ==> points@[k] == mid[k],
        decreases rs.len() - i,
    {
        let rg = view.doc.state.selection.ranges[i];
        proof {
            assert(lens[i as int] == ln as nat);
            assert(lens_prefix(lens, i as int + 1) == lens_prefix(lens, i as int)
                + lens[i as int]);
            lemma_lens_prefix_le(lens, i as int + 1, rs.len() as int);
            lemma_uniform_total(rs.len(), ln as nat, rs.len() as int);
            assert(rg.anchor <= view.doc.state.doc@.len());
            assert(rg.head <= view.doc.state.doc@.len());
        }
        let new_head = rg.head + (off + ln);
        let new_anchor = rg.anchor + off + (if rg.head <= rg.anchor {
            ln
        } else {
            0
        });
        points.push(Range { anchor: new_anchor, head: new_head });
        off = off + ln;
        i = i + 1;
    }
    proof {
        assert(points@ =~= mid);
    }
    let tx = Transaction::insert(&view.doc.state, text);
    let res = Selection::new(points, view.doc.state.selection.primary_index);
    let sel = match res {
        Ok(sl) => sl,
        Err(_) => {
            proof {
                assert(false);
            }
            Selection::point(0)
        },
    };
    let tx2 = tx.with_selection(sel);
    view.doc.apply(&tx2);
}

/// Insert `c` at every cursor head, in ascending order; each cursor ends
/// just after its inserted character.
pub fn insert_char(view: &mut EditorView, c: char)
    requires
        old(view).well_formed(),
        old(view).doc.state.doc@.len() + old(view).doc.state.selection.ranges@.len()
            <= usize::MAX,
    ensures
        final(view).well_formed(),
        final(view).doc.mode == old(view).doc.mode,
        final(view).doc.history == old(view).doc.history,
        final(view).doc.version == old(view).doc.version,
        final(view).doc.state.doc@ == edits_applied(
            insert_edits(old(view).doc.state.selection.ranges@, seq![c]),
            old(view).doc.state.doc@,
            0,
        ),
        ({
            let rs = old(view).doc.state.selection.ranges@;
            let mid = shifted_ranges(rs, uniform_lens(rs.len(), 1));
            ranges_normalized(mid) ==> final(view).doc.state.selection.ranges@ == clamp_ranges(
                mid,
                final(view).doc.state.doc@.len(),
            ) && final(view).doc.state.selection.primary_index == old(
                view,
            ).doc.state.selection.primary_index
        }),
{
    let mut text: Vec<char> = Vec::new();
    text.push(c);
    proof {
        assert(text@ =~= seq![c]);
        assert(text@.len() == 1);
        let n = view.doc.state.selection.ranges@.len();
        assert(n * 1 == n) by (nonlinear_arith);
        assert(n * text@.len() == n);
    }
    insert_at_heads(view, text);
}

/// Insert a tab character at every cursor; the staged changes and history
/// are left as `insert_char` leaves them.
pub fn insert_tab(view: &mut EditorView, count: usize)
    requires
        old(view).well_formed(),
        old(view).doc.state.doc@.len() + old(view).doc.state.selection.ranges@.len()
            <= usize::MAX,
    ensures
        final(view).well_formed(),
        final(view).doc.mode == old(view).doc.mode,
        final(view).doc.history == old(view).doc.history,
        final(view).doc.version == old(view).doc.version,
        final(view).doc.state.doc@ == edits_applied(
            insert_edits(old(view).doc.state.selection.ranges@, seq!['\t']),
            old(view).doc.state.doc@,
            0,
        ),
        ({
            let rs = old(view).doc.state.selection.ranges@;
            let mid = shifted_ranges(rs, uniform_lens(rs.len(), 1));
            ranges_normalized(mid) ==> final(view).doc.state.selection.ranges@ == clamp_ranges(
                mid,
                final(view).doc.state.doc@.len(),
            ) && final(view).doc.state.selection.primary_index == old(
                view,
            ).doc.state.selection.primary_index
        }),
{
    insert_char(view, '\t');
}

/// A line break followed by the indentation the external hint provider
/// asked for: `level` units of `TAB_WIDTH` spaces.
pub open spec fn newline_text(level: nat) -> Seq<char> {
    Seq::new(
        1 + TAB_WIDTH as nat * level,
        |i: int|
            if i == 0 {
                '\n'
            } else {
                ' '
            },
    )
}

/// The hint level for cursor `i`: what the provider stored, or zero.
pub open spec fn hint_at(hints: Seq<usize>, i: int) -> nat {
    if 0 <= i < hints.len() {
        hints[i] as nat
    } else {
        0
    }
}

/// The per-cursor insertion lengths of a newline command.
pub open spec fn newline_lens(n: nat, hints: Seq<usize>) -> Seq<nat> {
    Seq::new(n, |i: int| 1 + TAB_WIDTH as nat * hint_at(hints, i))
}

/// The edits of a newline command: at each head, a line break plus that
/// cursor's suggested indentation.
pub open spec fn newline_edits(rs: Seq<Range>, hints: Seq<usize>) -> Seq<SpecEdit> {
    Seq::new(
        rs.len(),
        |i: int|
            SpecEdit {
                from: rs[i].head as nat,
                to: rs[i].head as nat,
                ins: newline_text(hint_at(hints, i)),
            },
    )
}

/// Insert a newline at every cursor, followed by the indentation the
/// external hint provider suggested for that cursor.
#[verifier::rlimit(100)]
#[verifier::spinoff_prover]
pub fn insert_newline(view: &mut EditorView, count: usize)
    requires
        old(view).well_formed(),
        old(view).doc.state.doc@.len() + lens_prefix(
            newline_lens(
                old(view).doc.state.selection.ranges@.len(),
                old(view).doc.indent_hints@,
            ),
            old(view).doc.state.selection.ranges@.len() as int,
        ) <= usize::MAX,
    ensures
        final(view).well_formed(),
        final(view).doc.mode == old(view).doc.mode,
        final(view).doc.history == old(view).doc.history,
        final(view).doc.version == old(view).doc.version,
        final(view).doc.state.doc@ == edits_applied(
            newline_edits(old(view).doc.state.selection.ranges@, old(view).doc.indent_hints@),
            old(view).doc.state.doc@,
            0,
        ),
        ({
            let rs = old(view).doc.state.selection.ranges@;
            let mid = shifted_ranges(
                rs,
                newline_lens(rs.len(), old(view).doc.indent_hints@),
            );
            ranges_normalized(mid) ==> final(view).doc.state.selection.ranges@ == clamp_ranges(
                mid,
                final(view).doc.state.doc@.len(),
            ) && final(view).doc.state.selection.primary_index == old(
                view,
            ).doc.state.selection.primary_index
        }),
{
    let ghost s = view.doc.state.doc@;
    let ghost rs = view.doc.state.selection.ranges@;
    let ghost hints = view.doc.indent_hints@;
    let ghost lens = newline_lens(rs.len(), hints);
    let ghost goal = newline_edits(rs, hints);
    let ghost mid = shifted_ranges(rs, lens);
    let mut edits: Vec<Edit> = Vec::new();
    let mut points: Vec<Range> = Vec::new();
    let mut off: usize = 0;
    let mut i: usize = 0;
    while i < view.doc.state.selection.ranges.len()
        invariant
            view.well_formed(),
            view == old(view),
            s == view.doc.state.doc@,
            rs == view.doc.state.selection.ranges@,
            hints == view.doc.indent_hints@,
            s.len() + lens_prefix(lens, rs.len() as int) <= usize::MAX,
            lens == newline_lens(rs.len(), hints),
            goal == newline_edits(rs, hints),
            mid == shifted_ranges(rs, lens),
            i <= rs.len(),
            edits@.len() == i,
            points@.len() == i,
            off == lens_prefix(lens, i as int),
            forall|k: int| 0 <= k < i ==> edit_views(edits@)[k] == goal[k],
            forall|k: int| 0 <= k < i ==> points@[k] == mid[k],
        decreases rs.len() - i,
    {
        let rg = view.doc.state.selection.ranges[i];
        let hint = if i < view.doc.indent_hints.len() {
            view.doc.indent_hints[i]
        } else {
            0
        };
        proof {
            assert(lens[i as int] == 1 + TAB_WIDTH as nat * hint_at(hints, i as int));
            assert(hint as nat == hint_at(hints, i as int));
            assert(lens_prefix(lens, i as int + 1) == lens_prefix(lens, i as int)
                + lens[i as int]);
            lemma_lens_prefix_le(lens, i as int + 1, rs.len() as int);
            assert(rg.anchor <= s.len());
            assert(rg.head <= s.len());
        }
        let total = TAB_WIDTH * hint;
        let mut text: Vec<char> = Vec::new();
        text.push('\n');
        let mut j: usize = 0;
        while j < total
            invariant
                j <= total,
                text@.len() == 1 + j,
                text@[0] == '\n',
                forall|q: int| 1 <= q < text@.len() ==> text@[q] == ' ',
            decreases total - j,
        {
            text.push(' ');
            j = j + 1;
        }
        proof {
            assert(text@ =~= newline_text(hint as nat));
        }
        let ln = text.len();
        edits.push(Edit { from: rg.head, to: rg.head, insert: Some(text) });
        let new_head = rg.head + (off + ln);
        let new_anchor = rg.anchor + off + (if rg.head <= rg.anchor {
            ln
        } else {
            0
        });
        points.push(Range { anchor: new_anchor, head: new_head });
        proof {
            assert(edit_views(edits@)[i as int] == crate::transaction::edit_view(
                edits@[i as int],
            ));
        }
        off = off + ln;
        i = i + 1;
    }
    proof {
        assert(edit_views(edits@) =~= goal);
        assert(points@ =~= mid);
        crate::selection::lemma_normalized_global(rs);
        assert forall|q: int| 0 <= q < goal.len() implies (#[trigger] goal[q]).from
            <= goal[q].to && goal[q].to <= s.len() by {
            assert(rs[q].head <= s.len());
        }
        assert forall|q: int| 0 <= q < goal.len() - 1 implies (#[trigger] goal[q]).to <= goal[q
            + 1].from by {
            assert(rs[q].to_spec() <= rs[q + 1].from_spec());
            assert(rs[q].head <= rs[q].to_spec());
            assert(rs[q + 1].from_spec() <= rs[q + 1].head);
        }
        assert(edits_valid(goal, s.len()));
    }
    let res = Transaction::change(&view.doc.state, edits);
    let tx = match res {
        Ok(t) => t,
        Err(_) => {
            proof {
                assert(false);
            }
            Transaction {
                changes: crate::changeset::ChangeSet { ops: Vec::new() },
                selection: None,
            }
        },
    };
    let sres = Selection::new(points, view.doc.state.selection.primary_index);
    let sel = match sres {
        Ok(sl) => sl,
        Err(_) => {
            proof {
                assert(false);
            }
            Selection::point(0)
        },
    };
    let tx2 = tx.with_selection(sel);
    view.doc.apply(&tx2);
}

/// The edits that erase `count` grapheme clusters before every cursor.
pub open spec fn backspace_edits(s: Seq<char>, rs: Seq<Range>, count: nat) -> Seq<SpecEdit> {
    Seq::new(
        rs.len(),
        |i: int|
            SpecEdit {
                from: nth_prev_boundary(s, rs[i].head as nat, count),
                to: rs[i].head as nat,
                ins: Seq::empty(),
            },
    )
}

/// The edits that erase `count` grapheme clusters after every cursor.
pub open spec fn delete_forward_edits(s: Seq<char>, rs: Seq<Range>, count: nat) -> Seq<SpecEdit> {
    Seq::new(
        rs.len(),
        |i: int|
            SpecEdit {
                from: rs[i].head as nat,
                to: nth_next_boundary(s, rs[i].head as nat, count),
                ins: Seq::empty(),
            },
    )
}

/// Delete `count` grapheme clusters before every cursor.  Edits that
/// would overlap (cursors closer together than `count` clusters) are a
/// caller contract violation; the document is then left untouched rather
/// than partially edited.
#[verifier::rlimit(100)]
#[verifier::spinoff_prover]
pub fn delete_char_backward(view: &mut EditorView, count: usize)
    requires
        old(view).well_formed(),
    ensures
        final(view).well_formed(),
        final(view).doc.mode == old(view).doc.mode,
        final(view).doc.history == old(view).doc.history,
        final(view).doc.version == old(view).doc.version,
        ({
            let des = backspace_edits(
                old(view).doc.state.doc@,
                old(view).doc.state.selection.ranges@,
                count as nat,
            );
            &&& (edits_valid(des, old(view).doc.state.doc@.len()) ==> final(view).doc.state.doc@
                == edits_applied(des, old(view).doc.state.doc@, 0))
            &&& (!edits_valid(des, old(view).doc.state.doc@.len()) ==> *final(view) == *old(
                view,
            ))
        }),
{
    let ghost des = backspace_edits(
        view.doc.state.doc@,
        view.doc.state.selection.ranges@,
        count as nat,
    );
    let mut edits: Vec<Edit> = Vec::new();
    let mut i: usize = 0;
    while i < view.doc.state.selection.ranges.len()
        invariant
            view.well_formed(),
            view == old(view),
            des == backspace_edits(
                view.doc.state.doc@,
                view.doc.state.selection.ranges@,
                count as nat,
            ),
            i <= view.doc.state.selection.ranges@.len(),
            edits@.len() == i,
            forall|k: int| 0 <= k < i ==> edit_views(edits@)[k] == des[k],
        decreases view.doc.state.selection.ranges@.len() - i,
    {
        let h = view.doc.state.selection.ranges[i].head;
        let from = nth_prev_grapheme_boundary(&view.doc.state.doc, h, count);
        edits.push(Edit { from, to: h, insert: None });
        proof {
            assert(edit_views(edits@)[i as int] == crate::transaction::edit_view(
                edits@[i as int],
            ));
        }
        i = i + 1;
    }
    proof {
        assert(edit_views(edits@) =~= des);
    }
    let res = Transaction::change(&view.doc.state, edits);
    match res {
        Ok(tx) => {
            view.doc.apply(&tx);
        },
        Err(_) => {},
    }
}

/// Delete `count` grapheme clusters after every cursor; overlapping edits
/// are a caller contract violation and leave the document untouched.
#[verifier::rlimit(100)]
#[verifier::spinoff_prover]
pub fn delete_char_forward(view: &mut EditorView, count: usize)
    requires
        old(view).well_formed(),
    ensures
        final(view).well_formed(),
        final(view).doc.mode == old(view).doc.mode,
        final(view).doc.history == old(view).doc.history,
        final(view).doc.version == old(view).doc.version,
        ({
            let des = delete_forward_edits(
                old(view).doc.state.doc@,
                old(view).doc.state.selection.ranges@,
                count as nat,
            );
            &&& (edits_valid(des, old(view).doc.state.doc@.len()) ==> final(view).doc.state.doc@
                == edits_applied(des, old(view).doc.state.doc@, 0))
            &&& (!edits_valid(des, old(view).doc.state.doc@.len()) ==> *final(view) == *old(
                view,
            ))
        }),
{
    let ghost des = delete_forward_edits(
        view.doc.state.doc@,
        view.doc.state.selection.ranges@,
        count as nat,
    );
    let mut edits: Vec<Edit> = Vec::new();
    let mut i: usize = 0;
    while i < view.doc.state.selection.ranges.len()
        invariant
            view.well_formed(),
            view == old(view),
            des == delete_forward_edits(
                view.doc.state.doc@,
                view.doc.state.selection.ranges@,
                count as nat,
            ),
            i <= view.doc.state.selection.ranges@.len(),
            edits@.len() == i,
            forall|k: int| 0 <= k < i ==> edit_views(edits@)[k] == des[k],
        decreases view.doc.state.selection.ranges@.len() - i,
    {
        let h = view.doc.state.selection.ranges[i].head;
        let to = nth_next_grapheme_boundary(&view.doc.state.doc, h, count);
        edits.push(Edit { from: h, to, insert: None });
        proof {
            assert(edit_views(edits@)[i as int] == crate::transaction::edit_view(
                edits@[i as int],
            ));
        }
        i = i + 1;
    }
    proof {
        assert(edit_views(edits@) =~= des);
    }
    let res = Transaction::change(&view.doc.state, edits);
    match res {
        Ok(tx) => {
            view.doc.apply(&tx);
        },
        Err(_) => {},
    }
}

} // verus!
