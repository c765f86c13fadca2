//! The editable state: a text snapshot together with the current selection.

use vstd::prelude::*;

use crate::movement::{move_pos, move_pos_spec, next_word_end, next_word_end_spec};
use crate::movement::{Direction, Granularity};
use crate::selection::{ranges_normalized, Range, Selection};

verus! {

/// Every anchor and head lies inside `[0, len]`.
pub open spec fn ranges_in_bounds(rs: Seq<Range>, len: nat) -> bool {
    forall|i: int|
        0 <= i < rs.len() ==> (#[trigger] rs[i]).anchor <= len && rs[i].head <= len
}

/// A text snapshot and the selection over it.
#[derive(Debug)]
pub struct State {
    pub doc: Vec<char>,
    pub selection: Selection,
}

/// The collapsed cursors reached by moving every head of `rs`.
pub open spec fn moved_points(
    s: Seq<char>,
    rs: Seq<Range>,
    dir: Direction,
    gran: Granularity,
    count: nat,
) -> Seq<Range> {
    Seq::new(
        rs.len(),
        |i: int|
            {
                let m = move_pos_spec(s, rs[i].head as nat, dir, gran, count) as usize;
                Range { anchor: m, head: m }
            },
    )
}

/// The ranges reached by moving every head of `rs`, anchors kept.
pub open spec fn extended_ranges(
    s: Seq<char>,
    rs: Seq<Range>,
    dir: Direction,
    gran: Granularity,
    count: nat,
) -> Seq<Range> {
    Seq::new(
        rs.len(),
        |i: int|
            Range {
                anchor: rs[i].anchor,
                head: move_pos_spec(s, rs[i].head as nat, dir, gran, count) as usize,
            },
    )
}

impl State {
    pub open spec fn well_formed(self) -> bool {
        &&& self.selection.well_formed()
        &&& ranges_in_bounds(self.selection.ranges@, self.doc@.len())
    }

    /// A fresh state with the cursor at the start of the document.
    pub fn new(doc: Vec<char>) -> (r: State)
        ensures
            r.well_formed(),
            r.doc@ == doc@,
            r.selection.ranges@ =~= seq![Range { anchor: 0usize, head: 0usize }],
            r.selection.primary_index == 0,
    {
        State { doc, selection: Selection::point(0) }
    }

    /// Move every cursor, collapsing each range onto its destination.
    pub fn move_selection(&self, dir: Direction, gran: Granularity, count: usize) -> (r: Selection)
        requires
            self.well_formed(),
            self.doc@.len() < usize::MAX,
        ensures
            r.well_formed(),
            ({
                let mid = moved_points(self.doc@, self.selection.ranges@, dir, gran, count as nat);
                &&& ranges_in_bounds(mid, self.doc@.len())
                &&& (ranges_normalized(mid) ==> r.ranges@ == mid && r.primary_index
                    == self.selection.primary_index)
            }),
    {
        let ghost mid = moved_points(self.doc@, self.selection.ranges@, dir, gran, count as nat);
        let mut out: Vec<Range> = Vec::new();
        let mut i: usize = 0;
        while i < self.selection.ranges.len()
            invariant
                self.well_formed(),
                self.doc@.len() < usize::MAX,
                mid == moved_points(self.doc@, self.selection.ranges@, dir, gran, count as nat),
                i <= self.selection.ranges@.len(),
                out@.len() == i,
                forall|k: int| 0 <= k < i ==> out@[k] == mid[k],
                forall|k: int|
                    0 <= k < i ==> (#[trigger] out@[k]).anchor <= self.doc@.len()
                        && out@[k].head <= self.doc@.len(),
            decreases self.selection.ranges@.len() - i,
        {
            let h = self.selection.ranges[i].head;
            let m = move_pos(&self.doc, h, dir, gran, count);
            out.push(Range { anchor: m, head: m });
            i = i + 1;
        }
        proof {
            assert(out@ =~= mid);
        }
        let res = Selection::new(out, self.selection.primary_index);
        match res {
            Ok(sel) => sel,
            Err(_) => {
                proof {
                    assert(false);
                }
                Selection::point(0)
            },
        }
    }

    /// Move every head, keeping each anchor fixed.
    pub fn extend_selection(&self, dir: Direction, gran: Granularity, count: usize) -> (r:
        Selection)
        requires
            self.well_formed(),
            self.doc@.len() < usize::MAX,
        ensures
            r.well_formed(),
            ({
                let mid = extended_ranges(
                    self.doc@,
                    self.selection.ranges@,
                    dir,
                    gran,
                    count as nat,
                );
                &&& ranges_in_bounds(mid, self.doc@.len())
                &&& (ranges_normalized(mid) ==> r.ranges@ == mid && r.primary_index
                    == self.selection.primary_index)
            }),
    {
        let ghost mid = extended_ranges(self.doc@, self.selection.ranges@, dir, gran, count as nat);
        let mut out: Vec<Range> = Vec::new();
        let mut i: usize = 0;
        while i < self.selection.ranges.len()
            invariant
                self.well_formed(),
                self.doc@.len() < usize::MAX,
                mid == extended_ranges(self.doc@, self.selection.ranges@, dir, gran, count as nat),
                i <= self.selection.ranges@.len(),
                out@.len() == i,
                forall|k: int| 0 <= k < i ==> out@[k] == mid[k],
                forall|k: int|
                    0 <= k < i ==> (#[trigger] out@[k]).anchor <= self.doc@.len()
                        && out@[k].head <= self.doc@.len(),
            decreases self.selection.ranges@.len() - i,
        {
            let rg = self.selection.ranges[i];
            let m = move_pos(&self.doc, rg.head, dir, gran, count);
            out.push(Range { anchor: rg.anchor, head: m });
            i = i + 1;
        }
        proof {
            assert(out@ =~= mid);
        }
        let res = Selection::new(out, self.selection.primary_index);
        match res {
            Ok(sel) => sel,
            Err(_) => {
                proof {
                    assert(false);
                }
                Selection::point(0)
            },
        }
    }

    /// Move a single position.
    pub fn move_pos(&self, pos: usize, dir: Direction, gran: Granularity, count: usize) -> (r:
        usize)
        requires
            self.well_formed(),
            pos <= self.doc@.len(),
            self.doc@.len() < usize::MAX,
        ensures
            r == move_pos_spec(self.doc@, pos as nat, dir, gran, count as nat),
            r <= self.doc@.len(),
    {
        move_pos(&self.doc, pos, dir, gran, count)
    }

    /// The end of the `count`-th next word from `pos`.
    pub fn move_next_word_end(text: &Vec<char>, pos: usize, count: usize) -> (r: usize)
        requires
            pos <= text@.len(),
        ensures
            r == word_end_moves(text@, pos as nat, count as nat),
            r <= text@.len(),
    {
        let mut cur = pos;
        let mut j: usize = 0;
        while j < count
            invariant
                j <= count,
                cur <= text@.len(),
                cur == word_end_moves(text@, pos as nat, j as nat),
            decreases count - j,
        {
            cur = next_word_end(text, cur);
            j = j + 1;
        }
        cur
    }
}

/// Word-end motion applied `count` times.
pub open spec fn word_end_moves(s: Seq<char>, pos: nat, count: nat) -> nat
    decreases count,
{
    if count == 0 {
        pos
    } else {
        next_word_end_spec(s, word_end_moves(s, pos, (count - 1) as nat))
    }
}

} // verus!
