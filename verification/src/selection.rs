//! The selection model: ordered, non-overlapping ranges with one primary.
//!
//! A range is an anchor/head pair; the head is the moving end where the
//! cursor visually sits.  A selection holds at least one range, keeps its
//! ranges in ascending document order with disjoint `[from, to)` spans, and
//! designates one of them as primary.

use vstd::prelude::*;

use crate::error::EngineError;

verus! {

/// A single selection span.  `anchor == head` is a plain cursor.
#[derive(Clone, Copy, Debug, PartialEq, Eq, Structural)]
pub struct Range {
    /// The fixed end of the span.
    pub anchor: usize,
    /// The moving end of the span: where the cursor sits.
    pub head: usize,
}

impl Range {
    /// The lower end of the span.
    pub open spec fn from_spec(self) -> nat {
        if self.anchor <= self.head {
            self.anchor as nat
        } else {
            self.head as nat
        }
    }

    /// The upper end of the span.
    pub open spec fn to_spec(self) -> nat {
        if self.anchor <= self.head {
            self.head as nat
        } else {
            self.anchor as nat
        }
    }

    pub fn new(anchor: usize, head: usize) -> (r: Range)
        ensures
            r.anchor == anchor,
            r.head == head,
    {
        Range { anchor, head }
    }

    /// The lower end of the span.
    pub fn from(&self) -> (r: usize)
        ensures
            r == self.from_spec(),
    {
        if self.anchor <= self.head {
            self.anchor
        } else {
            self.head
        }
    }

    /// The upper end of the span.
    pub fn to(&self) -> (r: usize)
        ensures
            r == self.to_spec(),
    {
        if self.anchor <= self.head {
            self.head
        } else {
            self.anchor
        }
    }
}

/// Adjacent ranges are in order and their `[from, to)` spans are disjoint.
pub open spec fn ranges_normalized(rs: Seq<Range>) -> bool {
    forall|i: int|
        0 <= i < rs.len() - 1 ==> (#[trigger] rs[i]).to_spec() <= rs[i + 1].from_spec()
}

/// Ranges are sorted by their lower end.
pub open spec fn sorted_by_from(rs: Seq<Range>) -> bool {
    forall|i: int|
        0 <= i < rs.len() - 1 ==> (#[trigger] rs[i]).from_spec() <= rs[i + 1].from_spec()
}

proof fn lemma_normalized_pair(rs: Seq<Range>, i: int, j: int)
    requires
        ranges_normalized(rs),
        0 <= i < j < rs.len(),
    ensures
        rs[i].to_spec() <= rs[j].from_spec(),
    decreases j - i,
{
    if i + 1 < j {
        lemma_normalized_pair(rs, i + 1, j);
    }
}

/// Selection normalization, globally: in a normalized range list every
/// earlier range ends no later than every later range begins, so the list
/// is sorted ascending by `from` and no two spans overlap.
pub proof fn lemma_normalized_global(rs: Seq<Range>)
    requires
        ranges_normalized(rs),
    ensures
        forall|i: int, j: int|
            0 <= i < j < rs.len() ==> (#[trigger] rs[i]).to_spec() <= (#[trigger] rs[j]).from_spec(),
        sorted_by_from(rs),
{
    assert forall|i: int, j: int| 0 <= i < j < rs.len() implies (#[trigger] rs[i]).to_spec() <= (
    #[trigger] rs[j]).from_spec() by {
        lemma_normalized_pair(rs, i, j);
    }
}

proof fn lemma_sorted_from_pair(rs: Seq<Range>, i: int, j: int)
    requires
        sorted_by_from(rs),
        0 <= i <= j < rs.len(),
    ensures
        rs[i].from_spec() <= rs[j].from_spec(),
    decreases j - i,
{
    if i < j {
        lemma_sorted_from_pair(rs, i, j - 1);
    }
}

/// An ordered, non-empty set of ranges with one designated primary.
#[derive(Clone, Debug)]
pub struct Selection {
    pub ranges: Vec<Range>,
    pub primary_index: usize,
}

impl Selection {
    pub open spec fn well_formed(self) -> bool {
        &&& self.ranges@.len() >= 1
        &&& self.primary_index < self.ranges@.len()
        &&& ranges_normalized(self.ranges@)
    }

    /// A selection of one zero-width range.
    pub fn point(pos: usize) -> (r: Selection)
        ensures
            r.well_formed(),
            r.ranges@ =~= seq![Range { anchor: pos, head: pos }],
            r.primary_index == 0,
    {
        let mut ranges: Vec<Range> = Vec::new();
        ranges.push(Range { anchor: pos, head: pos });
        Selection { ranges, primary_index: 0 }
    }

    /// A selection of one range.
    pub fn single(start: usize, end: usize) -> (r: Selection)
        ensures
            r.well_formed(),
            r.ranges@ =~= seq![Range { anchor: start, head: end }],
            r.primary_index == 0,
    {
        let mut ranges: Vec<Range> = Vec::new();
        ranges.push(Range { anchor: start, head: end });
        Selection { ranges, primary_index: 0 }
    }

    /// Build a selection from ranges that are already in normalized order.
    pub fn from_sorted(ranges: Vec<Range>, primary_index: usize) -> (r: Selection)
        requires
            ranges@.len() >= 1,
            primary_index < ranges@.len(),
            ranges_normalized(ranges@),
        ensures
            r.well_formed(),
            r.ranges@ == ranges@,
            r.primary_index == primary_index,
    {
        Selection { ranges, primary_index }
    }

    /// Build a selection from arbitrary ranges: fails on an empty list,
    /// otherwise normalizes order, merges overlapping spans, and keeps the
    /// given primary (remapped if merging moved it).  Ranges that already
    /// are in normalized order are kept exactly as given.
    pub fn new(ranges: Vec<Range>, primary_index: usize) -> (r: Result<Selection, EngineError>)
        ensures
            r is Err <==> ranges@.len() == 0,
            r is Err ==> r->Err_0 == EngineError::InvalidSelection,
            r is Ok ==> r->Ok_0.well_formed(),
            ranges@.len() > 0 && primary_index < ranges@.len() && ranges_normalized(ranges@)
                ==> r == Ok::<Selection, EngineError>(
                Selection { ranges, primary_index },
            ),
    {
        if ranges.len() == 0 {
            return Err(EngineError::InvalidSelection);
        }
        let primary = if primary_index < ranges.len() {
            primary_index
        } else {
            ranges.len() - 1
        };
        // Most callers hand over ranges that are already normalized; keep
        // them untouched in that case.
        let mut ok = true;
        let mut i: usize = 0;
        while i < ranges.len() - 1
            invariant
                ranges@.len() >= 1,
                i <= ranges@.len() - 1,
                ok <==> (forall|k: int|
                    0 <= k < i ==> (#[trigger] ranges@[k]).to_spec() <= ranges@[k + 1].from_spec()),
            decreases ranges@.len() - i,
        {
            if ranges[i].to() > ranges[i + 1].from() {
                ok = false;
            }
            i = i + 1;
        }
        if ok {
            return Ok(Selection { ranges, primary_index: primary });
        }
        let ghost ph = ranges@[primary as int].head;
        // Sort by the lower end, then merge overlapping spans.
        let sorted = sort_ranges(&ranges);
        let merged = merge_ranges(sorted);
        // Remap the primary onto the merged range containing the original
        // primary head, if one does.
        let ph_val = ranges[primary].head;
        let mut pj: usize = 0;
        let mut j: usize = 0;
        while j < merged.len()
            invariant
                merged@.len() >= 1,
                pj < merged@.len(),
                j <= merged@.len(),
            decreases merged@.len() - j,
        {
            if merged[j].from() <= ph_val && ph_val <= merged[j].to() {
                pj = j;
            }
            j = j + 1;
        }
        Ok(Selection { ranges: merged, primary_index: pj })
    }

    /// The primary range.
    pub fn primary(&self) -> (r: Range)
        requires
            self.well_formed(),
        ensures
            r == self.ranges@[self.primary_index as int],
    {
        self.ranges[self.primary_index]
    }

    /// The head of the primary range: the canonical single-cursor position.
    pub fn cursor(&self) -> (r: usize)
        requires
            self.well_formed(),
        ensures
            r == self.ranges@[self.primary_index as int].head,
    {
        self.primary().head
    }

    /// Apply `f` to every range independently, then re-normalize.
    pub fn transform<F: Fn(Range) -> Range>(&self, f: &F) -> (r: Selection)
        requires
            self.well_formed(),
            forall|i: int|
                0 <= i < self.ranges@.len() ==> call_requires(*f, (self.ranges@[i],)),
        ensures
            r.well_formed(),
            exists|mid: Seq<Range>|
                {
                    &&& mid.len() == self.ranges@.len()
                    &&& (forall|i: int|
                        0 <= i < mid.len() ==> call_ensures(
                            *f,
                            (self.ranges@[i],),
                            #[trigger] mid[i],
                        ))
                    &&& (ranges_normalized(mid) ==> r.ranges@ == mid && r.primary_index
                        == self.primary_index)
                },
    {
        let mut mapped: Vec<Range> = Vec::new();
        let mut i: usize = 0;
        while i < self.ranges.len()
            invariant
                i <= self.ranges@.len(),
                mapped@.len() == i,
                forall|k: int|
                    0 <= k < i ==> call_ensures(*f, (self.ranges@[k],), #[trigger] mapped@[k]),
                forall|k: int|
                    0 <= k < self.ranges@.len() ==> call_requires(*f, (self.ranges@[k],)),
            decreases self.ranges@.len() - i,
        {
            let nr = f(self.ranges[i]);
            mapped.push(nr);
            i = i + 1;
        }
        let ghost mid = mapped@;
        // Check whether the mapped ranges are still in normalized order; if
        // so keep them exactly, else re-normalize.
        let mut ok = true;
        let mut k: usize = 0;
        while k < mapped.len() - 1
            invariant
                mapped@ == mid,
                mid.len() >= 1,
                k <= mid.len() - 1,
                ok <==> (forall|q: int|
                    0 <= q < k ==> (#[trigger] mid[q]).to_spec() <= mid[q + 1].from_spec()),
            decreases mid.len() - k,
        {
            if mapped[k].to() > mapped[k + 1].from() {
                ok = false;
            }
            k = k + 1;
        }
        proof {
            assert(ok <==> ranges_normalized(mid));
        }
        let r = if ok {
            Selection { ranges: mapped, primary_index: self.primary_index }
        } else {
            let sorted = sort_ranges(&mapped);
            let merged = merge_ranges(sorted);
            Selection { ranges: merged, primary_index: 0 }
        };
        proof {
            assert({
                &&& mid.len() == self.ranges@.len()
                &&& (forall|i: int|
                    0 <= i < mid.len() ==> call_ensures(*f, (self.ranges@[i],), #[trigger] mid[i]))
                &&& (ranges_normalized(mid) ==> r.ranges@ == mid && r.primary_index
                    == self.primary_index)
            });
        }
        r
    }

    /// One substring per range, in range order, each exactly the `[from,
    /// to)` span of `text` (clamped to the text end).
    pub fn fragments(&self, text: &Vec<char>) -> (r: Vec<Vec<char>>)
        requires
            self.well_formed(),
        ensures
            r@.len() == self.ranges@.len(),
            forall|i: int|
                0 <= i < r@.len() ==> (#[trigger] r@[i])@ == fragment_of(text@, self.ranges@[i]),
    {
        let mut out: Vec<Vec<char>> = Vec::new();
        let mut i: usize = 0;
        while i < self.ranges.len()
            invariant
                self.well_formed(),
                i <= self.ranges@.len(),
                out@.len() == i,
                forall|k: int|
                    0 <= k < i ==> (#[trigger] out@[k])@ == fragment_of(text@, self.ranges@[k]),
            decreases self.ranges@.len() - i,
        {
            let rg = self.ranges[i];
            let lo = if rg.from() < text.len() {
                rg.from()
            } else {
                text.len()
            };
            let hi = if rg.to() < text.len() {
                rg.to()
            } else {
                text.len()
            };
            let seg = crate::changeset::copy_slice(text, lo, hi);
            out.push(seg);
            i = i + 1;
        }
        out
    }
}

/// The characters a range selects: its `[from, to)` span of the text,
/// clamped to the text end.
pub open spec fn fragment_of(text: Seq<char>, r: Range) -> Seq<char> {
    let lo = if r.from_spec() < text.len() {
        r.from_spec() as int
    } else {
        text.len() as int
    };
    let hi = if r.to_spec() < text.len() {
        r.to_spec() as int
    } else {
        text.len() as int
    };
    text.subrange(lo, hi)
}

/// Copy of a selection, range for range.
pub fn copy_selection(s: &Selection) -> (r: Selection)
    ensures
        r.ranges@ == s.ranges@,
        r.primary_index == s.primary_index,
{
    let mut ranges: Vec<Range> = Vec::new();
    let mut i: usize = 0;
    while i < s.ranges.len()
        invariant
            i <= s.ranges@.len(),
            ranges@ == s.ranges@.take(i as int),
        decreases s.ranges@.len() - i,
    {
        ranges.push(s.ranges[i]);
        proof {
            assert(s.ranges@.take(i as int).push(s.ranges@[i as int]) =~= s.ranges@.take(i + 1));
        }
        i = i + 1;
    }
    proof {
        assert(s.ranges@.take(s.ranges@.len() as int) =~= s.ranges@);
    }
    Selection { ranges, primary_index: s.primary_index }
}

/// Insertion sort by the lower end of each range.
fn sort_ranges(ranges: &Vec<Range>) -> (r: Vec<Range>)
    ensures
        r@.len() == ranges@.len(),
        sorted_by_from(r@),
{
    let mut out: Vec<Range> = Vec::new();
    let mut i: usize = 0;
    while i < ranges.len()
        invariant
            i <= ranges@.len(),
            out@.len() == i,
            sorted_by_from(out@),
        decreases ranges@.len() - i,
    {
        let rg = ranges[i];
        let mut j: usize = 0;
        while j < out.len() && out[j].from() <= rg.from()
            invariant
                j <= out@.len(),
                sorted_by_from(out@),
                forall|k: int| 0 <= k < j ==> (#[trigger] out@[k]).from_spec() <= rg.from_spec(),
            decreases out@.len() - j,
        {
            j = j + 1;
        }
        let ghost out0 = out@;
        out.insert(j, rg);
        proof {
            assert forall|k: int| 0 <= k < out@.len() - 1 implies (#[trigger] out@[k]).from_spec()
                <= out@[k + 1].from_spec() by {
                if k < j - 1 {
                    assert(out@[k] == out0[k]);
                    assert(out@[k + 1] == out0[k + 1]);
                } else if k == j - 1 {
                    assert(out@[k] == out0[k]);
                    assert(out@[k + 1] == rg);
                } else if k == j {
                    assert(out@[k] == rg);
                    assert(out@[k + 1] == out0[k]);
                    assert(!(out0[k].from_spec() <= rg.from_spec()) || j == out0.len());
                } else {
                    assert(out@[k] == out0[k - 1]);
                    assert(out@[k + 1] == out0[k]);
                }
            }
        }
        i = i + 1;
    }
    out
}

/// Merge overlapping spans of a list sorted by lower end.
fn merge_ranges(sorted: Vec<Range>) -> (r: Vec<Range>)
    requires
        sorted_by_from(sorted@),
    ensures
        ranges_normalized(r@),
        r@.len() >= 1 <==> sorted@.len() >= 1,
        r@.len() <= sorted@.len(),
{
    let mut out: Vec<Range> = Vec::new();
    if sorted.len() == 0 {
        return out;
    }
    let mut cur: Range = sorted[0];
    let mut i: usize = 1;
    proof {
        lemma_normalized_global_sorted(sorted@);
    }
    while i < sorted.len()
        invariant
            1 <= i <= sorted@.len(),
            sorted_by_from(sorted@),
            forall|a: int, b: int|
                0 <= a <= b < sorted@.len() ==> (#[trigger] sorted@[a]).from_spec()
                    <= (#[trigger] sorted@[b]).from_spec(),
            ranges_normalized(out@),
            out@.len() < i,
            cur.from_spec() <= cur.to_spec(),
            exists|k: int| 0 <= k < i && cur.from_spec() == (#[trigger] sorted@[k]).from_spec(),
            out@.len() > 0 ==> out@[out@.len() - 1].to_spec() <= cur.from_spec(),
        decreases sorted@.len() - i,
    {
        let rg = sorted[i];
        if rg.from() < cur.to() {
            // Overlap: widen the span being accumulated.
            let new_to = if rg.to() > cur.to() {
                rg.to()
            } else {
                cur.to()
            };
            let new_cur = Range { anchor: cur.from(), head: new_to };
            proof {
                assert(new_cur.from_spec() == cur.from_spec());
            }
            cur = new_cur;
        } else {
            let ghost out0 = out@;
            out.push(cur);
            proof {
                assert forall|q: int| 0 <= q < out@.len() - 1 implies (#[trigger] out@[q]).to_spec()
                    <= out@[q + 1].from_spec() by {
                    if q < out0.len() - 1 {
                        assert(out@[q] == out0[q]);
                        assert(out@[q + 1] == out0[q + 1]);
                    } else {
                        assert(out@[q + 1] == cur);
                    }
                }
            }
            cur = rg;
        }
        i = i + 1;
    }
    let ghost out0 = out@;
    out.push(cur);
    proof {
        assert forall|q: int| 0 <= q < out@.len() - 1 implies (#[trigger] out@[q]).to_spec()
            <= out@[q + 1].from_spec() by {
            if q < out0.len() - 1 {
                assert(out@[q] == out0[q]);
                assert(out@[q + 1] == out0[q + 1]);
            } else {
                assert(out@[q + 1] == cur);
            }
        }
    }
    out
}

proof fn lemma_normalized_global_sorted(rs: Seq<Range>)
    requires
        sorted_by_from(rs),
    ensures
        forall|a: int, b: int|
            0 <= a <= b < rs.len() ==> (#[trigger] rs[a]).from_spec() <= (
            #[trigger] rs[b]).from_spec(),
{
    assert forall|a: int, b: int| 0 <= a <= b < rs.len() implies (#[trigger] rs[a]).from_spec()
        <= (#[trigger] rs[b]).from_spec() by {
        lemma_sorted_from_pair(rs, a, b);
    }
}

} // verus!
