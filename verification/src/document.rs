//! The editable unit: text, selection, mode, pending changes and history,
//! owned as one aggregate and mutated only by the command currently
//! running.

use vstd::prelude::*;

use crate::changeset::{
    apply_ops, clone_chars, composes, identity_shape, lemma_apply_len, lemma_equiv_preserves,
    lemma_identity_shape_applies, ChangeSet,
};
use crate::history::History;
use crate::selection::{copy_selection, ranges_normalized, Range, Selection};
use crate::state::{ranges_in_bounds, State};
use crate::transaction::Transaction;

verus! {

/// The editor's interaction mode.  Exactly one is active at a time.
#[derive(Clone, Copy, Debug, PartialEq, Eq, Structural)]
pub enum Mode {
    Normal,
    Insert,
    Goto,
}

/// One named register: an ordered list of yanked texts.
#[derive(Debug)]
pub struct RegisterEntry {
    pub name: char,
    pub values: Vec<Vec<char>>,
}

/// The contents of one stored text.
pub open spec fn chars_view(v: Vec<char>) -> Seq<char> {
    v@
}

/// The first stored value list for `name`, newest first.
pub open spec fn reg_lookup(entries: Seq<RegisterEntry>, name: char) -> Option<Seq<Seq<char>>>
    decreases entries.len(),
{
    if entries.len() == 0 {
        Option::None
    } else if entries[0].name == name {
        Option::Some(entries[0].values@.map_values(|v: Vec<char>| chars_view(v)))
    } else {
        reg_lookup(entries.drop_first(), name)
    }
}

/// An injectable register store keyed by a single character.  A new entry
/// shadows older entries of the same name.
#[derive(Debug)]
pub struct Registers {
    pub entries: Vec<RegisterEntry>,
}

impl Registers {
    pub fn new() -> (r: Registers)
        ensures
            r.entries@.len() == 0,
    {
        Registers { entries: Vec::new() }
    }

    /// Store `values` under `name`.
    pub fn set(&mut self, name: char, values: Vec<Vec<char>>)
        ensures
            reg_lookup(final(self).entries@, name) == Option::Some(
                values@.map_values(|v: Vec<char>| chars_view(v)),
            ),
            forall|n2: char|
                n2 != name ==> #[trigger] reg_lookup(final(self).entries@, n2) == reg_lookup(
                    old(self).entries@,
                    n2,
                ),
    {
        let ghost entries0 = self.entries@;
        self.entries.insert(0, RegisterEntry { name, values });
        proof {
            assert(self.entries@.drop_first() =~= entries0);
        }
    }

    /// Read the values stored under `name`, if any.
    pub fn get(&self, name: char) -> (r: Option<Vec<Vec<char>>>)
        ensures
            match (r, reg_lookup(self.entries@, name)) {
                (Option::Some(v), Option::Some(spec_v)) => v@.map_values(|x: Vec<char>| chars_view(x))
                    == spec_v,
                (Option::None, Option::None) => true,
                _ => false,
            },
    {
        let mut i: usize = 0;
        proof {
            assert(self.entries@.skip(0) =~= self.entries@);
        }
        while i < self.entries.len()
            invariant
                i <= self.entries@.len(),
                reg_lookup(self.entries@, name) == reg_lookup(
                    self.entries@.skip(i as int),
                    name,
                ),
            decreases self.entries@.len() - i,
        {
            proof {
                assert(self.entries@.skip(i as int)[0] == self.entries@[i as int]);
                assert(self.entries@.skip(i as int).drop_first() =~= self.entries@.skip(
                    i as int + 1,
                ));
            }
            if self.entries[i].name == name {
                let src = &self.entries[i].values;
                let mut out: Vec<Vec<char>> = Vec::new();
                let mut j: usize = 0;
                while j < src.len()
                    invariant
                        j <= src@.len(),
                        out@.len() == j,
                        forall|q: int| 0 <= q < j ==> (#[trigger] out@[q])@ == src@[q]@,
                    decreases src@.len() - j,
                {
                    out.push(clone_chars(&src[j]));
                    j = j + 1;
                }
                proof {
                    assert(out@.map_values(|x: Vec<char>| chars_view(x)) =~= src@.map_values(
                        |v: Vec<char>| chars_view(v),
                    ));
                }
                return Some(out);
            }
            i = i + 1;
        }
        proof {
            assert(self.entries@.skip(i as int) =~= Seq::<RegisterEntry>::empty());
        }
        None
    }
}

/// Every range of `rs` pulled back inside `[0, len]`.
pub open spec fn clamp_ranges(rs: Seq<Range>, len: nat) -> Seq<Range> {
    Seq::new(
        rs.len(),
        |i: int|
            Range {
                anchor: if rs[i].anchor <= len {
                    rs[i].anchor
                } else {
                    len as usize
                },
                head: if rs[i].head <= len {
                    rs[i].head
                } else {
                    len as usize
                },
            },
    )
}

/// Clamp a selection's ranges to a document of length `len`.
#[verifier::rlimit(100)]
#[verifier::spinoff_prover]
pub fn clamp_selection(sel: &Selection, len: usize) -> (r: Selection)
    requires
        sel.well_formed(),
    ensures
        r.well_formed(),
        ranges_in_bounds(r.ranges@, len as nat),
        r.ranges@ == clamp_ranges(sel.ranges@, len as nat),
        r.primary_index == sel.primary_index,
        ranges_in_bounds(sel.ranges@, len as nat) ==> r.ranges@ == sel.ranges@,
    {
    let ghost goal = clamp_ranges(sel.ranges@, len as nat);
    let mut out: Vec<Range> = Vec::new();
    let mut i: usize = 0;
    while i < sel.ranges.len()
        invariant
            sel.well_formed(),
            goal == clamp_ranges(sel.ranges@, len as nat),
            i <= sel.ranges@.len(),
            out@.len() == i,
            forall|k: int| 0 <= k < i ==> out@[k] == goal[k],
        decreases sel.ranges@.len() - i,
    {
        let rg = sel.ranges[i];
        let a = if rg.anchor <= len {
            rg.anchor
        } else {
            len
        };
        let h = if rg.head <= len {
            rg.head
        } else {
            len
        };
        out.push(Range { anchor: a, head: h });
        i = i + 1;
    }
    proof {
        assert(out@ =~= goal);
        assert forall|k: int| 0 <= k < goal.len() - 1 implies (#[trigger] goal[k]).to_spec()
            <= goal[k + 1].from_spec() by {
            assert(sel.ranges@[k].to_spec() <= sel.ranges@[k + 1].from_spec());
        }
        if ranges_in_bounds(sel.ranges@, len as nat) {
            assert forall|k: int| 0 <= k < goal.len() implies goal[k] == sel.ranges@[k] by {
                assert(sel.ranges@[k].anchor <= len && sel.ranges@[k].head <= len);
            }
            assert(goal =~= sel.ranges@);
        }
    }
    Selection::from_sorted(out, sel.primary_index)
}

/// The ranges of `rs` carried through a changeset, anchor and head each
/// mapped to where they land in the new text.
pub open spec fn mapped_ranges(ops: Seq<crate::changeset::Op>, rs: Seq<Range>) -> Seq<Range> {
    Seq::new(
        rs.len(),
        |i: int|
            Range {
                anchor: ChangeSet::map_pos_spec(ops, rs[i].anchor as int, 0, 0) as usize,
                head: ChangeSet::map_pos_spec(ops, rs[i].head as int, 0, 0) as usize,
            },
    )
}

/// Carry a selection through a changeset by mapping every anchor and head
/// to where it lands in the new text.
#[verifier::rlimit(100)]
#[verifier::spinoff_prover]
fn map_selection_through(changes: &ChangeSet, sel: &Selection, old_len: usize, new_len: usize) -> (r:
    Selection)
    requires
        changes.well_formed(),
        sel.well_formed(),
        changes.len_before() == old_len,
        changes.len_after() == new_len,
        ranges_in_bounds(sel.ranges@, old_len as nat),
    ensures
        r.well_formed(),
        ranges_in_bounds(r.ranges@, new_len as nat),
        ranges_normalized(mapped_ranges(changes.ops@, sel.ranges@)) ==> r.ranges@ == mapped_ranges(
            changes.ops@,
            sel.ranges@,
        ) && r.primary_index == sel.primary_index,
{
    let ghost mid = mapped_ranges(changes.ops@, sel.ranges@);
    let mut mapped: Vec<Range> = Vec::new();
    let mut i: usize = 0;
    while i < sel.ranges.len()
        invariant
            changes.well_formed(),
            sel.well_formed(),
            changes.len_before() == old_len,
            changes.len_after() == new_len,
            ranges_in_bounds(sel.ranges@, old_len as nat),
            mid == mapped_ranges(changes.ops@, sel.ranges@),
            i <= sel.ranges@.len(),
            mapped@.len() == i,
            forall|k: int| 0 <= k < i ==> mapped@[k] == mid[k],
            forall|k: int|
                0 <= k < i ==> (#[trigger] mapped@[k]).anchor <= new_len && mapped@[k].head
                    <= new_len,
        decreases sel.ranges@.len() - i,
    {
        let rg = sel.ranges[i];
        let a = changes.map_pos(rg.anchor);
        let h = changes.map_pos(rg.head);
        mapped.push(Range { anchor: a, head: h });
        i = i + 1;
    }
    proof {
        assert(mapped@ =~= mid);
    }
    let res = Selection::new(mapped, sel.primary_index);
    let inner = match res {
        Ok(s) => s,
        Err(_) => {
            proof {
                assert(false);
            }
            Selection::point(0)
        },
    };
    let clamped = clamp_selection(&inner, new_len);
    proof {
        if ranges_normalized(mid) {
            assert(ranges_in_bounds(inner.ranges@, new_len as nat));
        }
    }
    clamped
}

/// A document: its current state, the snapshot at the last commit, the
/// pending (uncommitted) changeset between the two, the mode, the history
/// and the version counter.
pub struct Document {
    pub state: State,
    pub old_state: State,
    pub mode: Mode,
    pub restore_cursor: bool,
    pub changes: ChangeSet,
    pub history: History,
    pub version: u64,
    /// Indentation levels the external hint provider suggested, one per
    /// cursor in selection order; consumed by the newline-insertion
    /// command, which treats a missing entry as level zero.
    pub indent_hints: Vec<usize>,
    pub base: Ghost<Seq<char>>,
}

impl Document {
    pub open spec fn well_formed(self) -> bool {
        &&& self.state.well_formed()
        &&& self.old_state.well_formed()
        &&& self.changes.well_formed()
        &&& self.changes.len_before() == self.old_state.doc@.len()
        &&& apply_ops(self.changes.ops@, self.old_state.doc@) == self.state.doc@
        &&& self.history.well_formed()
        &&& self.old_state.doc@ == (if self.history.cursor == 0 {
            self.base@
        } else {
            self.history.revisions@[self.history.cursor - 1].after@
        })
        &&& (self.history.revisions@.len() > 0 ==> self.history.revisions@[0].before@
            == self.base@)
    }

    /// Nothing is staged: the pending changeset is the identity.
    pub open spec fn pending_clear(self) -> bool {
        identity_shape(self.changes.ops@)
    }

    /// A fresh document over `text`, in normal mode, with empty history.
    pub fn new(text: Vec<char>) -> (r: Document)
        ensures
            r.well_formed(),
            r.state.doc@ == text@,
            r.state.selection.ranges@ =~= seq![Range { anchor: 0usize, head: 0usize }],
            r.state.selection.primary_index == 0,
            r.old_state.doc@ == text@,
            r.old_state.selection.ranges@ =~= seq![Range { anchor: 0usize, head: 0usize }],
            r.mode == Mode::Normal,
            !r.restore_cursor,
            r.version == 0,
            r.pending_clear(),
            r.history.revisions@.len() == 0,
            r.history.cursor == 0,
            r.indent_hints@.len() == 0,
    {
        let copy = clone_chars(&text);
        let len = text.len();
        let ghost base = text@;
        let state = State::new(text);
        let old_state = State::new(copy);
        let changes = ChangeSet::new_identity(len);
        proof {
            assert(apply_ops(changes.ops@, old_state.doc@) == old_state.doc@);
        }
        Document {
            state,
            old_state,
            mode: Mode::Normal,
            restore_cursor: false,
            changes,
            history: History::new(),
            version: 0,
            indent_hints: Vec::new(),
            base: Ghost(base),
        }
    }

    /// The current text snapshot.
    pub fn text(&self) -> (r: &Vec<char>)
        ensures
            r@ == self.state.doc@,
    {
        &self.state.doc
    }

    /// The current selection.
    pub fn selection(&self) -> (r: &Selection)
        ensures
            r == self.state.selection,
    {
        &self.state.selection
    }

    /// Install a selection, clamping its positions to the document end.
    pub fn set_selection(&mut self, sel: Selection)
        requires
            old(self).well_formed(),
            sel.well_formed(),
        ensures
            final(self).well_formed(),
            final(self).state.doc == old(self).state.doc,
            final(self).mode == old(self).mode,
            final(self).changes == old(self).changes,
            final(self).history == old(self).history,
            final(self).old_state == old(self).old_state,
            final(self).version == old(self).version,
            final(self).restore_cursor == old(self).restore_cursor,
            final(self).indent_hints == old(self).indent_hints,
            final(self).base == old(self).base,
            final(self).state.selection.primary_index == sel.primary_index,
            final(self).state.selection.ranges@ == clamp_ranges(
                sel.ranges@,
                old(self).state.doc@.len(),
            ),
            ranges_in_bounds(sel.ranges@, old(self).state.doc@.len())
                ==> final(self).state.selection.ranges@ == sel.ranges@,
    {
        let len = self.state.doc.len();
        let clamped = clamp_selection(&sel, len);
        self.state.selection = clamped;
    }

    /// Apply a transaction: replace the text by the changeset's output,
    /// install the explicit selection or map the old one through the
    /// changes, and fold the changeset into the pending accumulator.
    #[verifier::rlimit(100)]
    #[verifier::spinoff_prover]
    pub fn apply(&mut self, transaction: &Transaction)
        requires
            old(self).well_formed(),
            transaction.changes.well_formed(),
            transaction.changes.len_before() == old(self).state.doc@.len(),
            match transaction.selection {
                Option::Some(s) => s.well_formed(),
                Option::None => true,
            },
        ensures
            final(self).well_formed(),
            final(self).state.doc@ == apply_ops(
                transaction.changes.ops@,
                old(self).state.doc@,
            ),
            composes(
                final(self).changes.ops@,
                old(self).changes.ops@,
                transaction.changes.ops@,
            ),
            final(self).mode == old(self).mode,
            final(self).history == old(self).history,
            final(self).old_state == old(self).old_state,
            final(self).version == old(self).version,
            final(self).restore_cursor == old(self).restore_cursor,
            final(self).base == old(self).base,
            final(self).state.selection.well_formed(),
            match transaction.selection {
                Option::Some(s) => final(self).state.selection.ranges@ == clamp_ranges(
                    s.ranges@,
                    apply_ops(transaction.changes.ops@, old(self).state.doc@).len(),
                ) && final(self).state.selection.primary_index == s.primary_index,
                Option::None => ({
                    let mid = mapped_ranges(
                        transaction.changes.ops@,
                        old(self).state.selection.ranges@,
                    );
                    ranges_normalized(mid) ==> final(self).state.selection.ranges@ == mid
                        && final(self).state.selection.primary_index == old(
                        self,
                    ).state.selection.primary_index
                }),
            },
    {
        let old_len = self.state.doc.len();
        let new_text = transaction.changes.apply(&self.state.doc);
        let new_len = new_text.len();
        proof {
            lemma_apply_len(transaction.changes.ops@, self.state.doc@);
        }
        // The selection to install over the new text.
        let new_sel: Selection = match &transaction.selection {
            Some(s) => clamp_selection(s, new_len),
            None => map_selection_through(
                &transaction.changes,
                &self.state.selection,
                old_len,
                new_len,
            ),
        };
        // Fold the changes into the pending accumulator.
        let dup = transaction.duplicate();
        proof {
            lemma_equiv_preserves(dup.changes.ops@, transaction.changes.ops@);
        }
        let mut pending_ops: Vec<crate::changeset::Op> = Vec::new();
        core::mem::swap(&mut pending_ops, &mut self.changes.ops);
        let pending = ChangeSet { ops: pending_ops };
        proof {
            lemma_apply_len(pending.ops@, old(self).old_state.doc@);
        }
        let composed = pending.compose(dup.changes);
        proof {
            assert forall|s: Seq<char>|
                s.len() == crate::changeset::ops_len_before(pending.ops@) implies #[trigger]
                apply_ops(composed.ops@, s) == apply_ops(
                transaction.changes.ops@,
                apply_ops(pending.ops@, s),
            ) by {
                assert(apply_ops(composed.ops@, s) == apply_ops(
                    dup.changes.ops@,
                    apply_ops(pending.ops@, s),
                ));
            }
            assert(apply_ops(composed.ops@, old(self).old_state.doc@) == apply_ops(
                transaction.changes.ops@,
                old(self).state.doc@,
            ));
        }
        self.changes = composed;
        self.state = State { doc: new_text, selection: new_sel };
    }

    /// Fold the staged edits into one history revision: the pending
    /// changeset becomes the committed transaction, its inverse is stored
    /// beside it, and the redo tail is discarded.  With nothing staged,
    /// nothing happens.
    #[verifier::rlimit(100)]
    #[verifier::spinoff_prover]
    pub fn commit_pending(&mut self)
        requires
            old(self).well_formed(),
            old(self).version < u64::MAX,
        ensures
            final(self).well_formed(),
            final(self).state == old(self).state,
            final(self).state.doc@ == old(self).state.doc@,
            final(self).state.selection == old(self).state.selection,
            final(self).mode == old(self).mode,
            final(self).restore_cursor == old(self).restore_cursor,
            final(self).indent_hints == old(self).indent_hints,
            final(self).base == old(self).base,
            old(self).pending_clear() ==> *final(self) == *old(self),
            !old(self).pending_clear() ==> ({
                let rev = final(self).history.revisions@.last();
                &&& final(self).pending_clear()
                &&& final(self).version == old(self).version + 1
                &&& final(self).old_state.doc@ == old(self).state.doc@
                &&& final(self).old_state.selection.ranges@ == old(
                    self,
                ).state.selection.ranges@
                &&& match rev.revert.selection {
                    Option::Some(sb) => sb.ranges@ == old(self).old_state.selection.ranges@
                        && sb.primary_index == old(self).old_state.selection.primary_index,
                    Option::None => false,
                }
                &&& match rev.transaction.selection {
                    Option::Some(sa) => sa.ranges@ == old(self).state.selection.ranges@
                        && sa.primary_index == old(self).state.selection.primary_index,
                    Option::None => false,
                }
                &&& final(self).history.cursor == old(self).history.cursor + 1
                &&& final(self).history.revisions@.len() == old(self).history.cursor + 1
                &&& forall|i: int|
                    0 <= i < old(self).history.cursor ==> final(self).history.revisions@[i]
                        == old(self).history.revisions@[i]
                &&& rev.before@ == old(self).old_state.doc@
                &&& rev.after@ == old(self).state.doc@
                &&& crate::changeset::ops_equiv(
                    rev.transaction.changes.ops@,
                    old(self).changes.ops@,
                )
                &&& crate::changeset::inverts(
                    rev.revert.changes.ops@,
                    old(self).changes.ops@,
                    old(self).old_state.doc@,
                )
            }),
    {
        if self.changes.is_identity() {
            return;
        }
        let sel_copy = copy_selection(&self.state.selection);
        let mut pending_ops: Vec<crate::changeset::Op> = Vec::new();
        core::mem::swap(&mut pending_ops, &mut self.changes.ops);
        let tx = Transaction { changes: ChangeSet { ops: pending_ops }, selection: Some(sel_copy) };
        proof {
            lemma_apply_len(tx.changes.ops@, old(self).old_state.doc@);
        }
        self.history.commit_revision(&tx, &self.old_state);
        let doc_copy = clone_chars(&self.state.doc);
        let sel_copy2 = copy_selection(&self.state.selection);
        self.old_state = State { doc: doc_copy, selection: sel_copy2 };
        let len = self.state.doc.len();
        self.changes = ChangeSet::new_identity(len);
        self.version = self.version + 1;
    }

    /// Record the current selection as the pre-edit selection of the next
    /// revision.  One-shot edit commands call this before applying, so
    /// that undoing them restores the cursors from just before the edit.
    pub fn snapshot_before_edit(&mut self)
        requires
            old(self).well_formed(),
            old(self).pending_clear(),
        ensures
            final(self).well_formed(),
            final(self).pending_clear(),
            final(self).state == old(self).state,
            final(self).mode == old(self).mode,
            final(self).changes == old(self).changes,
            final(self).history == old(self).history,
            final(self).version == old(self).version,
            final(self).restore_cursor == old(self).restore_cursor,
            final(self).indent_hints == old(self).indent_hints,
            final(self).base == old(self).base,
            final(self).old_state.doc@ == old(self).old_state.doc@,
            final(self).old_state.selection.ranges@ == old(self).state.selection.ranges@,
            final(self).old_state.selection.primary_index == old(
                self,
            ).state.selection.primary_index,
    {
        proof {
            lemma_identity_shape_applies(self.changes.ops@, self.old_state.doc@);
        }
        let sel = copy_selection(&self.state.selection);
        self.old_state.selection = sel;
    }

    /// Undo one revision: apply the stored inverse, restoring the exact
    /// text and selection from before that revision, and move the history
    /// cursor back.  With no revision before the cursor, nothing happens.
    /// Callable only with nothing staged, which the mode machine
    /// guarantees by committing on the way back to normal mode.
    #[verifier::rlimit(100)]
    #[verifier::spinoff_prover]
    pub fn undo(&mut self) -> (did: bool)
        requires
            old(self).well_formed(),
            old(self).pending_clear(),
            old(self).version < u64::MAX,
        ensures
            final(self).well_formed(),
            final(self).pending_clear(),
            final(self).mode == old(self).mode,
            final(self).history.revisions@ == old(self).history.revisions@,
            old(self).history.cursor == 0 ==> !did && *final(self) == *old(self),
            old(self).history.cursor > 0 ==> ({
                let rev = old(self).history.revisions@[old(self).history.cursor - 1];
                &&& did
                &&& final(self).state.doc@ == rev.before@
                &&& match rev.revert.selection {
                    Option::Some(s) => final(self).state.selection.ranges@ == s.ranges@
                        && final(self).state.selection.primary_index == s.primary_index,
                    Option::None => false,
                }
                &&& final(self).history.cursor == old(self).history.cursor - 1
                &&& final(self).version == old(self).version + 1
            }),
    {
        let ghost rev = if old(self).history.cursor > 0 {
            old(self).history.revisions@[old(self).history.cursor - 1]
        } else {
            old(self).history.revisions@[0]
        };
        proof {
            lemma_identity_shape_applies(self.changes.ops@, self.old_state.doc@);
        }
        let r = self.history.undo();
        match r {
            None => false,
            Some(t) => {
                proof {
                    lemma_equiv_preserves(t.changes.ops@, rev.revert.changes.ops@);
                    lemma_apply_len(rev.transaction.changes.ops@, rev.before@);
                    assert(apply_ops(t.changes.ops@, self.state.doc@) == apply_ops(
                        rev.revert.changes.ops@,
                        apply_ops(rev.transaction.changes.ops@, rev.before@),
                    ));
                }
                let new_text = t.changes.apply(&self.state.doc);
                let new_len = new_text.len();
                let new_sel = match &t.selection {
                    Some(s) => clamp_selection(s, new_len),
                    None => {
                        proof {
                            assert(false);
                        }
                        Selection::point(0)
                    },
                };
                let doc_copy = clone_chars(&new_text);
                let sel_copy = copy_selection(&new_sel);
                self.state = State { doc: new_text, selection: new_sel };
                self.old_state = State { doc: doc_copy, selection: sel_copy };
                self.changes = ChangeSet::new_identity(new_len);
                self.version = self.version + 1;
                proof {
                    assert(apply_ops(self.changes.ops@, self.old_state.doc@)
                        == self.old_state.doc@);
                }
                true
            },
        }
    }

    /// Redo one revision: reapply the next revision's forward transaction,
    /// restoring the exact text and selection from after it, and advance
    /// the history cursor.  With no revision ahead, nothing happens.
    #[verifier::rlimit(100)]
    #[verifier::spinoff_prover]
    pub fn redo(&mut self) -> (did: bool)
        requires
            old(self).well_formed(),
            old(self).pending_clear(),
            old(self).version < u64::MAX,
        ensures
            final(self).well_formed(),
            final(self).pending_clear(),
            final(self).mode == old(self).mode,
            final(self).history.revisions@ == old(self).history.revisions@,
            old(self).history.cursor == old(self).history.revisions@.len() ==> !did
                && *final(self) == *old(self),
            old(self).history.cursor < old(self).history.revisions@.len() ==> ({
                let rev = old(self).history.revisions@[old(self).history.cursor as int];
                &&& did
                &&& final(self).state.doc@ == rev.after@
                &&& match rev.transaction.selection {
                    Option::Some(s) => final(self).state.selection.ranges@ == s.ranges@
                        && final(self).state.selection.primary_index == s.primary_index,
                    Option::None => false,
                }
                &&& final(self).history.cursor == old(self).history.cursor + 1
                &&& final(self).version == old(self).version + 1
            }),
    {
        let ghost rev = if old(self).history.cursor < old(self).history.revisions@.len() {
            old(self).history.revisions@[old(self).history.cursor as int]
        } else {
            old(self).history.revisions@[0]
        };
        proof {
            lemma_identity_shape_applies(self.changes.ops@, self.old_state.doc@);
        }
        let r = self.history.redo();
        match r {
            None => false,
            Some(t) => {
                proof {
                    lemma_equiv_preserves(t.changes.ops@, rev.transaction.changes.ops@);
                    lemma_apply_len(rev.transaction.changes.ops@, rev.before@);
                }
                let new_text = t.changes.apply(&self.state.doc);
                let new_len = new_text.len();
                let new_sel = match &t.selection {
                    Some(s) => clamp_selection(s, new_len),
                    None => {
                        proof {
                            assert(false);
                        }
                        Selection::point(0)
                    },
                };
                let doc_copy = clone_chars(&new_text);
                let sel_copy = copy_selection(&new_sel);
                self.state = State { doc: new_text, selection: new_sel };
                self.old_state = State { doc: doc_copy, selection: sel_copy };
                self.changes = ChangeSet::new_identity(new_len);
                self.version = self.version + 1;
                proof {
                    assert(apply_ops(self.changes.ops@, self.old_state.doc@)
                        == self.old_state.doc@);
                }
                true
            },
        }
    }
}

/// Vertical context the viewport keeps above and below the cursor.
pub const PADDING: usize = 5;

/// A view: one document plus the visible window over it and the register
/// store the commands use.
pub struct EditorView {
    pub doc: Document,
    /// Index of the first visible line.
    pub first_line: usize,
    /// Width and height of the window, in cells.
    pub size: (u16, u16),
    pub registers: Registers,
}

impl EditorView {
    pub open spec fn well_formed(self) -> bool {
        self.doc.well_formed()
    }

    /// A view over a fresh document, with the window at the top.
    pub fn new(text: Vec<char>, width: u16, height: u16) -> (r: EditorView)
        ensures
            r.well_formed(),
            r.doc.state.doc@ == text@,
            r.doc.state.selection.ranges@ =~= seq![Range { anchor: 0usize, head: 0usize }],
            r.doc.state.selection.primary_index == 0,
            r.doc.mode == Mode::Normal,
            r.doc.version == 0,
            r.doc.pending_clear(),
            r.doc.history.revisions@.len() == 0,
            r.doc.history.cursor == 0,
            !r.doc.restore_cursor,
            r.first_line == 0,
            r.size == (width, height),
            r.registers.entries@.len() == 0,
    {
        EditorView {
            doc: Document::new(text),
            first_line: 0,
            size: (width, height),
            registers: Registers::new(),
        }
    }

    /// Index one past the last visible line.
    pub fn last_line(&self) -> (r: usize)
        ensures
            r == self.first_line + self.size.1 as nat || (r == usize::MAX && self.first_line
                + self.size.1 as nat > usize::MAX),
    {
        if self.first_line <= usize::MAX - self.size.1 as usize {
            self.first_line + self.size.1 as usize
        } else {
            usize::MAX
        }
    }
}

} // verus!
