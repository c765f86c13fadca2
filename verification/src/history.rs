//! Linear undo history: committed revisions with their inverses, and a
//! cursor separating what can be undone from what can be redone.

use vstd::prelude::*;

use crate::changeset::{apply_ops, inverts, lemma_equiv_preserves, ops_equiv, Op};
use crate::state::{ranges_in_bounds, State};
use crate::transaction::Transaction;

verus! {

/// A committed edit: the forward transaction, its inverse, and the ghost
/// texts it led from and to.
pub struct Revision {
    pub transaction: Transaction,
    pub revert: Transaction,
    pub before: Ghost<Seq<char>>,
    pub after: Ghost<Seq<char>>,
}

pub open spec fn revision_wf(rev: Revision) -> bool {
    &&& rev.transaction.changes.well_formed()
    &&& rev.transaction.changes.len_before() == rev.before@.len()
    &&& apply_ops(rev.transaction.changes.ops@, rev.before@) == rev.after@
    &&& inverts(rev.revert.changes.ops@, rev.transaction.changes.ops@, rev.before@)
    &&& match rev.transaction.selection {
        Option::Some(s) => s.well_formed() && ranges_in_bounds(s.ranges@, rev.after@.len()),
        Option::None => false,
    }
    &&& match rev.revert.selection {
        Option::Some(s) => s.well_formed() && ranges_in_bounds(s.ranges@, rev.before@.len()),
        Option::None => false,
    }
}

/// An append-only, linear log of committed revisions.  Everything before
/// the cursor is undoable; everything from the cursor on is redoable.
pub struct History {
    pub revisions: Vec<Revision>,
    pub cursor: usize,
}

impl History {
    pub open spec fn well_formed(self) -> bool {
        &&& self.cursor <= self.revisions@.len()
        &&& forall|i: int| 0 <= i < self.revisions@.len() ==> revision_wf(#[trigger] self.revisions@[i])
        &&& forall|i: int|
            0 <= i < self.revisions@.len() - 1 ==> (#[trigger] self.revisions@[i]).after@
                == self.revisions@[i + 1].before@
    }

    /// A fresh, empty history.
    pub fn new() -> (r: History)
        ensures
            r.well_formed(),
            r.revisions@.len() == 0,
            r.cursor == 0,
    {
        History { revisions: Vec::new(), cursor: 0 }
    }

    /// Append a revision for `transaction`, which led from `old_state` to
    /// the current text; any revisions after the cursor (the redo tail)
    /// are discarded first.
    #[verifier::rlimit(100)]
    #[verifier::spinoff_prover]
    pub fn commit_revision(&mut self, transaction: &Transaction, old_state: &State)
        requires
            old(self).well_formed(),
            old_state.well_formed(),
            transaction.changes.well_formed(),
            transaction.changes.len_before() == old_state.doc@.len(),
            match transaction.selection {
                Option::Some(s) => s.well_formed() && ranges_in_bounds(
                    s.ranges@,
                    transaction.changes.len_after(),
                ),
                Option::None => false,
            },
            old(self).cursor > 0 ==> old_state.doc@ == old(self).revisions@[old(self).cursor
                - 1].after@,
        ensures
            final(self).well_formed(),
            final(self).cursor == old(self).cursor + 1,
            final(self).revisions@.len() == old(self).cursor + 1,
            forall|i: int|
                0 <= i < old(self).cursor ==> final(self).revisions@[i] == old(
                    self,
                ).revisions@[i],
            ({
                let rev = final(self).revisions@.last();
                &&& ops_equiv(rev.transaction.changes.ops@, transaction.changes.ops@)
                &&& rev.before@ == old_state.doc@
                &&& rev.after@ == apply_ops(transaction.changes.ops@, old_state.doc@)
                &&& inverts(
                    rev.revert.changes.ops@,
                    transaction.changes.ops@,
                    old_state.doc@,
                )
                &&& match rev.revert.selection {
                    Option::Some(s) => s.ranges@ == old_state.selection.ranges@
                        && s.primary_index == old_state.selection.primary_index,
                    Option::None => false,
                }
                &&& match (rev.transaction.selection, transaction.selection) {
                    (Option::Some(a), Option::Some(b)) => a.ranges@ == b.ranges@
                        && a.primary_index == b.primary_index,
                    _ => false,
                }
            }),
    {
        self.revisions.truncate(self.cursor);
        let stored = transaction.duplicate();
        let inv_changes = transaction.changes.invert(&old_state.doc);
        let revert = Transaction {
            changes: inv_changes,
            selection: Some(crate::selection::copy_selection(&old_state.selection)),
        };
        let ghost before = old_state.doc@;
        let ghost after = apply_ops(transaction.changes.ops@, old_state.doc@);
        proof {
            lemma_equiv_preserves(stored.changes.ops@, transaction.changes.ops@);
        }
        let rev = Revision {
            transaction: stored,
            revert,
            before: Ghost(before),
            after: Ghost(after),
        };
        proof {
            crate::changeset::lemma_apply_len(transaction.changes.ops@, before);
            assert(apply_ops(rev.transaction.changes.ops@, before) == apply_ops(
                transaction.changes.ops@,
                before,
            ));
            assert(apply_ops(
                rev.revert.changes.ops@,
                apply_ops(rev.transaction.changes.ops@, before),
            ) == before);
            assert(revision_wf(rev));
        }
        self.revisions.push(rev);
        self.cursor = self.revisions.len();
        proof {
            let revs = self.revisions@;
            let oldr = old(self).revisions@;
            let c = old(self).cursor as int;
            assert forall|i: int| 0 <= i < revs.len() implies revision_wf(
                #[trigger] revs[i],
            ) by {
                if i < c {
                    assert(revs[i] == oldr[i]);
                } else {
                    assert(revs[i] == rev);
                }
            }
            assert forall|i: int| 0 <= i < revs.len() - 1 implies (#[trigger] revs[i]).after@
                == revs[i + 1].before@ by {
                if i < c - 1 {
                    assert(revs[i] == oldr[i]);
                    assert(revs[i + 1] == oldr[i + 1]);
                } else {
                    assert(revs[i] == oldr[i]);
                    assert(revs[i + 1] == rev);
                }
            }
        }
    }

    /// Step back once: returns the stored inverse transaction to apply, or
    /// nothing when there is no revision before the cursor.
    pub fn undo(&mut self) -> (r: Option<Transaction>)
        requires
            old(self).well_formed(),
        ensures
            final(self).well_formed(),
            final(self).revisions@ == old(self).revisions@,
            old(self).cursor == 0 ==> r is None && *final(self) == *old(self),
            old(self).cursor > 0 ==> ({
                let rev = old(self).revisions@[old(self).cursor - 1];
                &&& final(self).cursor == old(self).cursor - 1
                &&& match r {
                    Option::Some(t) => ops_equiv(t.changes.ops@, rev.revert.changes.ops@)
                        && match (t.selection, rev.revert.selection) {
                        (Option::Some(a), Option::Some(b)) => a.ranges@ == b.ranges@
                            && a.primary_index == b.primary_index,
                        _ => false,
                    },
                    Option::None => false,
                }
            }),
    {
        if self.cursor == 0 {
            return None;
        }
        self.cursor = self.cursor - 1;
        let t = self.revisions[self.cursor].revert.duplicate();
        Some(t)
    }

    /// Step forward once: returns the next revision's forward transaction,
    /// or nothing when there is no revision at or after the cursor.
    pub fn redo(&mut self) -> (r: Option<Transaction>)
        requires
            old(self).well_formed(),
        ensures
            final(self).well_formed(),
            final(self).revisions@ == old(self).revisions@,
            old(self).cursor == old(self).revisions@.len() ==> r is None && *final(self) == *old(
                self,
            ),
            old(self).cursor < old(self).revisions@.len() ==> ({
                let rev = old(self).revisions@[old(self).cursor as int];
                &&& final(self).cursor == old(self).cursor + 1
                &&& match r {
                    Option::Some(t) => ops_equiv(t.changes.ops@, rev.transaction.changes.ops@)
                        && match (t.selection, rev.transaction.selection) {
                        (Option::Some(a), Option::Some(b)) => a.ranges@ == b.ranges@
                            && a.primary_index == b.primary_index,
                        _ => false,
                    },
                    Option::None => false,
                }
            }),
    {
        if self.cursor >= self.revisions.len() {
            return None;
        }
        let t = self.revisions[self.cursor].transaction.duplicate();
        self.cursor = self.cursor + 1;
        Some(t)
    }
}

/// Undoing a chain of changesets, last first.
pub open spec fn undo_fold(invs: Seq<Seq<Op>>, t: Seq<char>) -> Seq<char>
    decreases invs.len(),
{
    if invs.len() == 0 {
        t
    } else {
        undo_fold(invs.drop_last(), apply_ops(invs.last(), t))
    }
}

/// Replaying a chain of changesets, first first.
pub open spec fn redo_fold(chain: Seq<Seq<Op>>, t: Seq<char>) -> Seq<char>
    decreases chain.len(),
{
    if chain.len() == 0 {
        t
    } else {
        redo_fold(chain.drop_first(), apply_ops(chain[0], t))
    }
}

/// Undo round trip: applying any number of edits and then undoing each of
/// them, last first, restores the exact original text.
pub proof fn lemma_undo_chain_restores(chain: Seq<Seq<Op>>, invs: Seq<Seq<Op>>, texts: Seq<
    Seq<char>,
>)
    requires
        texts.len() == chain.len() + 1,
        invs.len() == chain.len(),
        forall|i: int|
            0 <= i < chain.len() ==> texts[i + 1] == apply_ops(#[trigger] chain[i], texts[i]),
        forall|i: int| 0 <= i < chain.len() ==> inverts(#[trigger] invs[i], chain[i], texts[i]),
    ensures
        undo_fold(invs, texts.last()) == texts[0],
    decreases chain.len(),
{
    if chain.len() > 0 {
        let n = chain.len() as int;
        assert(texts[n] == apply_ops(chain[n - 1], texts[n - 1]));
        assert(inverts(invs[n - 1], chain[n - 1], texts[n - 1]));
        assert(apply_ops(invs[n - 1], texts[n]) == texts[n - 1]);
        assert(invs.last() == invs[n - 1]);
        assert forall|i: int|
            0 <= i < chain.drop_last().len() implies texts.drop_last()[i + 1] == apply_ops(
            #[trigger] chain.drop_last()[i],
            texts.drop_last()[i],
        ) by {
            assert(chain.drop_last()[i] == chain[i]);
            assert(texts.drop_last()[i] == texts[i]);
            assert(texts.drop_last()[i + 1] == texts[i + 1]);
        }
        assert forall|i: int| 0 <= i < chain.drop_last().len() implies inverts(
            #[trigger] invs.drop_last()[i],
            chain.drop_last()[i],
            texts.drop_last()[i],
        ) by {
            assert(chain.drop_last()[i] == chain[i]);
            assert(invs.drop_last()[i] == invs[i]);
            assert(texts.drop_last()[i] == texts[i]);
        }
        lemma_undo_chain_restores(chain.drop_last(), invs.drop_last(), texts.drop_last());
        assert(texts.drop_last().last() == texts[n - 1]);
        assert(texts.drop_last()[0] == texts[0]);
    }
}

/// Redo round trip: replaying the same chain of edits from the original
/// text reaches the exact final text again.
pub proof fn lemma_redo_chain_replays(chain: Seq<Seq<Op>>, texts: Seq<Seq<char>>)
    requires
        texts.len() == chain.len() + 1,
        forall|i: int|
            0 <= i < chain.len() ==> texts[i + 1] == apply_ops(#[trigger] chain[i], texts[i]),
    ensures
        redo_fold(chain, texts[0]) == texts.last(),
    decreases chain.len(),
{
    if chain.len() > 0 {
        assert forall|i: int|
            0 <= i < chain.drop_first().len() implies texts.drop_first()[i + 1] == apply_ops(
            #[trigger] chain.drop_first()[i],
            texts.drop_first()[i],
        ) by {
            assert(chain.drop_first()[i] == chain[i + 1]);
            assert(texts.drop_first()[i] == texts[i + 1]);
            assert(texts.drop_first()[i + 1] == texts[i + 2]);
        }
        lemma_redo_chain_replays(chain.drop_first(), texts.drop_first());
        assert(texts.drop_first()[0] == texts[1]);
        assert(texts.drop_first().last() == texts.last());
        assert(redo_fold(chain, texts[0]) == redo_fold(chain.drop_first(), texts[1]));
    }
}

} // verus!
