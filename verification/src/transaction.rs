//! Transactions: a changeset built from explicit edits, plus the selection
//! to install after applying it.

use vstd::prelude::*;

use crate::changeset::{
    apply_ops, clone_chars, copy_op, lemma_cons_facts, op_equiv, ops_equiv, ops_len_after,
    ops_len_before, wf_ops, ChangeSet, Op,
};
use crate::error::EngineError;
use crate::selection::Selection;
use crate::state::State;

verus! {

/// One explicit edit: replace the span `[from, to)` with `insert`.
/// `to == from` is a pure insertion; `insert == None` a pure deletion.
#[derive(Debug)]
pub struct Edit {
    pub from: usize,
    pub to: usize,
    pub insert: Option<Vec<char>>,
}

/// The mathematical content of an edit.
pub struct SpecEdit {
    pub from: nat,
    pub to: nat,
    pub ins: Seq<char>,
}

pub open spec fn edit_view(e: Edit) -> SpecEdit {
    SpecEdit {
        from: e.from as nat,
        to: e.to as nat,
        ins: match e.insert {
            Option::Some(t) => t@,
            Option::None => Seq::empty(),
        },
    }
}

pub open spec fn edit_views(es: Seq<Edit>) -> Seq<SpecEdit> {
    es.map_values(|e: Edit| edit_view(e))
}

/// Edits from index `k` on are inside the document, sorted by start, and
/// non-overlapping, with none starting before `pos`.
pub open spec fn edits_valid_from(es: Seq<SpecEdit>, len: nat, pos: nat, k: int) -> bool {
    &&& forall|i: int|
        k <= i < es.len() ==> (#[trigger] es[i]).from <= es[i].to && es[i].to <= len
    &&& forall|i: int| k <= i < es.len() - 1 ==> (#[trigger] es[i]).to <= es[i + 1].from
    &&& (k < es.len() ==> pos <= es[k].from)
}

pub open spec fn edits_valid(es: Seq<SpecEdit>, len: nat) -> bool {
    edits_valid_from(es, len, 0, 0)
}

/// The text produced by the edits from index `k` on, applied to the part
/// of `s` from `p` to the end.
pub open spec fn edits_applied(es: Seq<SpecEdit>, s: Seq<char>, p: int) -> Seq<char>
    decreases es.len(),
{
    if es.len() == 0 {
        s.skip(p)
    } else {
        s.subrange(p, es[0].from as int) + es[0].ins + edits_applied(
            es.drop_first(),
            s,
            es[0].to as int,
        )
    }
}

/// Operations realizing the edits `es[k..]` over a document of length
/// `len`, starting at position `pos`.
#[verifier::rlimit(100)]
#[verifier::spinoff_prover]
fn change_ops_from(edits: &Vec<Edit>, k: usize, len: usize, pos: usize) -> (r: Vec<Op>)
    requires
        k <= edits@.len(),
        pos <= len,
        edits_valid_from(edit_views(edits@), len as nat, pos as nat, k as int),
    ensures
        wf_ops(r@),
        ops_len_before(r@) == len - pos,
        forall|s: Seq<char>|
            s.len() == len ==> #[trigger] apply_ops(r@, s.skip(pos as int)) == edits_applied(
                edit_views(edits@).skip(k as int),
                s,
                pos as int,
            ),
    decreases edits@.len() - k,
{
    let ghost ev = edit_views(edits@);
    if k == edits.len() {
        let mut r: Vec<Op> = Vec::new();
        if pos < len {
            r.push(Op::Retain(len - pos));
        }
        proof {
            assert(ev.skip(k as int) =~= Seq::<SpecEdit>::empty());
            assert(ops_len_before(Seq::<Op>::empty()) == 0);
            if pos < len {
                assert(r@.drop_first() =~= Seq::<Op>::empty());
                assert(ops_len_before(r@) == (len - pos) + ops_len_before(r@.drop_first()));
            }
            assert forall|s: Seq<char>| s.len() == len implies #[trigger] apply_ops(
                r@,
                s.skip(pos as int),
            ) == edits_applied(ev.skip(k as int), s, pos as int) by {
                if pos < len {
                    let x = s.skip(pos as int);
                    assert(apply_ops(Seq::<Op>::empty(), x.skip((len - pos) as int)) == x.skip(
                        (len - pos) as int,
                    ));
                    assert(x.take((len - pos) as int) + x.skip((len - pos) as int) =~= x);
                }
            }
        }
        return r;
    }
    let e_from = edits[k].from;
    let e_to = edits[k].to;
    proof {
        assert(ev[k as int] == edit_view(edits@[k as int]));
        assert(ev.skip(k as int)[0] == ev[k as int]);
        assert(ev.skip(k as int).drop_first() =~= ev.skip(k as int + 1));
    }
    let mut r = change_ops_from(edits, k + 1, len, e_to);
    let ghost ops0 = r@;
    let d = e_to - e_from;
    if d > 0 {
        proof {
            lemma_cons_facts(Op::Delete(d), ops0);
        }
        r.insert(0, Op::Delete(d));
    }
    let ghost ops1 = r@;
    let mut tlen: usize = 0;
    let ghost tv = ev[k as int].ins;
    match &edits[k].insert {
        Option::Some(t) => {
            tlen = t.len();
            if tlen > 0 {
                let tc = clone_chars(t);
                proof {
                    lemma_cons_facts(Op::Insert(tc), ops1);
                }
                r.insert(0, Op::Insert(tc));
            }
        },
        Option::None => {},
    }
    let ghost ops2 = r@;
    let gap = e_from - pos;
    if gap > 0 {
        proof {
            lemma_cons_facts(Op::Retain(gap), ops2);
        }
        r.insert(0, Op::Retain(gap));
    }
    let ghost ops3 = r@;
    proof {
        assert(tv.len() == tlen);
        assert(ops_len_before(ops3) == (gap + d) + (len - e_to));
        assert forall|s: Seq<char>| s.len() == len implies #[trigger] apply_ops(
            ops3,
            s.skip(pos as int),
        ) == edits_applied(ev.skip(k as int), s, pos as int) by {
            let tail = edits_applied(ev.skip(k as int + 1), s, e_to as int);
            assert(apply_ops(ops0, s.skip(e_to as int)) == tail);
            // Stage one: the deletion swallows `[from, to)`.
            assert(apply_ops(ops1, s.skip(e_from as int)) == tail) by {
                if d > 0 {
                    assert(s.skip(e_from as int).skip(d as int) =~= s.skip(e_to as int));
                } else {
                    assert(s.skip(e_from as int) =~= s.skip(e_to as int));
                }
            }
            // Stage two: the insertion contributes its characters.
            assert(apply_ops(ops2, s.skip(e_from as int)) == tv + tail) by {
                if tv.len() == 0 {
                    assert(tv + tail =~= tail);
                }
            }
            // Stage three: the retained gap keeps `[pos, from)`.
            assert(apply_ops(ops3, s.skip(pos as int)) == s.subrange(pos as int, e_from as int)
                + tv + tail) by {
                if gap > 0 {
                    assert(s.skip(pos as int).take(gap as int) =~= s.subrange(
                        pos as int,
                        e_from as int,
                    ));
                    assert(s.skip(pos as int).skip(gap as int) =~= s.skip(e_from as int));
                    assert(s.skip(pos as int).take(gap as int) + (tv + tail) =~= (s.subrange(
                        pos as int,
                        e_from as int,
                    ) + tv) + tail);
                } else {
                    assert(s.subrange(pos as int, e_from as int) =~= Seq::<char>::empty());
                    assert(s.skip(pos as int) =~= s.skip(e_from as int));
                    assert(Seq::<char>::empty() + tv + tail =~= tv + tail);
                }
            }
            assert(edits_applied(ev.skip(k as int), s, pos as int) == s.subrange(
                pos as int,
                e_from as int,
            ) + tv + tail);
        }
    }
    r
}

/// A changeset plus, optionally, the selection to install afterwards.
#[derive(Debug)]
pub struct Transaction {
    pub changes: ChangeSet,
    pub selection: Option<Selection>,
}

impl Transaction {
    pub open spec fn well_formed_for(self, len: nat) -> bool {
        &&& self.changes.well_formed()
        &&& self.changes.len_before() == len
        &&& match self.selection {
            Option::Some(s) => s.well_formed(),
            Option::None => true,
        }
    }

    /// Build a transaction from explicit `(from, to, replacement)` edits
    /// over the state's text.  The edits must be sorted by start position
    /// and non-overlapping; otherwise nothing is built and the caller
    /// contract violation is reported.
    pub fn change(state: &State, edits: Vec<Edit>) -> (r: Result<Transaction, EngineError>)
        ensures
            r is Ok <==> edits_valid(edit_views(edits@), state.doc@.len()),
            r is Err ==> r->Err_0 == EngineError::UnsortedOrOverlappingEdits,
            r is Ok ==> ({
                let tx = r->Ok_0;
                &&& tx.well_formed_for(state.doc@.len())
                &&& tx.selection is None
                &&& forall|s: Seq<char>|
                    s.len() == state.doc@.len() ==> #[trigger] apply_ops(tx.changes.ops@, s)
                        == edits_applied(edit_views(edits@), s, 0)
            }),
    {
        let ghost ev = edit_views(edits@);
        let len = state.doc.len();
        // Check the caller contract: sorted, non-overlapping, in bounds.
        let mut ok = true;
        let mut i: usize = 0;
        while i < edits.len()
            invariant
                i <= edits@.len(),
                len == state.doc@.len(),
                ev == edit_views(edits@),
                ok <==> ((forall|q: int|
                    0 <= q < i ==> (#[trigger] ev[q]).from <= ev[q].to && ev[q].to <= len) && (
                forall|q: int| 0 <= q < i - 1 ==> (#[trigger] ev[q]).to <= ev[q + 1].from)),
            decreases edits@.len() - i,
        {
            proof {
                assert(ev[i as int] == edit_view(edits@[i as int]));
                if i > 0 {
                    assert(ev[i as int - 1] == edit_view(edits@[i as int - 1]));
                }
            }
            if !(edits[i].from <= edits[i].to && edits[i].to <= len) {
                ok = false;
            }
            if i > 0 && edits[i - 1].to > edits[i].from {
                ok = false;
            }
            i = i + 1;
        }
        if !ok {
            return Err(EngineError::UnsortedOrOverlappingEdits);
        }
        proof {
            assert(edits_valid(ev, len as nat));
        }
        let ops = change_ops_from(&edits, 0, len, 0);
        proof {
            assert(ev.skip(0) =~= ev);
            assert forall|s: Seq<char>| s.len() == state.doc@.len() implies #[trigger] apply_ops(
                ops@,
                s,
            ) == edits_applied(ev, s, 0) by {
                assert(s.skip(0) =~= s);
                assert(apply_ops(ops@, s.skip(0)) == edits_applied(ev.skip(0), s, 0));
            }
        }
        Ok(Transaction { changes: ChangeSet { ops }, selection: None })
    }

    /// Build a changeset that inserts `text` at every cursor head of the
    /// current selection, in ascending order.
    pub fn insert(state: &State, text: Vec<char>) -> (r: Transaction)
        requires
            state.well_formed(),
        ensures
            r.well_formed_for(state.doc@.len()),
            r.selection is None,
            forall|s: Seq<char>|
                s.len() == state.doc@.len() ==> #[trigger] apply_ops(r.changes.ops@, s)
                    == edits_applied(insert_edits(state.selection.ranges@, text@), s, 0),
    {
        let ghost goal = insert_edits(state.selection.ranges@, text@);
        let mut edits: Vec<Edit> = Vec::new();
        let mut i: usize = 0;
        while i < state.selection.ranges.len()
            invariant
                state.well_formed(),
                i <= state.selection.ranges@.len(),
                goal == insert_edits(state.selection.ranges@, text@),
                edits@.len() == i,
                forall|q: int| 0 <= q < i ==> edit_view(#[trigger] edits@[q]) == goal[q],
            decreases state.selection.ranges@.len() - i,
        {
            let h = state.selection.ranges[i].head;
            let tc = clone_chars(&text);
            edits.push(Edit { from: h, to: h, insert: Some(tc) });
            i = i + 1;
        }
        proof {
            assert(edit_views(edits@) =~= goal);
            crate::selection::lemma_normalized_global(state.selection.ranges@);
            assert forall|q: int| 0 <= q < goal.len() implies (#[trigger] goal[q]).from
                <= goal[q].to && goal[q].to <= state.doc@.len() by {
                assert(state.selection.ranges@[q].head <= state.doc@.len());
            }
            assert forall|q: int| 0 <= q < goal.len() - 1 implies (#[trigger] goal[q]).to <= goal[q
                + 1].from by {
                let rs = state.selection.ranges@;
                assert(rs[q].to_spec() <= rs[q + 1].from_spec());
                assert(rs[q].head <= rs[q].to_spec());
                assert(rs[q + 1].from_spec() <= rs[q + 1].head);
            }
            assert(edits_valid(goal, state.doc@.len()));
        }
        let res = Self::change(state, edits);
        match res {
            Ok(tx) => tx,
            Err(_) => {
                proof {
                    assert(false);
                }
                Transaction { changes: ChangeSet { ops: Vec::new() }, selection: None }
            },
        }
    }

    /// Attach an explicit post-edit selection, overriding inference.
    pub fn with_selection(self, selection: Selection) -> (r: Transaction)
        ensures
            r.changes == self.changes,
            r.selection == Some(selection),
    {
        Transaction { changes: self.changes, selection: Some(selection) }
    }

    /// Copy of the transaction, contents for contents.
    pub fn duplicate(&self) -> (r: Transaction)
        ensures
            ops_equiv(r.changes.ops@, self.changes.ops@),
            match (r.selection, self.selection) {
                (Option::Some(a), Option::Some(b)) => a.ranges@ == b.ranges@ && a.primary_index
                    == b.primary_index,
                (Option::None, Option::None) => true,
                _ => false,
            },
    {
        let changes = self.changes.duplicate();
        let selection = match &self.selection {
            Some(s) => Some(crate::selection::copy_selection(s)),
            None => None,
        };
        Transaction { changes, selection }
    }
}

/// The edit list that inserts `text` at every head of `rs`.
pub open spec fn insert_edits(rs: Seq<crate::selection::Range>, text: Seq<char>) -> Seq<SpecEdit> {
    Seq::new(
        rs.len(),
        |i: int| SpecEdit { from: rs[i].head as nat, to: rs[i].head as nat, ins: text },
    )
}

} // verus!
