//! Changesets: invertible, composable descriptions of text edits.
//!
//! A changeset is a sequence of operations read left to right against a text
//! snapshot: retain the next `n` characters, insert new characters, or
//! delete the next `n` characters.  The retained and deleted lengths add up
//! to the length of the snapshot the changeset was built against, which is
//! what makes application, composition and inversion well defined.

use vstd::prelude::*;

verus! {

/// One primitive operation over a text snapshot.
#[derive(Debug)]
pub enum Op {
    /// Keep the next `n` characters of the old text.
    Retain(usize),
    /// Add these characters to the new text.
    Insert(Vec<char>),
    /// Drop the next `n` characters of the old text.
    Delete(usize),
}

/// How many characters of the old text the operation consumes.
pub open spec fn op_len_before(op: Op) -> nat {
    match op {
        Op::Retain(n) => n as nat,
        Op::Insert(_) => 0,
        Op::Delete(n) => n as nat,
    }
}

/// How many characters of the new text the operation produces.
pub open spec fn op_len_after(op: Op) -> nat {
    match op {
        Op::Retain(n) => n as nat,
        Op::Insert(t) => t@.len(),
        Op::Delete(_) => 0,
    }
}

/// Zero-length operations are normalized away by every builder.
pub open spec fn op_positive(op: Op) -> bool {
    match op {
        Op::Retain(n) => n > 0,
        Op::Insert(t) => t@.len() > 0,
        Op::Delete(n) => n > 0,
    }
}

pub open spec fn wf_ops(ops: Seq<Op>) -> bool {
    forall|i: int| 0 <= i < ops.len() ==> op_positive(#[trigger] ops[i])
}

/// Length of the text the operations must be applied to.
pub open spec fn ops_len_before(ops: Seq<Op>) -> nat
    decreases ops.len(),
{
    if ops.len() == 0 {
        0
    } else {
        op_len_before(ops[0]) + ops_len_before(ops.drop_first())
    }
}

/// Length of the text the operations produce.
pub open spec fn ops_len_after(ops: Seq<Op>) -> nat
    decreases ops.len(),
{
    if ops.len() == 0 {
        0
    } else {
        op_len_after(ops[0]) + ops_len_after(ops.drop_first())
    }
}

/// The meaning of a changeset: the text produced by running the operations
/// left to right over `s`.
pub open spec fn apply_ops(ops: Seq<Op>, s: Seq<char>) -> Seq<char>
    decreases ops.len(),
{
    if ops.len() == 0 {
        s
    } else {
        match ops[0] {
            Op::Retain(n) => s.take(n as int) + apply_ops(ops.drop_first(), s.skip(n as int)),
            Op::Insert(t) => t@ + apply_ops(ops.drop_first(), s),
            Op::Delete(n) => apply_ops(ops.drop_first(), s.skip(n as int)),
        }
    }
}

/// `r` composes `a` with `b`: running `r` is the same as running `a` and
/// then `b`, on every text `a` accepts.
pub open spec fn composes(r: Seq<Op>, a: Seq<Op>, b: Seq<Op>) -> bool {
    &&& wf_ops(r)
    &&& ops_len_before(r) == ops_len_before(a)
    &&& ops_len_after(r) == ops_len_after(b)
    &&& forall|s: Seq<char>|
        s.len() == ops_len_before(a) ==> #[trigger] apply_ops(r, s) == apply_ops(
            b,
            apply_ops(a, s),
        )
}

/// `r` inverts `c` relative to the text `t` that `c` was built against:
/// running `r` over the edited text restores `t`.
pub open spec fn inverts(r: Seq<Op>, c: Seq<Op>, t: Seq<char>) -> bool {
    &&& wf_ops(r)
    &&& ops_len_before(r) == ops_len_after(c)
    &&& ops_len_after(r) == t.len()
    &&& apply_ops(r, apply_ops(c, t)) == t
}

pub proof fn lemma_ops_len_unfold(ops: Seq<Op>)
    requires
        ops.len() > 0,
    ensures
        ops_len_before(ops) == op_len_before(ops[0]) + ops_len_before(ops.drop_first()),
        ops_len_after(ops) == op_len_after(ops[0]) + ops_len_after(ops.drop_first()),
{
}

/// Applying operations to a text of the length they expect produces a text
/// of the length they promise.
pub proof fn lemma_apply_len(ops: Seq<Op>, s: Seq<char>)
    requires
        ops_len_before(ops) == s.len(),
    ensures
        apply_ops(ops, s).len() == ops_len_after(ops),
    decreases ops.len(),
{
    if ops.len() > 0 {
        match ops[0] {
            Op::Retain(n) => {
                lemma_apply_len(ops.drop_first(), s.skip(n as int));
            },
            Op::Insert(t) => {
                lemma_apply_len(ops.drop_first(), s);
            },
            Op::Delete(n) => {
                lemma_apply_len(ops.drop_first(), s.skip(n as int));
            },
        }
    }
}

/// Facts about a sequence of operations with its first element removed.
pub proof fn lemma_drop_facts(ops: Seq<Op>)
    requires
        ops.len() > 0,
    ensures
        ops.remove(0) =~= ops.drop_first(),
        ops_len_before(ops) == op_len_before(ops[0]) + ops_len_before(ops.drop_first()),
        ops_len_after(ops) == op_len_after(ops[0]) + ops_len_after(ops.drop_first()),
        wf_ops(ops) ==> op_positive(ops[0]) && wf_ops(ops.drop_first()),
{
    assert(ops.remove(0) =~= ops.drop_first());
    if wf_ops(ops) {
        assert forall|i: int| 0 <= i < ops.drop_first().len() implies op_positive(
            #[trigger] ops.drop_first()[i],
        ) by {
            assert(ops.drop_first()[i] == ops[i + 1]);
        }
    }
}

/// Facts about a sequence of operations with an element put back in front.
pub proof fn lemma_cons_facts(x: Op, ops: Seq<Op>)
    ensures
        ops.insert(0, x).len() == ops.len() + 1,
        ops.insert(0, x)[0] == x,
        ops.insert(0, x).drop_first() =~= ops,
        ops_len_before(ops.insert(0, x)) == op_len_before(x) + ops_len_before(ops),
        ops_len_after(ops.insert(0, x)) == op_len_after(x) + ops_len_after(ops),
        op_positive(x) && wf_ops(ops) ==> wf_ops(ops.insert(0, x)),
{
    let c = ops.insert(0, x);
    assert(c[0] == x);
    assert(c.drop_first() =~= ops);
    assert(ops_len_before(c) == op_len_before(x) + ops_len_before(ops));
    assert(ops_len_after(c) == op_len_after(x) + ops_len_after(ops));
    if op_positive(x) && wf_ops(ops) {
        assert forall|i: int| 0 <= i < c.len() implies op_positive(#[trigger] c[i]) by {
            if i > 0 {
                assert(c[i] == ops[i - 1]);
            }
        }
    }
}

/// Copy of a character vector, element for element.
pub fn clone_chars(t: &Vec<char>) -> (r: Vec<char>)
    ensures
        r@ == t@,
{
    let mut r: Vec<char> = Vec::new();
    let mut i: usize = 0;
    while i < t.len()
        invariant
            i <= t@.len(),
            r@ == t@.take(i as int),
        decreases t@.len() - i,
    {
        r.push(t[i]);
        proof {
            assert(t@.take(i as int).push(t@[i as int]) =~= t@.take(i + 1));
        }
        i += 1;
    }
    proof {
        assert(t@.take(t@.len() as int) =~= t@);
    }
    r
}

/// Copy of the characters in `[from, to)` of `t`.
pub fn copy_slice(t: &Vec<char>, from: usize, to: usize) -> (r: Vec<char>)
    requires
        from <= to <= t@.len(),
    ensures
        r@ == t@.subrange(from as int, to as int),
{
    let mut r: Vec<char> = Vec::new();
    let mut i: usize = from;
    while i < to
        invariant
            from <= i <= to <= t@.len(),
            r@ == t@.subrange(from as int, i as int),
        decreases to - i,
    {
        r.push(t[i]);
        proof {
            assert(t@.subrange(from as int, i as int).push(t@[i as int]) =~= t@.subrange(
                from as int,
                i + 1,
            ));
        }
        i += 1;
    }
    r
}

/// Split a character vector at `at` into its two halves.
fn split_chars(t: Vec<char>, at: usize) -> (r: (Vec<char>, Vec<char>))
    requires
        at <= t@.len(),
    ensures
        r.0@ == t@.take(at as int),
        r.1@ == t@.skip(at as int),
{
    let left = copy_slice(&t, 0, at);
    let right = copy_slice(&t, at, t.len());
    proof {
        assert(t@.subrange(0, at as int) =~= t@.take(at as int));
        assert(t@.subrange(at as int, t@.len() as int) =~= t@.skip(at as int));
    }
    (left, right)
}

/// A changeset over a text snapshot.  `ops` never holds a zero-length
/// operation, and the retained plus deleted lengths equal the length of the
/// snapshot the changeset was built against.
#[derive(Debug)]
pub struct ChangeSet {
    pub ops: Vec<Op>,
}

impl ChangeSet {
    /// Length of the text this changeset applies to.
    pub open spec fn len_before(self) -> nat {
        ops_len_before(self.ops@)
    }

    /// Length of the text this changeset produces.
    pub open spec fn len_after(self) -> nat {
        ops_len_after(self.ops@)
    }

    pub open spec fn well_formed(self) -> bool {
        wf_ops(self.ops@)
    }

    /// The identity changeset over a text of length `len`: a base case for
    /// building up edits incrementally.
    pub fn new_identity(len: usize) -> (r: ChangeSet)
        ensures
            r.well_formed(),
            identity_shape(r.ops@),
            r.len_before() == len,
            r.len_after() == len,
            forall|s: Seq<char>| s.len() == len ==> #[trigger] apply_ops(r.ops@, s) == s,
    {
        let mut ops: Vec<Op> = Vec::new();
        if len > 0 {
            ops.push(Op::Retain(len));
        }
        let r = ChangeSet { ops };
        proof {
            if len > 0 {
                assert(r.ops@.drop_first() =~= Seq::<Op>::empty());
                assert(ops_len_before(Seq::<Op>::empty()) == 0);
                assert(ops_len_after(Seq::<Op>::empty()) == 0);
            }
            assert forall|s: Seq<char>| s.len() == len implies #[trigger] apply_ops(r.ops@, s)
                == s by {
                if len > 0 {
                    assert(apply_ops(Seq::<Op>::empty(), s.skip(len as int)) == s.skip(
                        len as int,
                    ));
                    assert(s.take(len as int) + s.skip(len as int) =~= s);
                }
            }
        }
        r
    }

    /// Whether this changeset is the identity: builders normalize, so the
    /// identity is always either no operations or one retain.
    pub fn is_identity(&self) -> (r: bool)
        requires
            self.well_formed(),
        ensures
            r <==> (self.ops@.len() == 0 || (self.ops@.len() == 1 && self.ops@[0] is Retain)),
            r ==> forall|s: Seq<char>|
                s.len() == self.len_before() ==> #[trigger] apply_ops(self.ops@, s) == s,
    {
        let r = self.ops.len() == 0 || (self.ops.len() == 1 && (match &self.ops[0] {
            Op::Retain(_) => true,
            _ => false,
        }));
        proof {
            if r {
                assert forall|s: Seq<char>|
                    s.len() == self.len_before() implies #[trigger] apply_ops(self.ops@, s)
                    == s by {
                    if self.ops@.len() == 1 {
                        let n = self.ops@[0]->Retain_0;
                        assert(self.ops@.drop_first() =~= Seq::<Op>::empty());
                        assert(ops_len_before(Seq::<Op>::empty()) == 0);
                        assert(apply_ops(Seq::<Op>::empty(), s.skip(n as int)) == s.skip(
                            n as int,
                        ));
                        assert(s.take(n as int) + s.skip(n as int) =~= s);
                    }
                }
            }
        }
        r
    }
}

/// Merge two runs of operations into one whose effect is running the first,
/// then the second.  The recursion consumes the heads of `a` and `b` in
/// step, splitting whichever of the two is longer.
#[verifier::rlimit(100)]
#[verifier::spinoff_prover]
fn compose_ops_vec(a: Vec<Op>, b: Vec<Op>) -> (r: Vec<Op>)
    requires
        wf_ops(a@),
        wf_ops(b@),
        ops_len_after(a@) == ops_len_before(b@),
    ensures
        composes(r@, a@, b@),
    decreases a@.len() + b@.len(),
{
    let ghost a0 = a@;
    let ghost b0 = b@;
    let ghost lb = ops_len_before(a0);
    let mut a = a;
    let mut b = b;

    // A leading delete of `a` happens before anything `b` can see.
    if a.len() > 0 {
        let is_del = match &a[0] {
            Op::Delete(_) => true,
            _ => false,
        };
        if is_del {
            let ha = a.remove(0);
            proof {
                lemma_drop_facts(a0);
            }
            let mut r = compose_ops_vec(a, b);
            let ghost rr = r@;
            let ghost n = ha->Delete_0;
            r.insert(0, ha);
            proof {
                lemma_cons_facts(ha, rr);
                assert forall|s: Seq<char>| s.len() == ops_len_before(a0) implies #[trigger]
                    apply_ops(r@, s) == apply_ops(b0, apply_ops(a0, s)) by {
                    assert(s.skip(n as int).len() == ops_len_before(a0.drop_first()));
                    assert(apply_ops(r@, s) == apply_ops(rr, s.skip(n as int)));
                    assert(apply_ops(a0, s) == apply_ops(a0.drop_first(), s.skip(n as int)));
                }
            }
            return r;
        }
    }
    // A leading insert of `b` lands in front of everything `a` produced.
    if b.len() > 0 {
        let is_ins = match &b[0] {
            Op::Insert(_) => true,
            _ => false,
        };
        if is_ins {
            let hb = b.remove(0);
            proof {
                lemma_drop_facts(b0);
            }
            let mut r = compose_ops_vec(a, b);
            let ghost rr = r@;
            let ghost t = hb->Insert_0;
            r.insert(0, hb);
            proof {
                lemma_cons_facts(hb, rr);
                assert forall|s: Seq<char>| s.len() == ops_len_before(a0) implies #[trigger]
                    apply_ops(r@, s) == apply_ops(b0, apply_ops(a0, s)) by {
                    assert(apply_ops(r@, s) == t@ + apply_ops(rr, s));
                    assert(apply_ops(b0, apply_ops(a0, s)) == t@ + apply_ops(
                        b0.drop_first(),
                        apply_ops(a0, s),
                    ));
                }
            }
            return r;
        }
    }
    if a.len() == 0 || b.len() == 0 {
        proof {
            if a0.len() == 0 && b0.len() > 0 {
                lemma_drop_facts(b0);
                assert(false);
            }
            if b0.len() == 0 && a0.len() > 0 {
                lemma_drop_facts(a0);
                assert(false);
            }
        }
        let r: Vec<Op> = Vec::new();
        proof {
            assert forall|s: Seq<char>| s.len() == ops_len_before(a0) implies #[trigger]
                apply_ops(r@, s) == apply_ops(b0, apply_ops(a0, s)) by {}
        }
        return r;
    }
    // Both heads remain: `a` starts with retain or insert, `b` with retain
    // or delete.
    let ha = a.remove(0);
    let hb = b.remove(0);
    proof {
        lemma_drop_facts(a0);
        lemma_drop_facts(b0);
    }
    let ghost ad = a0.drop_first();
    let ghost bd = b0.drop_first();
    match (ha, hb) {
        (Op::Retain(n), Op::Retain(m)) => {
            if n < m {
                b.insert(0, Op::Retain(m - n));
                proof {
                    lemma_cons_facts(Op::Retain((m - n) as usize), bd);
                }
                let mut r = compose_ops_vec(a, b);
                let ghost rr = r@;
                let ghost bm = bd.insert(0, Op::Retain((m - n) as usize));
                r.insert(0, Op::Retain(n));
                proof {
                    lemma_cons_facts(Op::Retain(n), rr);
                    assert forall|s: Seq<char>| s.len() == lb implies #[trigger] apply_ops(r@, s)
                        == apply_ops(b0, apply_ops(a0, s)) by {
                        assert(s.skip(n as int).len() == ops_len_before(ad));
                        let x = apply_ops(ad, s.skip(n as int));
                        lemma_apply_len(ad, s.skip(n as int));
                        let u = s.take(n as int);
                        assert(apply_ops(r@, s) == u + apply_ops(rr, s.skip(n as int)));
                        assert(apply_ops(rr, s.skip(n as int)) == apply_ops(bm, x));
                        assert(apply_ops(bm, x) == x.take(m - n) + apply_ops(bd, x.skip(m - n)));
                        assert(apply_ops(a0, s) == u + x);
                        assert(apply_ops(b0, u + x) == (u + x).take(m as int) + apply_ops(
                            bd,
                            (u + x).skip(m as int),
                        ));
                        assert((u + x).take(m as int) =~= u + x.take(m - n));
                        assert((u + x).skip(m as int) =~= x.skip(m - n));
                        assert(u + (x.take(m - n) + apply_ops(bd, x.skip(m - n))) =~= (u + x.take(
                            m - n,
                        )) + apply_ops(bd, x.skip(m - n)));
                    }
                }
                r
            } else if n == m {
                let mut r = compose_ops_vec(a, b);
                let ghost rr = r@;
                r.insert(0, Op::Retain(n));
                proof {
                    lemma_cons_facts(Op::Retain(n), rr);
                    assert forall|s: Seq<char>| s.len() == lb implies #[trigger] apply_ops(r@, s)
                        == apply_ops(b0, apply_ops(a0, s)) by {
                        assert(s.skip(n as int).len() == ops_len_before(ad));
                        let x = apply_ops(ad, s.skip(n as int));
                        lemma_apply_len(ad, s.skip(n as int));
                        let u = s.take(n as int);
                        assert(apply_ops(r@, s) == u + apply_ops(rr, s.skip(n as int)));
                        assert(apply_ops(a0, s) == u + x);
                        assert(apply_ops(b0, u + x) == (u + x).take(m as int) + apply_ops(
                            bd,
                            (u + x).skip(m as int),
                        ));
                        assert((u + x).take(m as int) =~= u);
                        assert((u + x).skip(m as int) =~= x);
                    }
                }
                r
            } else {
                a.insert(0, Op::Retain(n - m));
                proof {
                    lemma_cons_facts(Op::Retain((n - m) as usize), ad);
                }
                let mut r = compose_ops_vec(a, b);
                let ghost rr = r@;
                let ghost am = ad.insert(0, Op::Retain((n - m) as usize));
                r.insert(0, Op::Retain(m));
                proof {
                    lemma_cons_facts(Op::Retain(m), rr);
                    assert forall|s: Seq<char>| s.len() == lb implies #[trigger] apply_ops(r@, s)
                        == apply_ops(b0, apply_ops(a0, s)) by {
                        let x = apply_ops(ad, s.skip(n as int));
                        lemma_apply_len(ad, s.skip(n as int));
                        let u = s.take(m as int);
                        assert(s.skip(m as int).len() == ops_len_before(am));
                        assert(apply_ops(r@, s) == u + apply_ops(rr, s.skip(m as int)));
                        assert(apply_ops(rr, s.skip(m as int)) == apply_ops(
                            bd,
                            apply_ops(am, s.skip(m as int)),
                        ));
                        assert(s.skip(m as int).take(n - m) =~= s.subrange(m as int, n as int));
                        assert(s.skip(m as int).skip(n - m) =~= s.skip(n as int));
                        assert(apply_ops(am, s.skip(m as int)) == s.subrange(m as int, n as int)
                            + x);
                        assert(apply_ops(a0, s) == s.take(n as int) + x);
                        assert(apply_ops(b0, s.take(n as int) + x) == (s.take(n as int)
                            + x).take(m as int) + apply_ops(
                            bd,
                            (s.take(n as int) + x).skip(m as int),
                        ));
                        assert((s.take(n as int) + x).take(m as int) =~= u);
                        assert((s.take(n as int) + x).skip(m as int) =~= s.subrange(
                            m as int,
                            n as int,
                        ) + x);
                    }
                }
                r
            }
        },
        (Op::Retain(n), Op::Delete(m)) => {
            if n < m {
                b.insert(0, Op::Delete(m - n));
                proof {
                    lemma_cons_facts(Op::Delete((m - n) as usize), bd);
                }
                let mut r = compose_ops_vec(a, b);
                let ghost rr = r@;
                let ghost bm = bd.insert(0, Op::Delete((m - n) as usize));
                r.insert(0, Op::Delete(n));
                proof {
                    lemma_cons_facts(Op::Delete(n), rr);
                    assert forall|s: Seq<char>| s.len() == lb implies #[trigger] apply_ops(r@, s)
                        == apply_ops(b0, apply_ops(a0, s)) by {
                        assert(s.skip(n as int).len() == ops_len_before(ad));
                        let x = apply_ops(ad, s.skip(n as int));
                        lemma_apply_len(ad, s.skip(n as int));
                        let u = s.take(n as int);
                        assert(apply_ops(r@, s) == apply_ops(rr, s.skip(n as int)));
                        assert(apply_ops(rr, s.skip(n as int)) == apply_ops(bm, x));
                        assert(apply_ops(bm, x) == apply_ops(bd, x.skip(m - n)));
                        assert(apply_ops(a0, s) == u + x);
                        assert(apply_ops(b0, u + x) == apply_ops(bd, (u + x).skip(m as int)));
                        assert((u + x).skip(m as int) =~= x.skip(m - n));
                    }
                }
                r
            } else if n == m {
                let mut r = compose_ops_vec(a, b);
                let ghost rr = r@;
                r.insert(0, Op::Delete(n));
                proof {
                    lemma_cons_facts(Op::Delete(n), rr);
                    assert forall|s: Seq<char>| s.len() == lb implies #[trigger] apply_ops(r@, s)
                        == apply_ops(b0, apply_ops(a0, s)) by {
                        assert(s.skip(n as int).len() == ops_len_before(ad));
                        let x = apply_ops(ad, s.skip(n as int));
                        lemma_apply_len(ad, s.skip(n as int));
                        let u = s.take(n as int);
                        assert(apply_ops(r@, s) == apply_ops(rr, s.skip(n as int)));
                        assert(apply_ops(a0, s) == u + x);
                        assert(apply_ops(b0, u + x) == apply_ops(bd, (u + x).skip(m as int)));
                        assert((u + x).skip(m as int) =~= x);
                    }
                }
                r
            } else {
                a.insert(0, Op::Retain(n - m));
                proof {
                    lemma_cons_facts(Op::Retain((n - m) as usize), ad);
                }
                let mut r = compose_ops_vec(a, b);
                let ghost rr = r@;
                let ghost am = ad.insert(0, Op::Retain((n - m) as usize));
                r.insert(0, Op::Delete(m));
                proof {
                    lemma_cons_facts(Op::Delete(m), rr);
                    assert forall|s: Seq<char>| s.len() == lb implies #[trigger] apply_ops(r@, s)
                        == apply_ops(b0, apply_ops(a0, s)) by {
                        let x = apply_ops(ad, s.skip(n as int));
                        lemma_apply_len(ad, s.skip(n as int));
                        assert(s.skip(m as int).len() == ops_len_before(am));
                        assert(apply_ops(r@, s) == apply_ops(rr, s.skip(m as int)));
                        assert(apply_ops(rr, s.skip(m as int)) == apply_ops(
                            bd,
                            apply_ops(am, s.skip(m as int)),
                        ));
                        assert(s.skip(m as int).take(n - m) =~= s.subrange(m as int, n as int));
                        assert(s.skip(m as int).skip(n - m) =~= s.skip(n as int));
                        assert(apply_ops(am, s.skip(m as int)) == s.subrange(m as int, n as int)
                            + x);
                        assert(apply_ops(a0, s) == s.take(n as int) + x);
                        assert(apply_ops(b0, s.take(n as int) + x) == apply_ops(
                            bd,
                            (s.take(n as int) + x).skip(m as int),
                        ));
                        assert((s.take(n as int) + x).skip(m as int) =~= s.subrange(
                            m as int,
                            n as int,
                        ) + x);
                    }
                }
                r
            }
        },
        (Op::Insert(t), Op::Retain(m)) => {
            let k = t.len();
            let ghost tv = t@;
            if k < m {
                b.insert(0, Op::Retain(m - k));
                proof {
                    lemma_cons_facts(Op::Retain((m - k) as usize), bd);
                }
                let mut r = compose_ops_vec(a, b);
                let ghost rr = r@;
                let ghost bm = bd.insert(0, Op::Retain((m - k) as usize));
                r.insert(0, Op::Insert(t));
                proof {
                    lemma_cons_facts(Op::Insert(t), rr);
                    assert forall|s: Seq<char>| s.len() == lb implies #[trigger] apply_ops(r@, s)
                        == apply_ops(b0, apply_ops(a0, s)) by {
                        let x = apply_ops(ad, s);
                        lemma_apply_len(ad, s);
                        assert(apply_ops(r@, s) == tv + apply_ops(rr, s));
                        assert(apply_ops(rr, s) == apply_ops(bm, x));
                        assert(apply_ops(bm, x) == x.take(m - k) + apply_ops(bd, x.skip(m - k)));
                        assert(apply_ops(a0, s) == tv + x);
                        assert(apply_ops(b0, tv + x) == (tv + x).take(m as int) + apply_ops(
                            bd,
                            (tv + x).skip(m as int),
                        ));
                        assert((tv + x).take(m as int) =~= tv + x.take(m - k));
                        assert((tv + x).skip(m as int) =~= x.skip(m - k));
                        assert(tv + (x.take(m - k) + apply_ops(bd, x.skip(m - k))) =~= (tv
                            + x.take(m - k)) + apply_ops(bd, x.skip(m - k)));
                    }
                }
                r
            } else if k == m {
                let mut r = compose_ops_vec(a, b);
                let ghost rr = r@;
                r.insert(0, Op::Insert(t));
                proof {
                    lemma_cons_facts(Op::Insert(t), rr);
                    assert forall|s: Seq<char>| s.len() == lb implies #[trigger] apply_ops(r@, s)
                        == apply_ops(b0, apply_ops(a0, s)) by {
                        let x = apply_ops(ad, s);
                        lemma_apply_len(ad, s);
                        assert(apply_ops(r@, s) == tv + apply_ops(rr, s));
                        assert(apply_ops(a0, s) == tv + x);
                        assert(apply_ops(b0, tv + x) == (tv + x).take(m as int) + apply_ops(
                            bd,
                            (tv + x).skip(m as int),
                        ));
                        assert((tv + x).take(m as int) =~= tv);
                        assert((tv + x).skip(m as int) =~= x);
                    }
                }
                r
            } else {
                let (t1, t2) = split_chars(t, m);
                a.insert(0, Op::Insert(t2));
                proof {
                    lemma_cons_facts(Op::Insert(t2), ad);
                }
                let mut r = compose_ops_vec(a, b);
                let ghost rr = r@;
                let ghost am = ad.insert(0, Op::Insert(t2));
                let ghost t1v = t1@;
                let ghost t2v = t2@;
                r.insert(0, Op::Insert(t1));
                proof {
                    lemma_cons_facts(Op::Insert(t1), rr);
                    assert forall|s: Seq<char>| s.len() == lb implies #[trigger] apply_ops(r@, s)
                        == apply_ops(b0, apply_ops(a0, s)) by {
                        let x = apply_ops(ad, s);
                        lemma_apply_len(ad, s);
                        assert(apply_ops(r@, s) == t1v + apply_ops(rr, s));
                        assert(apply_ops(rr, s) == apply_ops(bd, apply_ops(am, s)));
                        assert(apply_ops(am, s) == t2v + x);
                        assert(apply_ops(a0, s) == tv + x);
                        assert(apply_ops(b0, tv + x) == (tv + x).take(m as int) + apply_ops(
                            bd,
                            (tv + x).skip(m as int),
                        ));
                        assert((tv + x).take(m as int) =~= t1v);
                        assert((tv + x).skip(m as int) =~= t2v + x);
                    }
                }
                r
            }
        },
        (Op::Insert(t), Op::Delete(m)) => {
            let k = t.len();
            let ghost tv = t@;
            if k < m {
                b.insert(0, Op::Delete(m - k));
                proof {
                    lemma_cons_facts(Op::Delete((m - k) as usize), bd);
                }
                let r = compose_ops_vec(a, b);
                let ghost bm = bd.insert(0, Op::Delete((m - k) as usize));
                proof {
                    assert forall|s: Seq<char>| s.len() == lb implies #[trigger] apply_ops(r@, s)
                        == apply_ops(b0, apply_ops(a0, s)) by {
                        let x = apply_ops(ad, s);
                        lemma_apply_len(ad, s);
                        assert(apply_ops(r@, s) == apply_ops(bm, x));
                        assert(apply_ops(bm, x) == apply_ops(bd, x.skip(m - k)));
                        assert(apply_ops(a0, s) == tv + x);
                        assert(apply_ops(b0, tv + x) == apply_ops(bd, (tv + x).skip(m as int)));
                        assert((tv + x).skip(m as int) =~= x.skip(m - k));
                    }
                }
                r
            } else if k == m {
                let r = compose_ops_vec(a, b);
                proof {
                    assert forall|s: Seq<char>| s.len() == lb implies #[trigger] apply_ops(r@, s)
                        == apply_ops(b0, apply_ops(a0, s)) by {
                        let x = apply_ops(ad, s);
                        lemma_apply_len(ad, s);
                        assert(apply_ops(r@, s) == apply_ops(bd, x));
                        assert(apply_ops(a0, s) == tv + x);
                        assert(apply_ops(b0, tv + x) == apply_ops(bd, (tv + x).skip(m as int)));
                        assert((tv + x).skip(m as int) =~= x);
                    }
                }
                r
            } else {
                let (_t1, t2) = split_chars(t, m);
                a.insert(0, Op::Insert(t2));
                proof {
                    lemma_cons_facts(Op::Insert(t2), ad);
                }
                let r = compose_ops_vec(a, b);
                let ghost am = ad.insert(0, Op::Insert(t2));
                let ghost t2v = t2@;
                proof {
                    assert forall|s: Seq<char>| s.len() == lb implies #[trigger] apply_ops(r@, s)
                        == apply_ops(b0, apply_ops(a0, s)) by {
                        let x = apply_ops(ad, s);
                        lemma_apply_len(ad, s);
                        assert(apply_ops(r@, s) == apply_ops(bd, apply_ops(am, s)));
                        assert(apply_ops(am, s) == t2v + x);
                        assert(apply_ops(a0, s) == tv + x);
                        assert(apply_ops(b0, tv + x) == apply_ops(bd, (tv + x).skip(m as int)));
                        assert((tv + x).skip(m as int) =~= t2v + x);
                    }
                }
                r
            }
        },
        (Op::Delete(_), _) => {
            proof {
                assert(false);
            }
            Vec::new()
        },
        (_, Op::Insert(_)) => {
            proof {
                assert(false);
            }
            Vec::new()
        },
    }
}

/// Build the operations that undo `ops[i..]`, where `ops[i..]` consumes the
/// part of `t` from position `p` on.  Deleted spans are read back out of `t`.
fn invert_from(ops: &Vec<Op>, i: usize, t: &Vec<char>, p: usize) -> (r: Vec<Op>)
    requires
        i <= ops@.len(),
        wf_ops(ops@),
        p <= t@.len(),
        ops_len_before(ops@.skip(i as int)) == t@.len() - p,
    ensures
        wf_ops(r@),
        ops_len_before(r@) == ops_len_after(ops@.skip(i as int)),
        ops_len_after(r@) == t@.len() - p,
        apply_ops(r@, apply_ops(ops@.skip(i as int), t@.skip(p as int))) == t@.skip(p as int),
    decreases ops@.len() - i,
{
    let ghost rem = ops@.skip(i as int);
    let tlen = t.len();
    proof {
        assert(tlen == t@.len());
    }
    if i == ops.len() {
        let r: Vec<Op> = Vec::new();
        proof {
            assert(rem =~= Seq::<Op>::empty());
        }
        return r;
    }
    proof {
        assert(rem[0] == ops@[i as int]);
        assert(rem.drop_first() =~= ops@.skip(i as int + 1));
        lemma_drop_facts(rem);
    }
    match &ops[i] {
        Op::Retain(n) => {
            let n = *n;
            proof {
                assert(op_len_before(rem[0]) == n);
                assert(p + n <= t@.len());
            }
            let mut r = invert_from(ops, i + 1, t, p + n);
            let ghost rr = r@;
            r.insert(0, Op::Retain(n));
            proof {
                lemma_cons_facts(Op::Retain(n), rr);
                let a1 = apply_ops(ops@.skip(i as int + 1), t@.skip(p + n));
                let a = apply_ops(rem, t@.skip(p as int));
                assert(t@.skip(p as int).skip(n as int) =~= t@.skip(p + n));
                assert(a == t@.skip(p as int).take(n as int) + a1);
                lemma_apply_len(ops@.skip(i as int + 1), t@.skip(p + n));
                assert(apply_ops(r@, a) == a.take(n as int) + apply_ops(rr, a.skip(n as int)));
                assert(a.take(n as int) =~= t@.skip(p as int).take(n as int));
                assert(a.skip(n as int) =~= a1);
                assert(t@.skip(p as int).take(n as int) + t@.skip(p + n) =~= t@.skip(p as int));
            }
            r
        },
        Op::Insert(tx) => {
            let k = tx.len();
            let mut r = invert_from(ops, i + 1, t, p);
            let ghost rr = r@;
            r.insert(0, Op::Delete(k));
            proof {
                lemma_cons_facts(Op::Delete(k), rr);
                let a1 = apply_ops(ops@.skip(i as int + 1), t@.skip(p as int));
                let a = apply_ops(rem, t@.skip(p as int));
                assert(a == tx@ + a1);
                assert(apply_ops(r@, a) == apply_ops(rr, a.skip(k as int)));
                assert(a.skip(k as int) =~= a1);
            }
            r
        },
        Op::Delete(n) => {
            let n = *n;
            proof {
                assert(op_len_before(rem[0]) == n);
                assert(p + n <= t@.len());
            }
            let seg = copy_slice(t, p, p + n);
            let mut r = invert_from(ops, i + 1, t, p + n);
            let ghost rr = r@;
            r.insert(0, Op::Insert(seg));
            proof {
                lemma_cons_facts(Op::Insert(seg), rr);
                let a1 = apply_ops(ops@.skip(i as int + 1), t@.skip(p + n));
                let a = apply_ops(rem, t@.skip(p as int));
                assert(t@.skip(p as int).skip(n as int) =~= t@.skip(p + n));
                assert(a == a1);
                assert(apply_ops(r@, a) == seg@ + apply_ops(rr, a));
                assert(seg@ + t@.skip(p + n) =~= t@.skip(p as int));
            }
            r
        },
    }
}

impl ChangeSet {
    /// Run the changeset over `text`, producing the new text.
    pub fn apply(&self, text: &Vec<char>) -> (r: Vec<char>)
        requires
            self.well_formed(),
            self.len_before() == text@.len(),
        ensures
            r@ == apply_ops(self.ops@, text@),
    {
        let mut out: Vec<char> = Vec::new();
        let mut pos: usize = 0;
        let mut i: usize = 0;
        let tlen = text.len();
        proof {
            assert(tlen == text@.len());
        }
        proof {
            assert(self.ops@.skip(0) =~= self.ops@);
            assert(text@.skip(0) =~= text@);
            assert(Seq::<char>::empty() + apply_ops(self.ops@, text@) =~= apply_ops(
                self.ops@,
                text@,
            ));
        }
        while i < self.ops.len()
            invariant
                self.well_formed(),
                self.len_before() == text@.len(),
                text@.len() == tlen,
                i <= self.ops@.len(),
                pos <= text@.len(),
                ops_len_before(self.ops@.skip(i as int)) == text@.len() - pos,
                apply_ops(self.ops@, text@) == out@ + apply_ops(
                    self.ops@.skip(i as int),
                    text@.skip(pos as int),
                ),
            decreases self.ops@.len() - i,
        {
            let ghost rem = self.ops@.skip(i as int);
            let ghost rtxt = text@.skip(pos as int);
            let ghost out0 = out@;
            proof {
                assert(rem[0] == self.ops@[i as int]);
                assert(rem.drop_first() =~= self.ops@.skip(i as int + 1));
                lemma_drop_facts(rem);
            }
            match &self.ops[i] {
                Op::Retain(n) => {
                    let n = *n;
                    proof {
                        assert(op_len_before(rem[0]) == n);
                        assert(pos + n <= text@.len());
                    }
                    let mut seg = copy_slice(text, pos, pos + n);
                    out.append(&mut seg);
                    pos = pos + n;
                    proof {
                        assert(rtxt.take(n as int) =~= text@.subrange(
                            pos - n,
                            pos as int,
                        ));
                        assert(rtxt.skip(n as int) =~= text@.skip(pos as int));
                        assert(apply_ops(rem, rtxt) == rtxt.take(n as int) + apply_ops(
                            rem.drop_first(),
                            rtxt.skip(n as int),
                        ));
                        assert(out0 + (rtxt.take(n as int) + apply_ops(
                            self.ops@.skip(i as int + 1),
                            text@.skip(pos as int),
                        )) =~= out@ + apply_ops(
                            self.ops@.skip(i as int + 1),
                            text@.skip(pos as int),
                        ));
                    }
                },
                Op::Insert(tx) => {
                    let mut seg = clone_chars(tx);
                    out.append(&mut seg);
                    proof {
                        assert(apply_ops(rem, rtxt) == tx@ + apply_ops(
                            rem.drop_first(),
                            rtxt,
                        ));
                        assert(out0 + (tx@ + apply_ops(
                            self.ops@.skip(i as int + 1),
                            rtxt,
                        )) =~= out@ + apply_ops(self.ops@.skip(i as int + 1), rtxt));
                    }
                },
                Op::Delete(n) => {
                    let n = *n;
                    proof {
                        assert(op_len_before(rem[0]) == n);
                        assert(pos + n <= text@.len());
                    }
                    pos = pos + n;
                    proof {
                        assert(rtxt.skip(n as int) =~= text@.skip(pos as int));
                        assert(apply_ops(rem, rtxt) == apply_ops(
                            rem.drop_first(),
                            rtxt.skip(n as int),
                        ));
                    }
                },
            }
            i = i + 1;
        }
        proof {
            assert(self.ops@.skip(i as int) =~= Seq::<Op>::empty());
            assert(text@.skip(pos as int) =~= Seq::<char>::empty());
            assert(out@ + Seq::<char>::empty() =~= out@);
        }
        out
    }

    /// The changeset that maps the text this one produces back to
    /// `original`, the text this one was built against.
    pub fn invert(&self, original: &Vec<char>) -> (r: ChangeSet)
        requires
            self.well_formed(),
            self.len_before() == original@.len(),
        ensures
            inverts(r.ops@, self.ops@, original@),
    {
        proof {
            assert(self.ops@.skip(0) =~= self.ops@);
            assert(original@.skip(0) =~= original@);
        }
        let ops = invert_from(&self.ops, 0, original, 0);
        ChangeSet { ops }
    }

    /// A single changeset equivalent to applying `self` and then `other`.
    pub fn compose(self, other: ChangeSet) -> (r: ChangeSet)
        requires
            self.well_formed(),
            other.well_formed(),
            self.len_after() == other.len_before(),
        ensures
            composes(r.ops@, self.ops@, other.ops@),
    {
        ChangeSet { ops: compose_ops_vec(self.ops, other.ops) }
    }
}

/// The shape every identity changeset has: no operations, or one retain.
pub open spec fn identity_shape(ops: Seq<Op>) -> bool {
    ops.len() == 0 || (ops.len() == 1 && ops[0] is Retain)
}

/// A changeset of identity shape leaves a text of its length unchanged.
pub proof fn lemma_identity_shape_applies(ops: Seq<Op>, s: Seq<char>)
    requires
        identity_shape(ops),
        ops_len_before(ops) == s.len(),
    ensures
        apply_ops(ops, s) == s,
{
    if ops.len() == 1 {
        let n = ops[0]->Retain_0;
        assert(ops.drop_first() =~= Seq::<Op>::empty());
        assert(ops_len_before(Seq::<Op>::empty()) == 0);
        assert(apply_ops(Seq::<Op>::empty(), s.skip(n as int)) == s.skip(n as int));
        assert(s.take(n as int) + s.skip(n as int) =~= s);
    }
}

/// Operations that behave identically: equal except that insert payloads
/// are compared by contents.
pub open spec fn op_equiv(a: Op, b: Op) -> bool {
    match (a, b) {
        (Op::Retain(n), Op::Retain(m)) => n == m,
        (Op::Delete(n), Op::Delete(m)) => n == m,
        (Op::Insert(x), Op::Insert(y)) => x@ == y@,
        _ => false,
    }
}

pub open spec fn ops_equiv(x: Seq<Op>, y: Seq<Op>) -> bool {
    x.len() == y.len() && forall|i: int| 0 <= i < x.len() ==> op_equiv(#[trigger] x[i], y[i])
}

/// Equivalent operation sequences have the same lengths, well-formedness
/// and effect on every text.
pub proof fn lemma_equiv_preserves(x: Seq<Op>, y: Seq<Op>)
    requires
        ops_equiv(x, y),
    ensures
        ops_len_before(x) == ops_len_before(y),
        ops_len_after(x) == ops_len_after(y),
        wf_ops(x) <==> wf_ops(y),
        forall|s: Seq<char>| #[trigger] apply_ops(x, s) == apply_ops(y, s),
    decreases x.len(),
{
    if x.len() == 0 {
        assert(x =~= Seq::<Op>::empty());
        assert(y =~= Seq::<Op>::empty());
    } else {
        assert(ops_equiv(x.drop_first(), y.drop_first())) by {
            assert forall|i: int| 0 <= i < x.drop_first().len() implies op_equiv(
                #[trigger] x.drop_first()[i],
                y.drop_first()[i],
            ) by {
                assert(x.drop_first()[i] == x[i + 1]);
                assert(y.drop_first()[i] == y[i + 1]);
            }
        }
        lemma_equiv_preserves(x.drop_first(), y.drop_first());
        assert(op_equiv(x[0], y[0]));
        if wf_ops(x) {
            lemma_drop_facts(x);
            assert forall|i: int| 0 <= i < y.len() implies op_positive(#[trigger] y[i]) by {
                assert(op_equiv(x[i], y[i]));
            }
        }
        if wf_ops(y) {
            lemma_drop_facts(y);
            assert forall|i: int| 0 <= i < x.len() implies op_positive(#[trigger] x[i]) by {
                assert(op_equiv(x[i], y[i]));
            }
        }
        assert forall|s: Seq<char>| #[trigger] apply_ops(x, s) == apply_ops(y, s) by {
            assert(apply_ops(x.drop_first(), s) == apply_ops(y.drop_first(), s));
            match x[0] {
                Op::Retain(n) => {
                    assert(apply_ops(x.drop_first(), s.skip(n as int)) == apply_ops(
                        y.drop_first(),
                        s.skip(n as int),
                    ));
                },
                Op::Insert(t) => {},
                Op::Delete(n) => {
                    assert(apply_ops(x.drop_first(), s.skip(n as int)) == apply_ops(
                        y.drop_first(),
                        s.skip(n as int),
                    ));
                },
            }
        }
    }
}

/// Copy of one operation, contents for contents.
pub fn copy_op(op: &Op) -> (r: Op)
    ensures
        op_equiv(r, *op),
{
    match op {
        Op::Retain(n) => Op::Retain(*n),
        Op::Insert(t) => Op::Insert(clone_chars(t)),
        Op::Delete(n) => Op::Delete(*n),
    }
}

impl ChangeSet {
    /// Copy of the whole changeset, contents for contents.
    pub fn duplicate(&self) -> (r: ChangeSet)
        ensures
            ops_equiv(r.ops@, self.ops@),
    {
        let mut ops: Vec<Op> = Vec::new();
        let mut i: usize = 0;
        while i < self.ops.len()
            invariant
                i <= self.ops@.len(),
                ops@.len() == i,
                forall|k: int| 0 <= k < i ==> op_equiv(#[trigger] ops@[k], self.ops@[k]),
            decreases self.ops@.len() - i,
        {
            ops.push(copy_op(&self.ops[i]));
            i = i + 1;
        }
        ChangeSet { ops }
    }

    /// Where a position of the old text lands in the new text: positions in
    /// retained spans shift with the text, positions in deleted spans
    /// collapse to the deletion point, and a position at an insertion lands
    /// after the inserted characters.
    pub open spec fn map_pos_spec(ops: Seq<Op>, pos: int, oldp: int, newp: int) -> int
        decreases ops.len(),
    {
        if ops.len() == 0 {
            if pos <= oldp {
                newp
            } else {
                newp + (pos - oldp)
            }
        } else {
            match ops[0] {
                Op::Retain(n) => if pos < oldp + n {
                    newp + (pos - oldp)
                } else {
                    Self::map_pos_spec(ops.drop_first(), pos, oldp + n, newp + n)
                },
                Op::Insert(t) => Self::map_pos_spec(
                    ops.drop_first(),
                    pos,
                    oldp,
                    newp + t@.len(),
                ),
                Op::Delete(n) => if pos < oldp + n {
                    newp
                } else {
                    Self::map_pos_spec(ops.drop_first(), pos, oldp + n, newp)
                },
            }
        }
    }

    /// Map a position of the old text through this changeset.
    pub fn map_pos(&self, pos: usize) -> (r: usize)
        requires
            self.well_formed(),
            pos <= self.len_before(),
            self.len_before() <= usize::MAX,
            self.len_after() <= usize::MAX,
        ensures
            r == Self::map_pos_spec(self.ops@, pos as int, 0, 0),
            r <= self.len_after(),
    {
        let mut o: usize = 0;
        let mut n: usize = 0;
        let mut i: usize = 0;
        proof {
            assert(self.ops@.skip(0) =~= self.ops@);
        }
        while i < self.ops.len()
            invariant
                self.well_formed(),
                pos <= self.len_before(),
                self.len_before() <= usize::MAX,
                self.len_after() <= usize::MAX,
                o <= pos,
                i <= self.ops@.len(),
                o + ops_len_before(self.ops@.skip(i as int)) == self.len_before(),
                n + ops_len_after(self.ops@.skip(i as int)) == self.len_after(),
                Self::map_pos_spec(self.ops@, pos as int, 0, 0) == Self::map_pos_spec(
                    self.ops@.skip(i as int),
                    pos as int,
                    o as int,
                    n as int,
                ),
            decreases self.ops@.len() - i,
        {
            let ghost rem = self.ops@.skip(i as int);
            proof {
                assert(rem[0] == self.ops@[i as int]);
                assert(rem.drop_first() =~= self.ops@.skip(i as int + 1));
                lemma_drop_facts(rem);
            }
            match &self.ops[i] {
                Op::Retain(k) => {
                    let k = *k;
                    if pos < o + k {
                        return n + (pos - o);
                    }
                    o = o + k;
                    n = n + k;
                },
                Op::Insert(t) => {
                    n = n + t.len();
                },
                Op::Delete(k) => {
                    let k = *k;
                    if pos < o + k {
                        return n;
                    }
                    o = o + k;
                },
            }
            i = i + 1;
        }
        proof {
            assert(self.ops@.skip(i as int) =~= Seq::<Op>::empty());
        }
        if pos <= o {
            n
        } else {
            n + (pos - o)
        }
    }
}

/// Invert-compose identity: for a changeset `c` built against text `t`, an
/// inverse `inv` of `c` over `t`, and a composition `comp` of `c` with
/// `inv`, running `comp` over `t` gives back `t` itself.
pub proof fn lemma_invert_compose_identity(c: Seq<Op>, inv: Seq<Op>, comp: Seq<Op>, t: Seq<char>)
    requires
        wf_ops(c),
        ops_len_before(c) == t.len(),
        inverts(inv, c, t),
        composes(comp, c, inv),
    ensures
        apply_ops(comp, t) == t,
{
    assert(apply_ops(comp, t) == apply_ops(inv, apply_ops(c, t)));
}

/// Compose associativity: composing `a` with `b` and then with `c` has the
/// same effect as composing `a` with the composition of `b` and `c`, on
/// every text the chain accepts.
pub proof fn lemma_compose_associative(
    a: Seq<Op>,
    b: Seq<Op>,
    c: Seq<Op>,
    ab: Seq<Op>,
    bc: Seq<Op>,
    ab_then_c: Seq<Op>,
    a_then_bc: Seq<Op>,
    s: Seq<char>,
)
    requires
        wf_ops(a),
        ops_len_after(a) == ops_len_before(b),
        ops_len_after(b) == ops_len_before(c),
        composes(ab, a, b),
        composes(bc, b, c),
        composes(ab_then_c, ab, c),
        composes(a_then_bc, a, bc),
        s.len() == ops_len_before(a),
    ensures
        apply_ops(ab_then_c, s) == apply_ops(a_then_bc, s),
{
    lemma_apply_len(a, s);
    assert(apply_ops(ab_then_c, s) == apply_ops(c, apply_ops(ab, s)));
    assert(apply_ops(ab, s) == apply_ops(b, apply_ops(a, s)));
    assert(apply_ops(a_then_bc, s) == apply_ops(bc, apply_ops(a, s)));
    assert(apply_ops(bc, apply_ops(a, s)) == apply_ops(c, apply_ops(b, apply_ops(a, s))));
}

/// The identity changeset is neutral on the left of composition.
pub proof fn lemma_identity_neutral_left(e: Seq<Op>, b: Seq<Op>, r: Seq<Op>, s: Seq<char>)
    requires
        ops_len_before(e) == ops_len_before(b),
        forall|u: Seq<char>| u.len() == ops_len_before(e) ==> #[trigger] apply_ops(e, u) == u,
        composes(r, e, b),
        s.len() == ops_len_before(b),
    ensures
        apply_ops(r, s) == apply_ops(b, s),
{
    assert(apply_ops(r, s) == apply_ops(b, apply_ops(e, s)));
}

/// The identity changeset is neutral on the right of composition.
pub proof fn lemma_identity_neutral_right(a: Seq<Op>, e: Seq<Op>, r: Seq<Op>, s: Seq<char>)
    requires
        ops_len_before(e) == ops_len_after(a),
        forall|u: Seq<char>| u.len() == ops_len_before(e) ==> #[trigger] apply_ops(e, u) == u,
        composes(r, a, e),
        s.len() == ops_len_before(a),
        ops_len_before(a) == s.len(),
    ensures
        apply_ops(r, s) == apply_ops(a, s),
{
    lemma_apply_len(a, s);
    assert(apply_ops(r, s) == apply_ops(e, apply_ops(a, s)));
}

} // verus!
