//! Grapheme-cluster boundaries over a character-based text.
//!
//! The decomposition of a text into extended grapheme clusters comes from
//! the `unicode-segmentation` crate through one trusted wrapper; everything
//! derived from it — boundary positions, stepping forward and backward —
//! is verified against the cluster lengths the wrapper returns.

use vstd::prelude::*;

use unicode_segmentation::UnicodeSegmentation;

verus! {

/// The lengths, in characters, of the extended grapheme clusters of `s`,
/// in order.  The decomposition depends on the characters alone.
pub uninterp spec fn cluster_lens_of(s: Seq<char>) -> Seq<usize>;

/// Number of characters covered by the first `k` clusters.
pub open spec fn prefix_len(lens: Seq<usize>, k: int) -> nat
    decreases k,
{
    if k <= 0 {
        0
    } else {
        prefix_len(lens, k - 1) + lens[k - 1] as nat
    }
}

/// Number of characters covered by all clusters.
pub open spec fn sum_lens(lens: Seq<usize>) -> nat {
    prefix_len(lens, lens.len() as int)
}

/// A position where a cursor may stop: the start or end of the text, or a
/// point between two grapheme clusters.
pub open spec fn is_grapheme_boundary(s: Seq<char>, p: int) -> bool {
    exists|k: int|
        0 <= k <= cluster_lens_of(s).len() && prefix_len(cluster_lens_of(s), k) == p
}

/// Number of characters in a string slice.
pub fn char_count(s: &str) -> (r: usize)
    ensures
        r == s@.len(),
{
    s.unicode_len()
}

/// Relies on `unicode_segmentation::UnicodeSegmentation::graphemes` (with
/// extended clusters): the decomposition depends on the characters alone,
/// every cluster is a non-empty span of the text, and the clusters cover
/// the text exactly.
#[verifier::external_body]
fn cluster_lens_raw(text: &Vec<char>) -> (r: Vec<usize>)
    ensures
        r@ == cluster_lens_of(text@),
        sum_lens(r@) == text@.len(),
        forall|i: int| 0 <= i < r@.len() ==> #[trigger] r@[i] >= 1,
{
    let s: String = text.iter().collect();
    s.graphemes(true).map(|g| char_count(g)).collect()
}

/// Cluster prefixes never shrink.
pub proof fn lemma_prefix_le(lens: Seq<usize>, i: int, j: int)
    requires
        0 <= i <= j,
    ensures
        prefix_len(lens, i) <= prefix_len(lens, j),
    decreases j - i,
{
    if i < j {
        lemma_prefix_le(lens, i, j - 1);
    }
}

/// With non-empty clusters, prefixes grow strictly.
pub proof fn lemma_prefix_lt(lens: Seq<usize>, i: int, j: int)
    requires
        0 <= i < j <= lens.len(),
        forall|k: int| 0 <= k < lens.len() ==> #[trigger] lens[k] >= 1,
    ensures
        prefix_len(lens, i) < prefix_len(lens, j),
    decreases j - i,
{
    if i < j - 1 {
        lemma_prefix_lt(lens, i, j - 1);
    }
}

/// The first cluster boundary strictly after `pos`, clamped to the text
/// end: the scan keeps the running prefix `acc` while it has not passed
/// `pos`.
pub open spec fn first_boundary_after(lens: Seq<usize>, pos: int, acc: nat) -> nat
    decreases lens.len(),
{
    if acc > pos {
        acc
    } else if lens.len() == 0 {
        acc
    } else {
        first_boundary_after(lens.drop_first(), pos, acc + lens[0] as nat)
    }
}

/// The last cluster boundary strictly before `pos`, clamped to the text
/// start.
pub open spec fn last_boundary_before(lens: Seq<usize>, pos: int, acc: nat) -> nat
    decreases lens.len(),
{
    if lens.len() == 0 {
        acc
    } else if acc + lens[0] >= pos {
        acc
    } else {
        last_boundary_before(lens.drop_first(), pos, acc + lens[0] as nat)
    }
}

/// The next grapheme boundary after `pos`: never lands inside a cluster,
/// always makes progress inside the text, and is the nearest such position.
pub fn next_grapheme_boundary(text: &Vec<char>, pos: usize) -> (r: usize)
    ensures
        r == first_boundary_after(cluster_lens_of(text@), pos as int, 0),
        is_grapheme_boundary(text@, r as int),
        r <= text@.len(),
        pos < text@.len() ==> pos < r,
        pos >= text@.len() ==> r == text@.len(),
        forall|q: int| pos < q < r ==> !is_grapheme_boundary(text@, q),
{
    let lens = cluster_lens_raw(text);
    let ghost lv = lens@;
    let tl = text.len();
    let mut acc: usize = 0;
    let mut i: usize = 0;
    proof {
        assert(lv.skip(0) =~= lv);
    }
    loop
        invariant
            lens@ == lv,
            lv == cluster_lens_of(text@),
            sum_lens(lv) == text@.len(),
            text@.len() == tl,
            forall|k: int| 0 <= k < lv.len() ==> #[trigger] lv[k] >= 1,
            i <= lv.len(),
            acc == prefix_len(lv, i as int),
            acc <= pos,
            first_boundary_after(lv, pos as int, 0) == first_boundary_after(
                lv.skip(i as int),
                pos as int,
                acc as nat,
            ),
        decreases lv.len() - i,
    {
        proof {
            lemma_prefix_le(lv, i as int, lv.len() as int);
        }
        if i >= lens.len() {
            proof {
                assert(lv.skip(i as int) =~= Seq::<usize>::empty());
                assert(acc == text@.len());
                assert(is_grapheme_boundary(text@, acc as int)) by {
                    assert(prefix_len(lv, lv.len() as int) == acc);
                }
                assert forall|q: int| pos < q < acc implies !is_grapheme_boundary(
                    text@,
                    q,
                ) by {
                    if is_grapheme_boundary(text@, q) {
                        let k = choose|k: int|
                            0 <= k <= lv.len() && prefix_len(lv, k) == q;
                        lemma_prefix_le(lv, k, lv.len() as int);
                    }
                }
            }
            return acc;
        }
        proof {
            assert(lv.skip(i as int)[0] == lv[i as int]);
            assert(lv.skip(i as int).drop_first() =~= lv.skip(i as int + 1));
            assert(prefix_len(lv, i as int + 1) == prefix_len(lv, i as int) + lv[i as int] as nat);
            lemma_prefix_le(lv, i as int + 1, lv.len() as int);
        }
        let nxt = acc + lens[i];
        proof {
            assert(nxt == prefix_len(lv, i as int + 1));
            assert(first_boundary_after(lv.skip(i as int), pos as int, acc as nat)
                == first_boundary_after(lv.skip(i as int + 1), pos as int, nxt as nat));
        }
        if nxt > pos {
            proof {
                assert(first_boundary_after(lv.skip(i as int + 1), pos as int, nxt as nat) == nxt);
                assert(first_boundary_after(lv.skip(i as int), pos as int, acc as nat) == nxt);
                assert(is_grapheme_boundary(text@, nxt as int)) by {
                    assert(prefix_len(lv, i as int + 1) == nxt);
                }
                assert forall|q: int| pos < q < nxt implies !is_grapheme_boundary(
                    text@,
                    q,
                ) by {
                    if is_grapheme_boundary(text@, q) {
                        let k = choose|k: int|
                            0 <= k <= lv.len() && prefix_len(lv, k) == q;
                        if k <= i {
                            lemma_prefix_le(lv, k, i as int);
                        } else {
                            lemma_prefix_le(lv, i as int + 1, k);
                        }
                    }
                }
            }
            return nxt;
        }
        acc = nxt;
        i = i + 1;
    }
}

/// The previous grapheme boundary before `pos`: never lands inside a
/// cluster, moves strictly back when possible, and is the nearest such
/// position.
pub fn prev_grapheme_boundary(text: &Vec<char>, pos: usize) -> (r: usize)
    ensures
        r == last_boundary_before(cluster_lens_of(text@), pos as int, 0),
        is_grapheme_boundary(text@, r as int),
        r <= text@.len(),
        pos > 0 ==> r < pos,
        pos == 0 ==> r == 0,
        forall|q: int| r < q < pos && q <= text@.len() ==> !is_grapheme_boundary(text@, q),
{
    let lens = cluster_lens_raw(text);
    let ghost lv = lens@;
    let tl = text.len();
    let mut acc: usize = 0;
    let mut i: usize = 0;
    proof {
        assert(lv.skip(0) =~= lv);
    }
    loop
        invariant
            lens@ == lv,
            lv == cluster_lens_of(text@),
            sum_lens(lv) == text@.len(),
            text@.len() == tl,
            forall|k: int| 0 <= k < lv.len() ==> #[trigger] lv[k] >= 1,
            i <= lv.len(),
            acc == prefix_len(lv, i as int),
            pos > 0 ==> acc < pos,
            pos == 0 ==> acc == 0,
            last_boundary_before(lv, pos as int, 0) == last_boundary_before(
                lv.skip(i as int),
                pos as int,
                acc as nat,
            ),
        decreases lv.len() - i,
    {
        proof {
            lemma_prefix_le(lv, i as int, lv.len() as int);
        }
        if i >= lens.len() {
            proof {
                assert(lv.skip(i as int) =~= Seq::<usize>::empty());
                assert(is_grapheme_boundary(text@, acc as int)) by {
                    assert(prefix_len(lv, i as int) == acc);
                }
                assert forall|q: int| acc < q < pos && q <= text@.len() implies
                    !is_grapheme_boundary(text@, q) by {
                    if is_grapheme_boundary(text@, q) {
                        let k = choose|k: int|
                            0 <= k <= lv.len() && prefix_len(lv, k) == q;
                        lemma_prefix_le(lv, k, lv.len() as int);
                    }
                }
            }
            return acc;
        }
        proof {
            assert(lv.skip(i as int)[0] == lv[i as int]);
            assert(lv.skip(i as int).drop_first() =~= lv.skip(i as int + 1));
            assert(prefix_len(lv, i as int + 1) == prefix_len(lv, i as int) + lv[i as int] as nat);
            lemma_prefix_le(lv, i as int + 1, lv.len() as int);
        }
        let nxt = acc + lens[i];
        proof {
            assert(nxt == prefix_len(lv, i as int + 1));
        }
        if nxt >= pos {
            proof {
                assert(last_boundary_before(lv.skip(i as int), pos as int, acc as nat) == acc);
                assert(is_grapheme_boundary(text@, acc as int)) by {
                    assert(prefix_len(lv, i as int) == acc);
                }
                assert forall|q: int| acc < q < pos && q <= text@.len() implies
                    !is_grapheme_boundary(text@, q) by {
                    if is_grapheme_boundary(text@, q) {
                        let k = choose|k: int|
                            0 <= k <= lv.len() && prefix_len(lv, k) == q;
                        if k <= i {
                            lemma_prefix_le(lv, k, i as int);
                        } else {
                            lemma_prefix_le(lv, i as int + 1, k);
                        }
                    }
                }
            }
            return acc;
        }
        acc = nxt;
        i = i + 1;
    }
}

/// `count` grapheme boundaries forward from `pos`, one step at a time.
pub open spec fn nth_next_boundary(s: Seq<char>, pos: nat, n: nat) -> nat
    decreases n,
{
    if n == 0 {
        pos
    } else {
        first_boundary_after(
            cluster_lens_of(s),
            nth_next_boundary(s, pos, (n - 1) as nat) as int,
            0,
        )
    }
}

/// `count` grapheme boundaries backward from `pos`, one step at a time.
pub open spec fn nth_prev_boundary(s: Seq<char>, pos: nat, n: nat) -> nat
    decreases n,
{
    if n == 0 {
        pos
    } else {
        last_boundary_before(
            cluster_lens_of(s),
            nth_prev_boundary(s, pos, (n - 1) as nat) as int,
            0,
        )
    }
}

/// Step forward over `count` grapheme clusters.
pub fn nth_next_grapheme_boundary(text: &Vec<char>, pos: usize, count: usize) -> (r: usize)
    ensures
        r == nth_next_boundary(text@, pos as nat, count as nat),
        count > 0 ==> is_grapheme_boundary(text@, r as int) && r <= text@.len(),
        count == 0 ==> r == pos,
{
    let mut cur = pos;
    let mut j: usize = 0;
    while j < count
        invariant
            j <= count,
            cur == nth_next_boundary(text@, pos as nat, j as nat),
            j > 0 ==> is_grapheme_boundary(text@, cur as int) && cur <= text@.len(),
        decreases count - j,
    {
        cur = next_grapheme_boundary(text, cur);
        j = j + 1;
    }
    cur
}

/// Step backward over `count` grapheme clusters.
pub fn nth_prev_grapheme_boundary(text: &Vec<char>, pos: usize, count: usize) -> (r: usize)
    ensures
        r == nth_prev_boundary(text@, pos as nat, count as nat),
        count > 0 ==> is_grapheme_boundary(text@, r as int) && r <= text@.len(),
        count == 0 ==> r == pos,
{
    let mut cur = pos;
    let mut j: usize = 0;
    while j < count
        invariant
            j <= count,
            cur == nth_prev_boundary(text@, pos as nat, j as nat),
            j > 0 ==> is_grapheme_boundary(text@, cur as int) && cur <= text@.len(),
        decreases count - j,
    {
        cur = prev_grapheme_boundary(text, cur);
        j = j + 1;
    }
    cur
}

} // verus!
