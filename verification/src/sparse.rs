//! Sparse matrices in triplet and canonical row-major form.
//!
//! A matrix entry is the *sum* of all triplets addressed to it; assembly
//! therefore accumulates, never overwrites.  `canonicalize` converts an
//! unordered accumulation buffer (duplicates allowed) into the canonical
//! compressed row-major form: triplets sorted by (row, col) with one
//! triplet per occupied entry.

use vstd::prelude::*;

use crate::rat::Q;
use crate::rat::Rat;
use crate::rat::lemma_q_add_assoc;
use crate::rat::lemma_q_add_congruence;
use crate::rat::lemma_q_add_wf;
use crate::rat::lemma_q_add_zero;
use crate::rat::lemma_q_eq_trans;
use crate::rat::q_fits;
use crate::rat::q_add;
use crate::rat::q_eq;
use crate::rat::q_wf;
use crate::rat::q_zero;

verus! {

/// One sparse-matrix contribution: value `val` addressed to `(row, col)`.
#[derive(Clone, Copy, Debug)]
pub struct Triplet {
    pub row: usize,
    pub col: usize,
    pub val: Rat,
}

/// Strict lexicographic order on (row, col) keys.
pub open spec fn key_lt(a: Triplet, b: Triplet) -> bool {
    a.row < b.row || (a.row == b.row && a.col < b.col)
}

/// Sum of the first `k` triplets addressed to `(r, c)`.
pub open spec fn entry_sum_prefix(ts: Seq<Triplet>, k: int, r: int, c: int) -> Q
    decreases k,
{
    if k <= 0 {
        q_zero()
    } else if ts[k - 1].row as int == r && ts[k - 1].col as int == c {
        q_add(entry_sum_prefix(ts, k - 1, r, c), ts[k - 1].val@)
    } else {
        entry_sum_prefix(ts, k - 1, r, c)
    }
}

/// The matrix entry at `(r, c)` described by a triplet list: the sum of all
/// contributions addressed there.
pub open spec fn entry_sum(ts: Seq<Triplet>, r: int, c: int) -> Q {
    entry_sum_prefix(ts, ts.len() as int, r, c)
}

pub open spec fn trips_wf(ts: Seq<Triplet>) -> bool {
    forall|i: int| 0 <= i < ts.len() ==> (#[trigger] ts[i]).val.wf()
}

/// Triplet lists agreeing on their first `k` elements have the same sums there.
pub proof fn lemma_esp_agree(s1: Seq<Triplet>, s2: Seq<Triplet>, k: int, r: int, c: int)
    requires
        0 <= k <= s1.len(),
        k <= s2.len(),
        forall|i: int| 0 <= i < k ==> s1[i] == s2[i],
    ensures
        entry_sum_prefix(s1, k, r, c) == entry_sum_prefix(s2, k, r, c),
    decreases k,
{
    if k > 0 {
        lemma_esp_agree(s1, s2, k - 1, r, c);
    }
}

pub proof fn lemma_esp_wf(ts: Seq<Triplet>, k: int, r: int, c: int)
    requires
        k <= ts.len(),
        trips_wf(ts),
    ensures
        q_wf(entry_sum_prefix(ts, k, r, c)),
    decreases k,
{
    if k > 0 {
        lemma_esp_wf(ts, k - 1, r, c);
        if ts[k - 1].row as int == r && ts[k - 1].col as int == c {
            lemma_q_add_wf(entry_sum_prefix(ts, k - 1, r, c), ts[k - 1].val@);
        }
    }
}

/// A range with no triplet addressed to `(r, c)` adds nothing to the sum.
pub proof fn lemma_esp_stable(ts: Seq<Triplet>, k1: int, k2: int, r: int, c: int)
    requires
        0 <= k1 <= k2 <= ts.len(),
        forall|i: int| k1 <= i < k2 ==> !((#[trigger] ts[i]).row as int == r && ts[i].col as int
            == c),
    ensures
        entry_sum_prefix(ts, k2, r, c) == entry_sum_prefix(ts, k1, r, c),
    decreases k2 - k1,
{
    if k2 > k1 {
        lemma_esp_stable(ts, k1, k2 - 1, r, c);
    }
}

/// A list with no triplet addressed to `(r, c)` sums to zero there.
pub proof fn lemma_esp_absent(ts: Seq<Triplet>, r: int, c: int)
    requires
        forall|i: int| 0 <= i < ts.len() ==> !((#[trigger] ts[i]).row as int == r && ts[i].col
            as int == c),
    ensures
        entry_sum(ts, r, c) == q_zero(),
{
    lemma_esp_stable(ts, 0, ts.len() as int, r, c);
}

proof fn lemma_esp_concat_helper(ts1: Seq<Triplet>, ts2: Seq<Triplet>, k: int, r: int, c: int)
    requires
        0 <= k <= ts2.len(),
        trips_wf(ts1),
        trips_wf(ts2),
    ensures
        q_eq(
            entry_sum_prefix(ts1 + ts2, ts1.len() + k, r, c),
            q_add(entry_sum(ts1, r, c), entry_sum_prefix(ts2, k, r, c)),
        ),
    decreases k,
{
    let cat = ts1 + ts2;
    let s1 = entry_sum(ts1, r, c);
    lemma_esp_wf(ts1, ts1.len() as int, r, c);
    if k <= 0 {
        lemma_esp_agree(cat, ts1, ts1.len() as int, r, c);
        lemma_q_add_zero(s1);
    } else {
        lemma_esp_concat_helper(ts1, ts2, k - 1, r, c);
        let prev_cat = entry_sum_prefix(cat, ts1.len() + k - 1, r, c);
        let prev2 = entry_sum_prefix(ts2, k - 1, r, c);
        assert(cat[ts1.len() + k - 1] == ts2[k - 1]);
        assert(forall|i: int| 0 <= i < cat.len() ==> (#[trigger] cat[i]).val.wf());
        lemma_esp_wf(cat, ts1.len() + k - 1, r, c);
        lemma_esp_wf(cat, ts1.len() + k, r, c);
        lemma_esp_wf(ts2, k - 1, r, c);
        lemma_esp_wf(ts2, k, r, c);
        if ts2[k - 1].row as int == r && ts2[k - 1].col as int == c {
            let v = ts2[k - 1].val@;
            // prefix sum grows by v on both sides; reassociate.
            lemma_q_add_wf(s1, prev2);
            lemma_q_add_congruence(prev_cat, q_add(s1, prev2), v, v);
            lemma_q_add_assoc(s1, prev2, v);
            lemma_q_add_wf(prev_cat, v);
            lemma_q_add_wf(q_add(s1, prev2), v);
            lemma_q_add_wf(prev2, v);
            lemma_q_add_wf(s1, q_add(prev2, v));
            lemma_q_eq_trans(
                q_add(prev_cat, v),
                q_add(q_add(s1, prev2), v),
                q_add(s1, q_add(prev2, v)),
            );
        }
    }
}

/// Superposition: the matrix described by two contribution lists together
/// is, entrywise, the sum of the matrices described by each alone.
pub proof fn lemma_superposition(ts1: Seq<Triplet>, ts2: Seq<Triplet>, r: int, c: int)
    requires
        trips_wf(ts1),
        trips_wf(ts2),
    ensures
        q_eq(
            entry_sum(ts1 + ts2, r, c),
            q_add(entry_sum(ts1, r, c), entry_sum(ts2, r, c)),
        ),
{
    lemma_esp_concat_helper(ts1, ts2, ts2.len() as int, r, c);
}

/// Global stiffness matrix in canonical compressed row-major form: triplets
/// sorted by (row, col), one per occupied entry, all indices below `n`.
#[derive(Debug)]
pub struct SparseMatrix {
    pub n: usize,
    pub trips: Vec<Triplet>,
}

impl SparseMatrix {
    pub open spec fn wf(self) -> bool {
        &&& forall|i: int| 0 <= i < self.trips@.len() ==> (#[trigger] self.trips@[i]).val.wf()
            && self.trips@[i].row < self.n && self.trips@[i].col < self.n
        &&& forall|i: int, j: int| 0 <= i < j < self.trips@.len() ==> key_lt(
            #[trigger] self.trips@[i],
            #[trigger] self.trips@[j],
        )
    }

    pub open spec fn dim(self) -> int {
        self.n as int
    }

    /// Mathematical entry at `(r, c)`.
    pub open spec fn entry(self, r: int, c: int) -> Q {
        entry_sum(self.trips@, r, c)
    }

    pub fn size(&self) -> (r: usize)
        ensures
            r == self.n,
    {
        self.n
    }

    pub fn nnz(&self) -> (r: usize)
        ensures
            r == self.trips@.len(),
    {
        self.trips.len()
    }

    pub fn triplet(&self, i: usize) -> (r: Triplet)
        requires
            i < self.trips@.len(),
        ensures
            r == self.trips@[i as int],
    {
        self.trips[i]
    }

    /// Reads the entry at `(r, c)` by scanning the canonical triplets.
    pub fn entry_at(&self, r: usize, c: usize) -> (res: Rat)
        requires
            self.wf(),
        ensures
            res.wf(),
            q_eq(res@, self.entry(r as int, c as int)),
    {
        let mut i: usize = 0;
        let n = self.trips.len();
        while i < n
            invariant
                self.wf(),
                0 <= i <= n,
                n == self.trips@.len(),
                entry_sum_prefix(self.trips@, i as int, r as int, c as int) == q_zero(),
            decreases n - i,
        {
            let t = self.trips[i];
            if t.row == r && t.col == c {
                proof {
                    lemma_esp_stable(self.trips@, i + 1, n as int, r as int, c as int);
                    lemma_q_add_zero(t.val@);
                    assert(q_eq(q_add(q_zero(), t.val@), t.val@));
                }
                return t.val;
            }
            i += 1;
        }
        proof {
            lemma_q_add_zero(q_zero());
        }
        Rat::zero()
    }
}

/// Strict lexicographic order on raw (row, col) pairs.
pub open spec fn pair_lt(r1: int, c1: int, r2: int, c2: int) -> bool {
    r1 < r2 || (r1 == r2 && c1 < c2)
}

fn pair_lt_exec(r1: usize, c1: usize, r2: usize, c2: usize) -> (r: bool)
    ensures
        r == pair_lt(r1 as int, c1 as int, r2 as int, c2 as int),
{
    r1 < r2 || (r1 == r2 && c1 < c2)
}

/// Whether some triplet of the list is addressed to `(r, c)`.
pub open spec fn has_key(ts: Seq<Triplet>, r: int, c: int) -> bool {
    exists|i: int| 0 <= i < ts.len() && (#[trigger] ts[i]).row as int == r && ts[i].col as int
        == c
}

/// In a list whose only triplet at `(r, c)` stands at `j`, the entry is
/// that triplet's value.
proof fn lemma_esp_single(ts: Seq<Triplet>, j: int, r: int, c: int)
    requires
        0 <= j < ts.len(),
        ts[j].row as int == r && ts[j].col as int == c,
        forall|i: int| 0 <= i < ts.len() && i != j ==> !((#[trigger] ts[i]).row as int == r
            && ts[i].col as int == c),
    ensures
        entry_sum(ts, r, c) == q_add(q_zero(), ts[j].val@),
{
    lemma_esp_stable(ts, 0, j, r, c);
    assert(entry_sum_prefix(ts, j + 1, r, c) == q_add(q_zero(), ts[j].val@));
    lemma_esp_stable(ts, j + 1, ts.len() as int, r, c);
}

proof fn lemma_pair_bound(r: int, c: int, n: int)
    by (nonlinear_arith)
    requires
        0 <= r < n,
        0 <= c < n,
    ensures
        0 <= r * n + c < n * n,
{
}

proof fn lemma_pair_lt_flat(r1: int, c1: int, r2: int, c2: int, n: int)
    by (nonlinear_arith)
    requires
        pair_lt(r1, c1, r2, c2),
        0 <= r1,
        0 <= c1 < n,
        0 <= r2,
        0 <= c2,
    ensures
        r1 * n + c1 < r2 * n + c2,
{
}

/// Second assembly phase: converts an unordered accumulation buffer into
/// canonical form, summing duplicates.  `None` reports that a merged entry
/// left the representable range; whenever every partial entry sum of the
/// buffer is representable, the canonical form is returned.
pub fn canonicalize(n: usize, buf: &Vec<Triplet>) -> (r: Option<SparseMatrix>)
    requires
        forall|i: int| 0 <= i < buf@.len() ==> (#[trigger] buf@[i]).val.wf() && buf@[i].row < n
            && buf@[i].col < n,
    ensures
        r matches Some(m) ==> m.wf() && m.n == n && forall|rr: int, cc: int|
            q_eq(#[trigger] m.entry(rr, cc), entry_sum(buf@, rr, cc)),
        (forall|rr: int, cc: int, k: int| 0 <= k <= buf@.len() ==> q_fits(
            #[trigger] entry_sum_prefix(buf@, k, rr, cc),
        )) ==> r is Some,
{
    let mut out: Vec<Triplet> = Vec::new();
    let mut started = false;
    let mut last_row: usize = 0;
    let mut last_col: usize = 0;
    loop
        invariant
            forall|i: int| 0 <= i < buf@.len() ==> (#[trigger] buf@[i]).val.wf() && buf@[i].row
                < n && buf@[i].col < n,
            forall|j: int| 0 <= j < out@.len() ==> (#[trigger] out@[j]).val.wf() && out@[j].row
                < n && out@[j].col < n,
            forall|p: int, q: int| 0 <= p < q < out@.len() ==> key_lt(
                #[trigger] out@[p],
                #[trigger] out@[q],
            ),
            started <==> out@.len() > 0,
            started ==> out@[out@.len() - 1].row == last_row && out@[out@.len() - 1].col
                == last_col && last_row < n && last_col < n,
            forall|j: int| 0 <= j < out@.len() ==> (#[trigger] out@[j]).val@ == entry_sum(
                buf@,
                out@[j].row as int,
                out@[j].col as int,
            ),
            forall|j: int| 0 <= j < buf@.len() && started && !pair_lt(
                last_row as int,
                last_col as int,
                (#[trigger] buf@[j]).row as int,
                buf@[j].col as int,
            ) ==> has_key(out@, buf@[j].row as int, buf@[j].col as int),
        decreases (if started {
            (n as int) * (n as int) - (last_row as int * n as int + last_col as int)
        } else {
            (n as int) * (n as int) + 1
        }),
    {
        // the smallest key strictly beyond the last one emitted
        let mut best_row: usize = 0;
        let mut best_col: usize = 0;
        let mut found = false;
        let mut i: usize = 0;
        while i < buf.len()
            invariant
                0 <= i <= buf@.len(),
                forall|p: int| 0 <= p < buf@.len() ==> (#[trigger] buf@[p]).val.wf()
                    && buf@[p].row < n && buf@[p].col < n,
                found ==> best_row < n && best_col < n,
                found && started ==> pair_lt(
                    last_row as int,
                    last_col as int,
                    best_row as int,
                    best_col as int,
                ),
                forall|p: int| 0 <= p < i && (!started || pair_lt(
                    last_row as int,
                    last_col as int,
                    (#[trigger] buf@[p]).row as int,
                    buf@[p].col as int,
                )) ==> found && !pair_lt(
                    buf@[p].row as int,
                    buf@[p].col as int,
                    best_row as int,
                    best_col as int,
                ),
            decreases buf@.len() - i,
        {
            let t = buf[i];
            let beyond = !started || pair_lt_exec(last_row, last_col, t.row, t.col);
            if beyond && (!found || pair_lt_exec(t.row, t.col, best_row, best_col)) {
                best_row = t.row;
                best_col = t.col;
                found = true;
            }
            i += 1;
        }
        if !found {
            // every key of the buffer has been emitted: the form is complete
            proof {
                assert forall|rr: int, cc: int|
                    q_eq(#[trigger] entry_sum(out@, rr, cc), entry_sum(buf@, rr, cc)) by {
                    if has_key(out@, rr, cc) {
                        let j = choose|j: int| 0 <= j < out@.len() && (#[trigger] out@[j]).row
                            as int == rr && out@[j].col as int == cc;
                        assert forall|j2: int| 0 <= j2 < out@.len() && j2 != j implies !((
                        #[trigger] out@[j2]).row as int == rr && out@[j2].col as int == cc) by {
                            if j2 < j {
                                assert(key_lt(out@[j2], out@[j]));
                            } else {
                                assert(key_lt(out@[j], out@[j2]));
                            }
                        }
                        lemma_esp_single(out@, j, rr, cc);
                        lemma_q_add_zero(out@[j].val@);
                    } else {
                        assert forall|i2: int| 0 <= i2 < buf@.len() implies !((
                        #[trigger] buf@[i2]).row as int == rr && buf@[i2].col as int == cc) by {
                            if buf@[i2].row as int == rr && buf@[i2].col as int == cc {
                                assert(has_key(out@, rr, cc));
                            }
                        }
                        lemma_esp_absent(out@, rr, cc);
                        lemma_esp_absent(buf@, rr, cc);
                    }
                }
            }
            return Some(SparseMatrix { n, trips: out });
        }
        // exact sum of every contribution with that key
        let mut s = Rat::zero();
        let mut p: usize = 0;
        while p < buf.len()
            invariant
                0 <= p <= buf@.len(),
                forall|p2: int| 0 <= p2 < buf@.len() ==> (#[trigger] buf@[p2]).val.wf()
                    && buf@[p2].row < n && buf@[p2].col < n,
                s.wf(),
                s@ == entry_sum_prefix(buf@, p as int, best_row as int, best_col as int),
            decreases buf@.len() - p,
        {
            let t = buf[p];
            if t.row == best_row && t.col == best_col {
                s = match s.checked_add(t.val) {
                    Some(v) => v,
                    None => {
                        // a partial sum of the buffer itself is unrepresentable
                        proof {
                            assert(!q_fits(entry_sum_prefix(
                                buf@,
                                p + 1,
                                best_row as int,
                                best_col as int,
                            )));
                        }
                        return None;
                    },
                };
            }
            p += 1;
        }
        let ghost old_out = out@;
        let ghost was_started = started;
        let ghost olr = last_row as int;
        let ghost olc = last_col as int;
        let merged = Triplet { row: best_row, col: best_col, val: s };
        out.push(merged);
        proof {
            // the new key exceeds every key already emitted
            assert forall|p2: int, q2: int| 0 <= p2 < q2 < out@.len() implies key_lt(
                #[trigger] out@[p2],
                #[trigger] out@[q2],
            ) by {
                if q2 == out@.len() - 1 && was_started {
                    assert(out@[p2] == old_out[p2]);
                    if p2 < old_out.len() - 1 {
                        assert(key_lt(old_out[p2], old_out[old_out.len() - 1]));
                    }
                }
            }
            // every key at or below the new one is covered
            assert forall|j: int| 0 <= j < buf@.len() && !pair_lt(
                best_row as int,
                best_col as int,
                (#[trigger] buf@[j]).row as int,
                buf@[j].col as int,
            ) implies has_key(out@, buf@[j].row as int, buf@[j].col as int) by {
                if was_started && !pair_lt(olr, olc, buf@[j].row as int, buf@[j].col as int) {
                    assert(has_key(old_out, buf@[j].row as int, buf@[j].col as int));
                    let w = choose|w: int| 0 <= w < old_out.len() && (#[trigger] old_out[w]).row
                        as int == buf@[j].row as int && old_out[w].col as int == buf@[j].col
                        as int;
                    assert(out@[w] == old_out[w]);
                } else {
                    assert(!pair_lt(
                        buf@[j].row as int,
                        buf@[j].col as int,
                        best_row as int,
                        best_col as int,
                    ));
                    assert(out@[out@.len() - 1] == merged);
                }
            }
        }
        started = true;
        last_row = best_row;
        last_col = best_col;
        proof {
            lemma_pair_bound(best_row as int, best_col as int, n as int);
            if was_started {
                lemma_pair_lt_flat(olr, olc, best_row as int, best_col as int, n as int);
            }
        }
    }
}

} // verus!
