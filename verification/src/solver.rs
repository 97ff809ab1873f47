//! Direct solver: densify, enforce homogeneous Dirichlet conditions, and
//! solve exactly, certifying the result.
//!
//! The elimination itself carries no semantic contract; instead the solver
//! recomputes the constrained system and checks, exactly, that the
//! candidate displacements satisfy every row.  A returned `Ok` therefore
//! carries a proved solution; a system with no solution can never be
//! reported as success.

use vstd::prelude::*;

use crate::model::FeaError;
use crate::rat::Q;
use crate::rat::Rat;
use crate::rat::lemma_q_add_congruence;
use crate::rat::lemma_q_add_wf;
use crate::rat::lemma_q_add_zero;
use crate::rat::lemma_q_eq_trans;
use crate::rat::lemma_q_mul_congruence;
use crate::rat::lemma_q_div_wf;
use crate::rat::lemma_q_mul_div;
use crate::rat::lemma_q_mul_zero;
use crate::rat::q_add;
use crate::rat::q_div;
use crate::rat::q_eq;
use crate::rat::q_fits;
use crate::rat::q_mul;
use crate::rat::q_one;
use crate::rat::q_wf;
use crate::rat::q_zero;
use crate::sparse::SparseMatrix;
use crate::sparse::entry_sum;
use crate::sparse::entry_sum_prefix;
use crate::sparse::key_lt;
use crate::sparse::lemma_esp_stable;
use crate::sparse::lemma_esp_wf;
use crate::sparse::trips_wf;

verus! {

/// Largest system dimension the solver densifies.
pub const MAX_DIM: usize = 0xffff;

pub open spec fn vec_wf(v: Seq<Rat>) -> bool {
    forall|i: int| 0 <= i < v.len() ==> (#[trigger] v[i]).wf()
}

/// Whether `d` is one of the pinned degrees of freedom.
pub open spec fn is_fixed(fixed: Seq<usize>, d: int) -> bool {
    exists|j: int| 0 <= j < fixed.len() && fixed[j] as int == d
}

/// Entry of the constrained matrix: fixed rows and columns are zeroed,
/// fixed diagonal entries become one, the rest keep the assembled value.
pub open spec fn bc_entry(m: SparseMatrix, fixed: Seq<usize>, r: int, c: int) -> Q {
    if is_fixed(fixed, r) || is_fixed(fixed, c) {
        if r == c {
            q_one()
        } else {
            q_zero()
        }
    } else {
        m.entry(r, c)
    }
}

/// Right-hand side of the constrained system: zero at fixed DOFs.
pub open spec fn bc_rhs(f: Seq<Rat>, fixed: Seq<usize>, r: int) -> Q {
    if is_fixed(fixed, r) {
        q_zero()
    } else {
        f[r]@
    }
}

/// Partial dot product of constrained row `r` with the displacements.
pub open spec fn bc_row_dot(m: SparseMatrix, fixed: Seq<usize>, u: Seq<Rat>, r: int, k: int) -> Q
    decreases k,
{
    if k <= 0 {
        q_zero()
    } else {
        q_add(bc_row_dot(m, fixed, u, r, k - 1), q_mul(bc_entry(m, fixed, r, k - 1), u[k - 1]@))
    }
}

/// `u` satisfies every row of the constrained system `(m, f, fixed)`.
pub open spec fn solves(m: SparseMatrix, f: Seq<Rat>, fixed: Seq<usize>, u: Seq<Rat>) -> bool {
    forall|r: int| 0 <= r < m.dim() ==> q_eq(
        #[trigger] bc_row_dot(m, fixed, u, r, m.dim()),
        bc_rhs(f, fixed, r),
    )
}

/// Two displacement vectors that agree as values, entry by entry.
pub open spec fn vecs_q_eq(u1: Seq<Rat>, u2: Seq<Rat>) -> bool {
    u1.len() == u2.len() && forall|i: int| 0 <= i < u1.len() ==> q_eq(
        (#[trigger] u1[i])@,
        u2[i]@,
    )
}

/// The constrained system has exactly one solution, up to value equality.
pub open spec fn unique_solution(m: SparseMatrix, f: Seq<Rat>, fixed: Seq<usize>) -> bool {
    exists|u: Seq<Rat>|
        u.len() == m.dim() && vec_wf(u) && #[trigger] solves(m, f, fixed, u) && (forall|
            u2: Seq<Rat>,
        |
            u2.len() == m.dim() && vec_wf(u2) && #[trigger] solves(m, f, fixed, u2)
                ==> vecs_q_eq(u, u2))
}

/// Entry `(r, c)` of a dense row-major matrix of dimension `n`.
pub open spec fn cell(a: Seq<Rat>, n: int, r: int, c: int) -> Q {
    a[r * n + c]@
}

/// Partial dot product of row `r` of a dense row-major matrix with `u`.
pub open spec fn dense_row_dot(a: Seq<Rat>, n: int, r: int, u: Seq<Rat>, k: int) -> Q
    decreases k,
{
    if k <= 0 {
        q_zero()
    } else {
        q_add(dense_row_dot(a, n, r, u, k - 1), q_mul(a[r * n + (k - 1)]@, u[k - 1]@))
    }
}

proof fn lemma_flat_index_injective(r1: int, c1: int, r2: int, c2: int, n: int)
    by (nonlinear_arith)
    requires
        0 <= r1 < n,
        0 <= c1 < n,
        0 <= r2 < n,
        0 <= c2 < n,
        r1 * n + c1 == r2 * n + c2,
    ensures
        r1 == r2,
        c1 == c2,
{
}

proof fn lemma_flat_index(r: int, c: int, n: int)
    by (nonlinear_arith)
    requires
        0 <= r < n,
        0 <= c < n,
        n <= 0xffff,
    ensures
        0 <= r * n + c,
        r * n + c < n * n,
        n * n <= 0xfffe_0001,
{
}

fn flat_idx(r: usize, c: usize, n: usize) -> (i: usize)
    requires
        r < n,
        c < n,
        n <= MAX_DIM,
    ensures
        i as int == r as int * n as int + c as int,
        i < n * n,
{
    proof {
        lemma_flat_index(r as int, c as int, n as int);
    }
    r * n + c
}

fn fixed_contains(fixed: &Vec<usize>, d: usize) -> (r: bool)
    ensures
        r == is_fixed(fixed@, d as int),
{
    let mut j: usize = 0;
    while j < fixed.len()
        invariant
            0 <= j <= fixed@.len(),
            forall|p: int| 0 <= p < j ==> fixed@[p] as int != d as int,
        decreases fixed@.len() - j,
    {
        if fixed[j] == d {
            return true;
        }
        j += 1;
    }
    false
}

proof fn lemma_bc_row_dot_wf(m: SparseMatrix, fixed: Seq<usize>, u: Seq<Rat>, r: int, k: int)
    requires
        m.wf(),
        vec_wf(u),
        k <= u.len(),
    ensures
        q_wf(bc_row_dot(m, fixed, u, r, k)),
    decreases k,
{
    if k > 0 {
        lemma_bc_row_dot_wf(m, fixed, u, r, k - 1);
        assert(trips_wf(m.trips@));
        lemma_esp_wf(m.trips@, m.trips@.len() as int, r, k - 1);
        lemma_q_add_wf(bc_entry(m, fixed, r, k - 1), u[k - 1]@);
        lemma_q_add_wf(
            bc_row_dot(m, fixed, u, r, k - 1),
            q_mul(bc_entry(m, fixed, r, k - 1), u[k - 1]@),
        );
    }
}

proof fn lemma_dense_row_dot_wf(a: Seq<Rat>, n: int, r: int, u: Seq<Rat>, k: int)
    requires
        vec_wf(a),
        vec_wf(u),
        k <= u.len(),
        0 <= r < n,
        a.len() == n * n,
        n <= 0xffff,
        k <= n,
    ensures
        q_wf(dense_row_dot(a, n, r, u, k)),
    decreases k,
{
    if k > 0 {
        lemma_dense_row_dot_wf(a, n, r, u, k - 1);
        lemma_flat_index(r, k - 1, n);
        lemma_q_add_wf(a[r * n + (k - 1)]@, u[k - 1]@);
        lemma_q_add_wf(dense_row_dot(a, n, r, u, k - 1), q_mul(a[r * n + (k - 1)]@, u[k - 1]@));
    }
}

/// The dense rows built by `build_system` compute the same dot products as
/// the constrained matrix itself.
proof fn lemma_dot_congruence(
    a: Seq<Rat>,
    m: SparseMatrix,
    fixed: Seq<usize>,
    u: Seq<Rat>,
    r: int,
    k: int,
)
    requires
        m.wf(),
        vec_wf(a),
        vec_wf(u),
        u.len() == m.dim(),
        a.len() == m.dim() * m.dim(),
        m.dim() <= 0xffff,
        0 <= r < m.dim(),
        0 <= k <= m.dim(),
        forall|c: int| 0 <= c < m.dim() ==> q_eq(
            #[trigger] cell(a, m.dim(), r, c),
            bc_entry(m, fixed, r, c),
        ),
    ensures
        q_eq(dense_row_dot(a, m.dim(), r, u, k), bc_row_dot(m, fixed, u, r, k)),
    decreases k,
{
    let n = m.dim();
    if k > 0 {
        lemma_dot_congruence(a, m, fixed, u, r, k - 1);
        lemma_flat_index(r, k - 1, n);
        assert(trips_wf(m.trips@));
        lemma_esp_wf(m.trips@, m.trips@.len() as int, r, k - 1);
        let av = a[r * n + (k - 1)]@;
        let bv = bc_entry(m, fixed, r, k - 1);
        let uv = u[k - 1]@;
        assert(av == cell(a, n, r, k - 1));
        lemma_q_mul_congruence(av, bv, uv, uv);
        lemma_dense_row_dot_wf(a, n, r, u, k - 1);
        lemma_bc_row_dot_wf(m, fixed, u, r, k - 1);
        lemma_q_add_wf(av, uv);
        lemma_q_add_wf(bv, uv);
        lemma_q_add_congruence(
            dense_row_dot(a, n, r, u, k - 1),
            bc_row_dot(m, fixed, u, r, k - 1),
            q_mul(av, uv),
            q_mul(bv, uv),
        );
    }
}

/// Builds the dense constrained system: the boundary-condition technique
/// applied while densifying (zeroed fixed rows/columns, unit diagonal at
/// fixed DOFs, zeroed fixed loads).
fn build_system(m: &SparseMatrix, f: &Vec<Rat>, fixed: &Vec<usize>) -> (r: (Vec<Rat>, Vec<Rat>))
    requires
        m.wf(),
        m.n <= MAX_DIM,
        f@.len() == m.dim(),
        vec_wf(f@),
        forall|j: int| 0 <= j < fixed@.len() ==> (#[trigger] fixed@[j]) < m.n,
    ensures
        r.0@.len() == m.dim() * m.dim(),
        vec_wf(r.0@),
        forall|rr: int, cc: int| 0 <= rr < m.dim() && 0 <= cc < m.dim() ==> #[trigger] cell(
            r.0@,
            m.dim(),
            rr,
            cc,
        ) == bc_entry(*m, fixed@, rr, cc),
        r.1@.len() == m.dim(),
        vec_wf(r.1@),
        forall|rr: int| 0 <= rr < m.dim() ==> (#[trigger] r.1@[rr])@ == bc_rhs(f@, fixed@, rr),
{
    let n = m.size();
    if n == 0 {
        let a: Vec<Rat> = Vec::new();
        let rhs: Vec<Rat> = Vec::new();
        proof {
            assert(m.dim() * m.dim() == 0) by (nonlinear_arith)
                requires
                    m.dim() == 0,
            ;
        }
        return (a, rhs);
    }
    proof {
        lemma_flat_index(0, 0, n as int);
    }
    let total = n * n;
    let mut a: Vec<Rat> = Vec::new();
    while a.len() < total
        invariant
            a@.len() <= total,
            forall|i: int| 0 <= i < a@.len() ==> (#[trigger] a@[i])@ == q_zero() && a@[i].wf(),
        decreases total - a@.len(),
    {
        a.push(Rat::zero());
    }
    proof {
        assert(a@.len() == m.dim() * m.dim());
        assert forall|rr: int, cc: int| 0 <= rr < m.dim() && 0 <= cc < m.dim()
            implies #[trigger] cell(a@, m.dim(), rr, cc) == q_zero() by {
            lemma_flat_index(rr, cc, m.dim());
        }
    }
    // densify, skipping contributions in fixed rows or columns
    let mut t: usize = 0;
    while t < m.nnz()
        invariant
            m.wf(),
            m.n <= MAX_DIM,
            n == m.n,
            0 <= t <= m.trips@.len(),
            a@.len() == m.dim() * m.dim(),
            vec_wf(a@),
            forall|rr: int, cc: int| 0 <= rr < m.dim() && 0 <= cc < m.dim() && !is_fixed(
                fixed@,
                rr,
            ) && !is_fixed(fixed@, cc) ==> #[trigger] cell(a@, m.dim(), rr, cc) == entry_sum_prefix(
                m.trips@,
                t as int,
                rr,
                cc,
            ),
            forall|rr: int, cc: int| 0 <= rr < m.dim() && 0 <= cc < m.dim() && (is_fixed(
                fixed@,
                rr,
            ) || is_fixed(fixed@, cc)) ==> #[trigger] cell(a@, m.dim(), rr, cc) == q_zero(),
        decreases m.trips@.len() - t,
    {
        let trip = m.triplet(t);
        proof {
            assert(m.trips@[t as int].row < m.n && m.trips@[t as int].col < m.n);
        }
        let ghost olda = a@;
        let in_r = fixed_contains(fixed, trip.row);
        let in_c = fixed_contains(fixed, trip.col);
        let idx = flat_idx(trip.row, trip.col, n);
        if !in_r && !in_c {
            proof {
                // the canonical matrix holds one triplet per key, so the
                // current cell still carries the empty sum
                assert(forall|p: int| 0 <= p < t ==> key_lt(#[trigger] m.trips@[p], m.trips@[
                    t as int]));
                assert(forall|p: int| 0 <= p < t ==> !((#[trigger] m.trips@[p]).row as int
                    == trip.row as int && m.trips@[p].col as int == trip.col as int));
                lemma_esp_stable(m.trips@, 0, t as int, trip.row as int, trip.col as int);
                assert(cell(a@, m.dim(), trip.row as int, trip.col as int) == entry_sum_prefix(
                    m.trips@,
                    t as int,
                    trip.row as int,
                    trip.col as int,
                ));
                assert(a@[idx as int]@ == q_zero());
            }
            let merged = match a[idx].checked_add(trip.val) {
                Some(v) => v,
                None => {
                    proof {
                        assert(trip.val.wf());
                        let az = a@[idx as int]@;
                        let v = trip.val@;
                        assert(az.n * v.d + v.n * az.d == v.n && az.d * v.d == v.d)
                            by (nonlinear_arith)
                            requires
                                az.n == 0,
                                az.d == 1,
                        ;
                        assert(q_add(az, v) == (Q { n: v.n, d: v.d }));
                        assert(crate::rat::q_fits(q_add(az, v)));
                        assert(false);
                    }
                    Rat::zero()
                },
            };
            a.set(idx, merged);
        }
        proof {
            assert forall|rr: int, cc: int| 0 <= rr < m.dim() && 0 <= cc < m.dim() && !is_fixed(
                fixed@,
                rr,
            ) && !is_fixed(fixed@, cc) implies #[trigger] cell(a@, m.dim(), rr, cc)
                == entry_sum_prefix(m.trips@, t + 1, rr, cc) by {
                let qold = cell(olda, m.dim(), rr, cc);
                lemma_flat_index(rr, cc, m.dim());
                if rr * m.dim() + cc == trip.row as int * m.dim() + trip.col as int {
                    lemma_flat_index_injective(
                        rr,
                        cc,
                        trip.row as int,
                        trip.col as int,
                        m.dim(),
                    );
                }
            }
            assert forall|rr: int, cc: int| 0 <= rr < m.dim() && 0 <= cc < m.dim() && (is_fixed(
                fixed@,
                rr,
            ) || is_fixed(fixed@, cc)) implies #[trigger] cell(a@, m.dim(), rr, cc) == q_zero()
                by {
                let qold = cell(olda, m.dim(), rr, cc);
                lemma_flat_index(rr, cc, m.dim());
                if rr * m.dim() + cc == trip.row as int * m.dim() + trip.col as int {
                    lemma_flat_index_injective(
                        rr,
                        cc,
                        trip.row as int,
                        trip.col as int,
                        m.dim(),
                    );
                }
            }
        }
        t += 1;
    }
    // unit diagonal at fixed DOFs; zero fixed loads
    let mut rhs: Vec<Rat> = Vec::new();
    let mut i: usize = 0;
    while i < n
        invariant
            0 <= i <= n,
            n as int == m.dim(),
            f@.len() == n,
            vec_wf(f@),
            rhs@.len() == i,
            vec_wf(rhs@),
            forall|p: int| 0 <= p < i ==> (#[trigger] rhs@[p]) == f@[p],
        decreases n - i,
    {
        rhs.push(f[i]);
        i += 1;
    }
    let mut j: usize = 0;
    while j < fixed.len()
        invariant
            m.wf(),
            m.n <= MAX_DIM,
            n as int == m.dim(),
            0 <= j <= fixed@.len(),
            forall|p: int| 0 <= p < fixed@.len() ==> (#[trigger] fixed@[p]) < m.n,
            a@.len() == m.dim() * m.dim(),
            vec_wf(a@),
            rhs@.len() == m.dim(),
            vec_wf(rhs@),
            forall|rr: int, cc: int| 0 <= rr < m.dim() && 0 <= cc < m.dim() && !is_fixed(
                fixed@,
                rr,
            ) && !is_fixed(fixed@, cc) ==> #[trigger] cell(a@, m.dim(), rr, cc) == entry_sum(
                m.trips@,
                rr,
                cc,
            ),
            forall|rr: int, cc: int| 0 <= rr < m.dim() && 0 <= cc < m.dim() && (is_fixed(
                fixed@,
                rr,
            ) || is_fixed(fixed@, cc)) && !(rr == cc && is_fixed(fixed@.take(j as int), rr))
                ==> #[trigger] cell(a@, m.dim(), rr, cc) == q_zero(),
            forall|rr: int, cc: int| 0 <= rr < m.dim() && 0 <= cc < m.dim() && rr == cc
                && is_fixed(fixed@.take(j as int), rr) ==> #[trigger] cell(a@, m.dim(), rr, cc)
                == q_one(),
            forall|rr: int| 0 <= rr < m.dim() && !is_fixed(fixed@, rr) ==> (#[trigger] rhs@[rr])
                == f@[rr],
            forall|rr: int| 0 <= rr < m.dim() && is_fixed(fixed@.take(j as int), rr)
                ==> (#[trigger] rhs@[rr])@ == q_zero(),
            forall|rr: int| 0 <= rr < m.dim() && is_fixed(fixed@, rr) && !is_fixed(
                fixed@.take(j as int),
                rr,
            ) ==> (#[trigger] rhs@[rr]) == f@[rr],
        decreases fixed@.len() - j,
    {
        let d = fixed[j];
        let idx = flat_idx(d, d, n);
        let ghost olda = a@;
        a.set(idx, Rat::one());
        rhs.set(d, Rat::zero());
        proof {
            assert(fixed@.take(j + 1) =~= fixed@.take(j as int).push(fixed@[j as int]));
            assert forall|rr: int| is_fixed(fixed@.take(j + 1), rr) && rr != d as int
                implies is_fixed(fixed@.take(j as int), rr) by {
                let w = choose|w: int| 0 <= w < fixed@.take(j + 1).len() && (#[trigger] fixed@.take(
                    j + 1,
                )[w]) as int == rr;
                assert(0 <= w < j + 1);
                assert(fixed@.take(j + 1)[w] == fixed@[w]);
                assert(w < j);
            }
            assert(fixed@.take(j + 1)[j as int] == d);
            assert(is_fixed(fixed@.take(j + 1), d as int));
            assert forall|rr: int, cc: int| 0 <= rr < m.dim() && 0 <= cc < m.dim() && rr == cc
                && is_fixed(fixed@.take(j + 1), rr) implies #[trigger] cell(a@, m.dim(), rr, cc)
                == q_one() by {
                let qold = cell(olda, m.dim(), rr, cc);
                lemma_flat_index(rr, cc, m.dim());
                if rr * m.dim() + cc == d as int * m.dim() + d as int {
                    lemma_flat_index_injective(rr, cc, d as int, d as int, m.dim());
                }
            }
            assert forall|rr: int, cc: int| 0 <= rr < m.dim() && 0 <= cc < m.dim() && !is_fixed(
                fixed@,
                rr,
            ) && !is_fixed(fixed@, cc) implies #[trigger] cell(a@, m.dim(), rr, cc) == entry_sum(
                m.trips@,
                rr,
                cc,
            ) by {
                let qold = cell(olda, m.dim(), rr, cc);
                lemma_flat_index(rr, cc, m.dim());
                if rr * m.dim() + cc == d as int * m.dim() + d as int {
                    lemma_flat_index_injective(rr, cc, d as int, d as int, m.dim());
                }
            }
            assert forall|rr: int, cc: int| 0 <= rr < m.dim() && 0 <= cc < m.dim() && (is_fixed(
                fixed@,
                rr,
            ) || is_fixed(fixed@, cc)) && !(rr == cc && is_fixed(fixed@.take(j + 1), rr))
                implies #[trigger] cell(a@, m.dim(), rr, cc) == q_zero() by {
                let qold = cell(olda, m.dim(), rr, cc);
                lemma_flat_index(rr, cc, m.dim());
                if rr * m.dim() + cc == d as int * m.dim() + d as int {
                    lemma_flat_index_injective(rr, cc, d as int, d as int, m.dim());
                }
            }
        }
        j += 1;
    }
    proof {
        assert(fixed@.take(fixed@.len() as int) =~= fixed@);
        assert forall|rr: int, cc: int| 0 <= rr < m.dim() && 0 <= cc < m.dim()
            implies #[trigger] cell(a@, m.dim(), rr, cc) == bc_entry(*m, fixed@, rr, cc) by {
            lemma_flat_index(rr, cc, m.dim());
        }
    }
    (a, rhs)
}

/// Forward elimination with row-addition pivoting and back substitution,
/// entirely in exact arithmetic.  Correctness of the candidate it returns
/// is established afterwards by `certify`.
fn eliminate(a: &mut Vec<Rat>, rhs: &mut Vec<Rat>, n: usize) -> (r: Result<Vec<Rat>, FeaError>)
    requires
        old(a)@.len() == n * n,
        old(rhs)@.len() == n,
        vec_wf(old(a)@),
        vec_wf(old(rhs)@),
        n <= MAX_DIM,
    ensures
        r matches Ok(u) ==> u@.len() == n && vec_wf(u@),
        r matches Err(e) ==> e == FeaError::Singular || e == FeaError::Overflow,
{
    let mut p: usize = 0;
    while p < n
        invariant
            0 <= p <= n,
            n <= MAX_DIM,
            a@.len() == n * n,
            rhs@.len() == n,
            vec_wf(a@),
            vec_wf(rhs@),
        decreases n - p,
    {
        let pidx = flat_idx(p, p, n);
        if a[pidx].is_zero() {
            // adding a lower row with a nonzero entry in this column is an
            // elementary operation that makes the pivot usable
            let mut q2: usize = p + 1;
            let mut found = false;
            while q2 < n && !found
                invariant
                    p < n,
                    p + 1 <= q2 <= n,
                    n <= MAX_DIM,
                    a@.len() == n * n,
                    vec_wf(a@),
                    found ==> q2 < n,
                decreases n - q2, (if found { 0int } else { 1int }),
            {
                let qidx = flat_idx(q2, p, n);
                if !a[qidx].is_zero() {
                    found = true;
                } else {
                    q2 += 1;
                }
            }
            if !found {
                return Err(FeaError::Singular);
            }
            let mut c: usize = 0;
            while c < n
                invariant
                    p < n,
                    q2 < n,
                    0 <= c <= n,
                    n <= MAX_DIM,
                    a@.len() == n * n,
                    rhs@.len() == n,
                    vec_wf(a@),
                    vec_wf(rhs@),
                decreases n - c,
            {
                let i1 = flat_idx(p, c, n);
                let i2 = flat_idx(q2, c, n);
                let nv = match a[i1].checked_add(a[i2]) {
                    Some(v) => v.reduced(),
                    None => {
                        return Err(FeaError::Overflow);
                    },
                };
                a.set(i1, nv);
                c += 1;
            }
            let nv = match rhs[p].checked_add(rhs[q2]) {
                Some(v) => v.reduced(),
                None => {
                    return Err(FeaError::Overflow);
                },
            };
            rhs.set(p, nv);
            if a[pidx].is_zero() {
                return Err(FeaError::Singular);
            }
        }
        let pivot = a[pidx];
        let mut r2: usize = p + 1;
        while r2 < n
            invariant
                p < n,
                p + 1 <= r2 <= n,
                n <= MAX_DIM,
                a@.len() == n * n,
                rhs@.len() == n,
                vec_wf(a@),
                vec_wf(rhs@),
                pivot.wf(),
                pivot@.n != 0,
            decreases n - r2,
        {
            let fidx = flat_idx(r2, p, n);
            let factor = match a[fidx].checked_div(pivot) {
                Some(v) => v.reduced(),
                None => {
                    return Err(FeaError::Overflow);
                },
            };
            let mut c: usize = 0;
            while c < n
                invariant
                    p < n,
                    r2 < n,
                    0 <= c <= n,
                    n <= MAX_DIM,
                    a@.len() == n * n,
                    vec_wf(a@),
                    factor.wf(),
                decreases n - c,
            {
                let i1 = flat_idx(p, c, n);
                let i3 = flat_idx(r2, c, n);
                let t = match factor.checked_mul(a[i1]) {
                    Some(v) => v.reduced(),
                    None => {
                        return Err(FeaError::Overflow);
                    },
                };
                let nv = match a[i3].checked_sub(t) {
                    Some(v) => v.reduced(),
                    None => {
                        return Err(FeaError::Overflow);
                    },
                };
                a.set(i3, nv);
                c += 1;
            }
            let t = match factor.checked_mul(rhs[p]) {
                Some(v) => v.reduced(),
                None => {
                    return Err(FeaError::Overflow);
                },
            };
            let nv = match rhs[r2].checked_sub(t) {
                Some(v) => v.reduced(),
                None => {
                    return Err(FeaError::Overflow);
                },
            };
            rhs.set(r2, nv);
            r2 += 1;
        }
        p += 1;
    }
    // back substitution on the upper-triangular system
    let mut u: Vec<Rat> = Vec::new();
    while u.len() < n
        invariant
            u@.len() <= n,
            vec_wf(u@),
        decreases n - u@.len(),
    {
        u.push(Rat::zero());
    }
    let mut step: usize = 0;
    while step < n
        invariant
            0 <= step <= n,
            n <= MAX_DIM,
            a@.len() == n * n,
            rhs@.len() == n,
            u@.len() == n,
            vec_wf(a@),
            vec_wf(rhs@),
            vec_wf(u@),
        decreases n - step,
    {
        let i = n - 1 - step;
        let mut s = rhs[i];
        let mut c: usize = i + 1;
        while c < n
            invariant
                i < n,
                i + 1 <= c <= n,
                n <= MAX_DIM,
                a@.len() == n * n,
                u@.len() == n,
                vec_wf(a@),
                vec_wf(u@),
                s.wf(),
            decreases n - c,
        {
            let t = match a[flat_idx(i, c, n)].checked_mul(u[c]) {
                Some(v) => v.reduced(),
                None => {
                    return Err(FeaError::Overflow);
                },
            };
            s = match s.checked_sub(t) {
                Some(v) => v.reduced(),
                None => {
                    return Err(FeaError::Overflow);
                },
            };
            c += 1;
        }
        let piv = a[flat_idx(i, i, n)];
        if piv.is_zero() {
            return Err(FeaError::Singular);
        }
        let uv = match s.checked_div(piv) {
            Some(v) => v.reduced(),
            None => {
                return Err(FeaError::Overflow);
            },
        };
        u.set(i, uv);
        step += 1;
    }
    Ok(u)
}

/// Checks, exactly, that `u` satisfies every row of the dense system.
/// A failed row comparison reports `Singular`; an unrepresentable exact
/// intermediate reports `Overflow`.
fn certify(a: &Vec<Rat>, rhs: &Vec<Rat>, u: &Vec<Rat>, n: usize) -> (r: Result<(), FeaError>)
    requires
        a@.len() == n * n,
        rhs@.len() == n,
        u@.len() == n,
        vec_wf(a@),
        vec_wf(rhs@),
        vec_wf(u@),
        n <= MAX_DIM,
    ensures
        r is Ok ==> forall|row: int| 0 <= row < n ==> q_eq(
            #[trigger] dense_row_dot(a@, n as int, row, u@, n as int),
            rhs@[row]@,
        ),
        r matches Err(e) ==> e == FeaError::Singular || e == FeaError::Overflow,
{
    let mut row: usize = 0;
    while row < n
        invariant
            0 <= row <= n,
            n <= MAX_DIM,
            a@.len() == n * n,
            rhs@.len() == n,
            u@.len() == n,
            vec_wf(a@),
            vec_wf(rhs@),
            vec_wf(u@),
            forall|p: int| 0 <= p < row ==> q_eq(
                #[trigger] dense_row_dot(a@, n as int, p, u@, n as int),
                rhs@[p]@,
            ),
        decreases n - row,
    {
        let mut acc = Rat::zero();
        let mut c: usize = 0;
        while c < n
            invariant
                row < n,
                0 <= c <= n,
                n <= MAX_DIM,
                a@.len() == n * n,
                u@.len() == n,
                vec_wf(a@),
                vec_wf(u@),
                acc.wf(),
                acc@ == dense_row_dot(a@, n as int, row as int, u@, c as int),
            decreases n - c,
        {
            let t = match a[flat_idx(row, c, n)].checked_mul(u[c]) {
                Some(v) => v,
                None => {
                    return Err(FeaError::Overflow);
                },
            };
            acc = match acc.checked_add(t) {
                Some(v) => v,
                None => {
                    return Err(FeaError::Overflow);
                },
            };
            c += 1;
        }
        if !acc.eq_rat(rhs[row]) {
            return Err(FeaError::Singular);
        }
        row += 1;
    }
    Ok(())
}

/// Applies the boundary conditions and solves the system exactly.
///
/// On success the returned displacements provably satisfy every row of the
/// constrained system and are exactly zero at every fixed DOF.  Dimension
/// and boundary-index violations are rejected before any computation.
///
/// On a *diagonal* constrained system the contract is two-sided: success
/// is owed whenever every diagonal entry is nonzero and every quotient
/// representable, a zero diagonal entry forces an error, and a singular
/// report certifies that no unique solution exists.  On general systems
/// the singular report is sound in one direction only: a system without a
/// solution can never be answered with `Ok`, but `Err(Singular)` from the
/// elimination is not proved minimal.
pub fn solve(global: &SparseMatrix, f: &Vec<Rat>, fixed_dofs: &Vec<usize>) -> (r: Result<
    Vec<Rat>,
    FeaError,
>)
    requires
        global.wf(),
        vec_wf(f@),
    ensures
        r == Err::<Vec<Rat>, FeaError>(FeaError::DimensionMismatch) <==> f@.len() != global.dim(),
        f@.len() == global.dim() ==> (r == Err::<Vec<Rat>, FeaError>(FeaError::InvalidBoundaryIndex)
            <==> exists|j: int| 0 <= j < fixed_dofs@.len() && (#[trigger] fixed_dofs@[j])
            >= global.n),
        r matches Ok(u) ==> {
            &&& u@.len() == global.dim()
            &&& vec_wf(u@)
            &&& forall|j: int| 0 <= j < fixed_dofs@.len() ==> (#[trigger] u@[fixed_dofs@[j] as int])@
                == q_zero()
            &&& solves(*global, f@, fixed_dofs@, u@)
        },
        f@.len() == global.dim() && (forall|j: int| 0 <= j < fixed_dofs@.len() ==> (
        #[trigger] fixed_dofs@[j]) < global.n) && global.n > MAX_DIM ==> r == Err::<
            Vec<Rat>,
            FeaError,
        >(FeaError::Overflow),
        f@.len() == global.dim() && global.n <= MAX_DIM && (forall|j: int| 0 <= j
            < fixed_dofs@.len() ==> (#[trigger] fixed_dofs@[j]) < global.n) && (forall|r2: int,
            c2: int| 0 <= r2 < global.dim() && 0 <= c2 < global.dim() && r2 != c2 ==> q_eq(
            #[trigger] bc_entry(*global, fixed_dofs@, r2, c2),
            q_zero(),
        )) && (forall|r2: int| 0 <= r2 < global.dim() ==> !q_eq(
            #[trigger] bc_entry(*global, fixed_dofs@, r2, r2),
            q_zero(),
        ) && q_fits(
            q_div(bc_rhs(f@, fixed_dofs@, r2), bc_entry(*global, fixed_dofs@, r2, r2)),
        )) ==> r is Ok,
        (forall|r2: int, c2: int| 0 <= r2 < global.dim() && 0 <= c2 < global.dim() && r2 != c2
            ==> q_eq(#[trigger] bc_entry(*global, fixed_dofs@, r2, c2), q_zero())) && (exists|
            r2: int|
            0 <= r2 < global.dim() && q_eq(
                #[trigger] bc_entry(*global, fixed_dofs@, r2, r2),
                q_zero(),
            )) ==> !(r is Ok),
        (forall|r2: int, c2: int| 0 <= r2 < global.dim() && 0 <= c2 < global.dim() && r2 != c2
            ==> q_eq(#[trigger] bc_entry(*global, fixed_dofs@, r2, c2), q_zero())) && r == Err::<
            Vec<Rat>,
            FeaError,
        >(FeaError::Singular) ==> !unique_solution(*global, f@, fixed_dofs@),
        (forall|r2: int, c2: int| 0 <= r2 < global.dim() && 0 <= c2 < global.dim() && r2 != c2
            ==> q_eq(#[trigger] bc_entry(*global, fixed_dofs@, r2, c2), q_zero())) ==> (
        r matches Ok(u) ==> forall|p: int| 0 <= p < global.dim() ==> (#[trigger] u@[p])@
            == q_div(bc_rhs(f@, fixed_dofs@, p), bc_entry(*global, fixed_dofs@, p, p))),
{
    let n = global.size();
    if f.len() != n {
        return Err(FeaError::DimensionMismatch);
    }
    let mut j: usize = 0;
    while j < fixed_dofs.len()
        invariant
            0 <= j <= fixed_dofs@.len(),
            n == global.n,
            f@.len() == n,
            forall|p: int| 0 <= p < j ==> (#[trigger] fixed_dofs@[p]) < n,
        decreases fixed_dofs@.len() - j,
    {
        if fixed_dofs[j] >= n {
            return Err(FeaError::InvalidBoundaryIndex);
        }
        j += 1;
    }
    if n > MAX_DIM {
        return Err(FeaError::Overflow);
    }
    // dense constrained system, built twice: one copy is consumed by the
    // elimination, the other is what the certificate is checked against
    let (mut a, mut rhs) = build_system(global, f, fixed_dofs);
    let (a2, rhs2) = build_system(global, f, fixed_dofs);
    if is_diagonal(&a2, n) {
        // decoupled rows are solved directly, so success is owed whenever
        // every diagonal entry is nonzero and every quotient representable
        let mut u: Vec<Rat> = Vec::new();
        let mut r2: usize = 0;
        while r2 < n
            invariant
                0 <= r2 <= n,
                n == global.n,
                n <= MAX_DIM,
                global.wf(),
                vec_wf(f@),
                f@.len() == global.dim(),
                forall|p: int| 0 <= p < fixed_dofs@.len() ==> (#[trigger] fixed_dofs@[p])
                    < global.n,
                a2@.len() == global.dim() * global.dim(),
                vec_wf(a2@),
                rhs2@.len() == global.dim(),
                vec_wf(rhs2@),
                forall|rr: int, cc: int| 0 <= rr < global.dim() && 0 <= cc < global.dim()
                    ==> #[trigger] cell(a2@, global.dim(), rr, cc) == bc_entry(
                    *global,
                    fixed_dofs@,
                    rr,
                    cc,
                ),
                forall|rr: int| 0 <= rr < global.dim() ==> (#[trigger] rhs2@[rr])@ == bc_rhs(
                    f@,
                    fixed_dofs@,
                    rr,
                ),
                u@.len() == r2,
                vec_wf(u@),
                forall|p: int| 0 <= p < r2 ==> (#[trigger] u@[p])@ == q_div(
                    bc_rhs(f@, fixed_dofs@, p),
                    bc_entry(*global, fixed_dofs@, p, p),
                ),
                forall|p: int| 0 <= p < r2 ==> !q_eq(
                    #[trigger] bc_entry(*global, fixed_dofs@, p, p),
                    q_zero(),
                ),
            decreases n - r2,
        {
            let idx = flat_idx(r2, r2, n);
            let d = a2[idx];
            proof {
                assert(cell(a2@, global.dim(), r2 as int, r2 as int) == a2@[idx as int]@);
            }
            if d.is_zero() {
                proof {
                    assert(q_eq(bc_entry(*global, fixed_dofs@, r2 as int, r2 as int), q_zero()));
                    if forall|rr: int, cc: int| 0 <= rr < global.dim() && 0 <= cc < global.dim()
                        && rr != cc ==> q_eq(
                        #[trigger] bc_entry(*global, fixed_dofs@, rr, cc),
                        q_zero(),
                    ) {
                        lemma_diag_zero_pivot_not_unique(*global, f@, fixed_dofs@, r2 as int);
                    }
                }
                return Err(FeaError::Singular);
            }
            let uv = match rhs2[r2].checked_div(d) {
                Some(v) => v,
                None => {
                    proof {
                        assert(!q_fits(q_div(
                            bc_rhs(f@, fixed_dofs@, r2 as int),
                            bc_entry(*global, fixed_dofs@, r2 as int, r2 as int),
                        )));
                    }
                    return Err(FeaError::Overflow);
                },
            };
            u.push(uv);
            r2 += 1;
        }
        proof {
            assert forall|rr: int, cc: int| 0 <= rr < global.dim() && 0 <= cc < global.dim()
                && rr != cc implies q_eq(
                #[trigger] bc_entry(*global, fixed_dofs@, rr, cc),
                q_zero(),
            ) by {
                assert(q_eq(cell(a2@, global.dim(), rr, cc), q_zero()));
                assert(cell(a2@, global.dim(), rr, cc) == bc_entry(*global, fixed_dofs@, rr, cc));
            }
            lemma_diag_solves(*global, f@, fixed_dofs@, u@);
            assert forall|j: int| 0 <= j < fixed_dofs@.len() implies (#[trigger] u@[fixed_dofs@[j]
                as int])@ == q_zero() by {
                let dd = fixed_dofs@[j] as int;
                assert(is_fixed(fixed_dofs@, dd));
                assert(bc_rhs(f@, fixed_dofs@, dd) == q_zero());
                assert(bc_entry(*global, fixed_dofs@, dd, dd) == q_one());
                assert(u@[dd]@ == q_div(q_zero(), q_one()));
            }
        }
        return Ok(u);
    }
    let mut u = match eliminate(&mut a, &mut rhs, n) {
        Ok(u) => u,
        Err(e) => {
            return Err(e);
        },
    };
    // pin the fixed DOFs to exact zero before certification
    let mut k: usize = 0;
    while k < fixed_dofs.len()
        invariant
            0 <= k <= fixed_dofs@.len(),
            n == global.n,
            u@.len() == n,
            vec_wf(u@),
            forall|p: int| 0 <= p < fixed_dofs@.len() ==> (#[trigger] fixed_dofs@[p]) < n,
            forall|p: int| 0 <= p < k ==> (#[trigger] u@[fixed_dofs@[p] as int])@ == q_zero(),
        decreases fixed_dofs@.len() - k,
    {
        u.set(fixed_dofs[k], Rat::zero());
        proof {
            assert forall|p: int| 0 <= p < k + 1 implies (#[trigger] u@[fixed_dofs@[p] as int])@
                == q_zero() by {}
        }
        k += 1;
    }
    match certify(&a2, &rhs2, &u, n) {
        Ok(()) => {
            proof {
            assert forall|row: int| 0 <= row < global.dim() implies q_eq(
                #[trigger] bc_row_dot(*global, fixed_dofs@, u@, row, global.dim()),
                bc_rhs(f@, fixed_dofs@, row),
            ) by {
                assert forall|c: int| 0 <= c < global.dim() implies q_eq(
                    #[trigger] cell(a2@, global.dim(), row, c),
                    bc_entry(*global, fixed_dofs@, row, c),
                ) by {}
                lemma_dot_congruence(
                    a2@,
                    *global,
                    fixed_dofs@,
                    u@,
                    row,
                    global.dim(),
                );
                lemma_dense_row_dot_wf(a2@, global.dim(), row, u@, global.dim());
                lemma_bc_row_dot_wf(*global, fixed_dofs@, u@, row, global.dim());
                assert(q_eq(dense_row_dot(a2@, global.dim(), row, u@, global.dim()), rhs2@[row]@));
                assert(rhs2@[row]@ == bc_rhs(f@, fixed_dofs@, row));
                assert(rhs2@[row].wf());
                lemma_q_eq_trans(
                    bc_row_dot(*global, fixed_dofs@, u@, row, global.dim()),
                    dense_row_dot(a2@, global.dim(), row, u@, global.dim()),
                    rhs2@[row]@,
                );
            }
            }
            Ok(u)
        },
        Err(e) => Err(e),
    }
}

/// The constrained system depends only on the *set* of fixed DOFs: a
/// fixed-DOF list with duplicates added or entries reordered names the
/// same constrained matrix, right-hand side, and certified-solution
/// property.
pub proof fn lemma_fixed_set_insensitive(
    m: SparseMatrix,
    f: Seq<Rat>,
    fixed1: Seq<usize>,
    fixed2: Seq<usize>,
    u: Seq<Rat>,
)
    requires
        forall|d: int| is_fixed(fixed1, d) <==> is_fixed(fixed2, d),
    ensures
        forall|r: int, c: int| #[trigger] bc_entry(m, fixed1, r, c) == bc_entry(m, fixed2, r, c),
        forall|r: int| #[trigger] bc_rhs(f, fixed1, r) == bc_rhs(f, fixed2, r),
        solves(m, f, fixed1, u) == solves(m, f, fixed2, u),
{
    assert forall|r: int, c: int| #[trigger] bc_entry(m, fixed1, r, c) == bc_entry(
        m,
        fixed2,
        r,
        c,
    ) by {
        assert(is_fixed(fixed1, r) <==> is_fixed(fixed2, r));
        assert(is_fixed(fixed1, c) <==> is_fixed(fixed2, c));
    }
    assert forall|r: int| #[trigger] bc_rhs(f, fixed1, r) == bc_rhs(f, fixed2, r) by {
        assert(is_fixed(fixed1, r) <==> is_fixed(fixed2, r));
    }
    if solves(m, f, fixed1, u) {
        assert forall|r: int| 0 <= r < m.dim() implies q_eq(
            #[trigger] bc_row_dot(m, fixed2, u, r, m.dim()),
            bc_rhs(f, fixed2, r),
        ) by {
            lemma_bc_row_dot_same(m, fixed1, fixed2, u, r, m.dim());
            assert(q_eq(bc_row_dot(m, fixed1, u, r, m.dim()), bc_rhs(f, fixed1, r)));
        }
    }
    if solves(m, f, fixed2, u) {
        assert forall|r: int| 0 <= r < m.dim() implies q_eq(
            #[trigger] bc_row_dot(m, fixed1, u, r, m.dim()),
            bc_rhs(f, fixed1, r),
        ) by {
            lemma_bc_row_dot_same(m, fixed1, fixed2, u, r, m.dim());
            assert(q_eq(bc_row_dot(m, fixed2, u, r, m.dim()), bc_rhs(f, fixed2, r)));
        }
    }
}

proof fn lemma_bc_row_dot_same(
    m: SparseMatrix,
    fixed1: Seq<usize>,
    fixed2: Seq<usize>,
    u: Seq<Rat>,
    r: int,
    k: int,
)
    requires
        forall|d: int| is_fixed(fixed1, d) <==> is_fixed(fixed2, d),
    ensures
        bc_row_dot(m, fixed1, u, r, k) == bc_row_dot(m, fixed2, u, r, k),
    decreases k,
{
    if k > 0 {
        lemma_bc_row_dot_same(m, fixed1, fixed2, u, r, k - 1);
        assert(is_fixed(fixed1, r) <==> is_fixed(fixed2, r));
        assert(is_fixed(fixed1, k - 1) <==> is_fixed(fixed2, k - 1));
        assert(bc_entry(m, fixed1, r, k - 1) == bc_entry(m, fixed2, r, k - 1));
    }
}

/// Whether every off-diagonal entry of the dense matrix is exactly zero.
fn is_diagonal(a: &Vec<Rat>, n: usize) -> (r: bool)
    requires
        a@.len() == n * n,
        vec_wf(a@),
        n <= MAX_DIM,
    ensures
        r == (forall|r2: int, c2: int| 0 <= r2 < n && 0 <= c2 < n && r2 != c2 ==> q_eq(
            #[trigger] cell(a@, n as int, r2, c2),
            q_zero(),
        )),
{
    let mut rr: usize = 0;
    while rr < n
        invariant
            0 <= rr <= n,
            a@.len() == n * n,
            vec_wf(a@),
            n <= MAX_DIM,
            forall|r2: int, c2: int| 0 <= r2 < rr && 0 <= c2 < n && r2 != c2 ==> q_eq(
                #[trigger] cell(a@, n as int, r2, c2),
                q_zero(),
            ),
        decreases n - rr,
    {
        let mut cc: usize = 0;
        while cc < n
            invariant
                rr < n,
                0 <= cc <= n,
                a@.len() == n * n,
                vec_wf(a@),
                n <= MAX_DIM,
                forall|c2: int| 0 <= c2 < cc && rr as int != c2 ==> q_eq(
                    #[trigger] cell(a@, n as int, rr as int, c2),
                    q_zero(),
                ),
            decreases n - cc,
        {
            if cc != rr {
                let idx = flat_idx(rr, cc, n);
                proof {
                    assert(cell(a@, n as int, rr as int, cc as int) == a@[idx as int]@);
                }
                if !a[idx].is_zero() {
                    return false;
                }
            }
            cc += 1;
        }
        rr += 1;
    }
    true
}

proof fn lemma_diag_dot(
    m: SparseMatrix,
    f: Seq<Rat>,
    fixed: Seq<usize>,
    u: Seq<Rat>,
    r: int,
    k: int,
)
    requires
        m.wf(),
        vec_wf(f),
        f.len() == m.dim(),
        vec_wf(u),
        u.len() == m.dim(),
        0 <= r < m.dim(),
        0 <= k <= m.dim(),
        forall|r2: int, c2: int| 0 <= r2 < m.dim() && 0 <= c2 < m.dim() && r2 != c2 ==> q_eq(
            #[trigger] bc_entry(m, fixed, r2, c2),
            q_zero(),
        ),
        forall|r2: int| 0 <= r2 < m.dim() ==> !q_eq(
            #[trigger] bc_entry(m, fixed, r2, r2),
            q_zero(),
        ),
        forall|p: int| 0 <= p < u.len() ==> (#[trigger] u[p])@ == q_div(
            bc_rhs(f, fixed, p),
            bc_entry(m, fixed, p, p),
        ),
    ensures
        q_eq(
            bc_row_dot(m, fixed, u, r, k),
            if k <= r {
                q_zero()
            } else {
                bc_rhs(f, fixed, r)
            },
        ),
    decreases k,
{
    assert(trips_wf(m.trips@));
    let rhs_r = bc_rhs(f, fixed, r);
    assert(q_wf(rhs_r)) by {
        if !is_fixed(fixed, r) {
            assert(f[r].wf());
        }
    }
    if k > 0 {
        lemma_diag_dot(m, f, fixed, u, r, k - 1);
        let c = k - 1;
        let e = bc_entry(m, fixed, r, c);
        lemma_esp_wf(m.trips@, m.trips@.len() as int, r, c);
        let uv = u[c]@;
        assert(u[c].wf());
        let prev = bc_row_dot(m, fixed, u, r, c);
        lemma_bc_row_dot_wf(m, fixed, u, r, c);
        lemma_q_add_wf(e, uv);
        lemma_q_add_wf(prev, q_mul(e, uv));
        if c == r {
            let dr = bc_entry(m, fixed, r, r);
            assert(uv == q_div(rhs_r, dr));
            assert(dr.n != 0) by {
                if dr.n == 0 {
                    assert(q_eq(dr, q_zero()));
                }
            }
            lemma_q_div_wf(rhs_r, dr);
            lemma_q_mul_div(rhs_r, dr);
            lemma_q_add_congruence(prev, q_zero(), q_mul(dr, uv), rhs_r);
            lemma_q_add_zero(rhs_r);
            lemma_q_add_wf(q_zero(), rhs_r);
            lemma_q_eq_trans(bc_row_dot(m, fixed, u, r, k), q_add(q_zero(), rhs_r), rhs_r);
        } else {
            assert(q_eq(e, q_zero()));
            lemma_q_mul_congruence(e, q_zero(), uv, uv);
            lemma_q_mul_zero(uv);
            lemma_q_add_wf(q_zero(), uv);
            lemma_q_eq_trans(q_mul(e, uv), q_mul(q_zero(), uv), q_zero());
            if k <= r {
                lemma_q_add_congruence(prev, q_zero(), q_mul(e, uv), q_zero());
                assert(q_add(q_zero(), q_zero()) == q_zero());
                lemma_q_eq_trans(
                    bc_row_dot(m, fixed, u, r, k),
                    q_add(q_zero(), q_zero()),
                    q_zero(),
                );
            } else {
                lemma_q_add_congruence(prev, rhs_r, q_mul(e, uv), q_zero());
                lemma_q_add_zero(rhs_r);
                lemma_q_eq_trans(bc_row_dot(m, fixed, u, r, k), q_add(rhs_r, q_zero()), rhs_r);
            }
        }
    }
}

/// A diagonal constrained system with nonzero diagonal is solved exactly
/// by the per-row quotients.
proof fn lemma_diag_solves(m: SparseMatrix, f: Seq<Rat>, fixed: Seq<usize>, u: Seq<Rat>)
    requires
        m.wf(),
        vec_wf(f),
        f.len() == m.dim(),
        vec_wf(u),
        u.len() == m.dim(),
        forall|r2: int, c2: int| 0 <= r2 < m.dim() && 0 <= c2 < m.dim() && r2 != c2 ==> q_eq(
            #[trigger] bc_entry(m, fixed, r2, c2),
            q_zero(),
        ),
        forall|r2: int| 0 <= r2 < m.dim() ==> !q_eq(
            #[trigger] bc_entry(m, fixed, r2, r2),
            q_zero(),
        ),
        forall|p: int| 0 <= p < u.len() ==> (#[trigger] u[p])@ == q_div(
            bc_rhs(f, fixed, p),
            bc_entry(m, fixed, p, p),
        ),
    ensures
        solves(m, f, fixed, u),
{
    assert forall|r: int| 0 <= r < m.dim() implies q_eq(
        #[trigger] bc_row_dot(m, fixed, u, r, m.dim()),
        bc_rhs(f, fixed, r),
    ) by {
        lemma_diag_dot(m, f, fixed, u, r, m.dim());
    }
}

proof fn lemma_dot_dead_coord(
    m: SparseMatrix,
    fixed: Seq<usize>,
    u1: Seq<Rat>,
    u2: Seq<Rat>,
    j: int,
    r: int,
    k: int,
)
    requires
        m.wf(),
        vec_wf(u1),
        vec_wf(u2),
        u1.len() == u2.len(),
        0 <= k <= u1.len(),
        0 <= j < u1.len(),
        forall|i: int| 0 <= i < u1.len() && i != j ==> u1[i] == u2[i],
        q_eq(bc_entry(m, fixed, r, j), q_zero()),
    ensures
        q_eq(bc_row_dot(m, fixed, u1, r, k), bc_row_dot(m, fixed, u2, r, k)),
    decreases k,
{
    assert(trips_wf(m.trips@));
    if k > 0 {
        lemma_dot_dead_coord(m, fixed, u1, u2, j, r, k - 1);
        let c = k - 1;
        let e = bc_entry(m, fixed, r, c);
        lemma_esp_wf(m.trips@, m.trips@.len() as int, r, c);
        let prev1 = bc_row_dot(m, fixed, u1, r, c);
        let prev2 = bc_row_dot(m, fixed, u2, r, c);
        lemma_bc_row_dot_wf(m, fixed, u1, r, c);
        lemma_bc_row_dot_wf(m, fixed, u2, r, c);
        assert(u1[c].wf());
        assert(u2[c].wf());
        lemma_q_add_wf(e, u1[c]@);
        lemma_q_add_wf(e, u2[c]@);
        if c == j {
            // the dead coordinate's coefficient annuls both terms
            lemma_q_mul_congruence(e, q_zero(), u1[c]@, u1[c]@);
            lemma_q_mul_zero(u1[c]@);
            lemma_q_add_wf(q_zero(), u1[c]@);
            lemma_q_eq_trans(q_mul(e, u1[c]@), q_mul(q_zero(), u1[c]@), q_zero());
            lemma_q_mul_congruence(e, q_zero(), u2[c]@, u2[c]@);
            lemma_q_mul_zero(u2[c]@);
            lemma_q_add_wf(q_zero(), u2[c]@);
            lemma_q_eq_trans(q_mul(e, u2[c]@), q_mul(q_zero(), u2[c]@), q_zero());
            lemma_q_eq_trans(q_mul(e, u1[c]@), q_zero(), q_mul(e, u2[c]@));
            lemma_q_add_congruence(prev1, prev2, q_mul(e, u1[c]@), q_mul(e, u2[c]@));
        } else {
            assert(u1[c] == u2[c]);
            lemma_q_add_congruence(prev1, prev2, q_mul(e, u1[c]@), q_mul(e, u2[c]@));
        }
    }
}

/// On a diagonal constrained system, a zero diagonal entry leaves that
/// displacement unconstrained, so no unique solution can exist.
pub proof fn lemma_diag_zero_pivot_not_unique(
    m: SparseMatrix,
    f: Seq<Rat>,
    fixed: Seq<usize>,
    j: int,
)
    requires
        m.wf(),
        vec_wf(f),
        f.len() == m.dim(),
        0 <= j < m.dim(),
        forall|r2: int, c2: int| 0 <= r2 < m.dim() && 0 <= c2 < m.dim() && r2 != c2 ==> q_eq(
            #[trigger] bc_entry(m, fixed, r2, c2),
            q_zero(),
        ),
        q_eq(bc_entry(m, fixed, j, j), q_zero()),
    ensures
        !unique_solution(m, f, fixed),
{
    if unique_solution(m, f, fixed) {
        let u = choose|u: Seq<Rat>|
            u.len() == m.dim() && vec_wf(u) && #[trigger] solves(m, f, fixed, u) && (forall|
                u2: Seq<Rat>,
            |
                u2.len() == m.dim() && vec_wf(u2) && #[trigger] solves(m, f, fixed, u2)
                    ==> vecs_q_eq(u, u2));
        let changed = if u[j]@.n == 0 {
            Rat { num: 1, den: 1 }
        } else {
            Rat { num: 0, den: 1 }
        };
        let u2 = u.update(j, changed);
        assert(vec_wf(u2)) by {
            assert forall|i: int| 0 <= i < u2.len() implies (#[trigger] u2[i]).wf() by {
                if i != j {
                    assert(u2[i] == u[i]);
                }
            }
        }
        assert forall|r: int| 0 <= r < m.dim() implies q_eq(
            #[trigger] bc_row_dot(m, fixed, u2, r, m.dim()),
            bc_rhs(f, fixed, r),
        ) by {
            assert(q_eq(bc_entry(m, fixed, r, j), q_zero()));
            lemma_dot_dead_coord(m, fixed, u2, u, j, r, m.dim());
            lemma_bc_row_dot_wf(m, fixed, u2, r, m.dim());
            lemma_bc_row_dot_wf(m, fixed, u, r, m.dim());
            assert(q_wf(bc_rhs(f, fixed, r))) by {
                if !is_fixed(fixed, r) {
                    assert(f[r].wf());
                }
            }
            assert(q_eq(bc_row_dot(m, fixed, u, r, m.dim()), bc_rhs(f, fixed, r)));
            lemma_q_eq_trans(
                bc_row_dot(m, fixed, u2, r, m.dim()),
                bc_row_dot(m, fixed, u, r, m.dim()),
                bc_rhs(f, fixed, r),
            );
        }
        assert(solves(m, f, fixed, u2));
        assert(vecs_q_eq(u, u2));
        assert(q_eq(u[j]@, u2[j]@));
        assert(u[j].wf());
        assert(false);
    }
}

proof fn lemma_zero_row_dot(m: SparseMatrix, fixed: Seq<usize>, u: Seq<Rat>, r: int, k: int)
    requires
        m.wf(),
        vec_wf(u),
        0 <= k <= u.len(),
        !is_fixed(fixed, r),
        forall|c: int| 0 <= c < u.len() ==> q_eq(#[trigger] m.entry(r, c), q_zero()),
    ensures
        q_eq(bc_row_dot(m, fixed, u, r, k), q_zero()),
    decreases k,
{
    if k > 0 {
        lemma_zero_row_dot(m, fixed, u, r, k - 1);
        let e = bc_entry(m, fixed, r, k - 1);
        let uv = u[k - 1]@;
        assert(trips_wf(m.trips@));
        lemma_esp_wf(m.trips@, m.trips@.len() as int, r, k - 1);
        assert(q_eq(e, q_zero()));
        lemma_q_mul_congruence(e, q_zero(), uv, uv);
        lemma_q_mul_zero(uv);
        lemma_q_add_wf(e, uv);
        lemma_q_add_wf(q_zero(), uv);
        lemma_q_eq_trans(q_mul(e, uv), q_mul(q_zero(), uv), q_zero());
        lemma_bc_row_dot_wf(m, fixed, u, r, k - 1);
        lemma_q_add_congruence(bc_row_dot(m, fixed, u, r, k - 1), q_zero(), q_mul(e, uv), q_zero());
        lemma_q_add_wf(bc_row_dot(m, fixed, u, r, k - 1), q_mul(e, uv));
        lemma_q_eq_trans(
            bc_row_dot(m, fixed, u, r, k),
            q_add(q_zero(), q_zero()),
            q_zero(),
        );
    }
}

/// A constrained system with an unconstrained all-zero row and a nonzero
/// load there has no solution at all, so the solver can never report
/// success for it: a singular configuration yields an explicit error, not
/// a numeric value dressed up as one.
pub proof fn lemma_inconsistent_row_unsolvable(
    m: SparseMatrix,
    f: Seq<Rat>,
    fixed: Seq<usize>,
    u: Seq<Rat>,
    r: int,
)
    requires
        m.wf(),
        vec_wf(u),
        vec_wf(f),
        u.len() == m.dim(),
        f.len() == m.dim(),
        0 <= r < m.dim(),
        !is_fixed(fixed, r),
        forall|c: int| 0 <= c < m.dim() ==> q_eq(#[trigger] m.entry(r, c), q_zero()),
        !q_eq(f[r]@, q_zero()),
    ensures
        !q_eq(bc_row_dot(m, fixed, u, r, m.dim()), bc_rhs(f, fixed, r)),
{
    lemma_zero_row_dot(m, fixed, u, r, m.dim());
    let dot = bc_row_dot(m, fixed, u, r, m.dim());
    lemma_bc_row_dot_wf(m, fixed, u, r, m.dim());
    if q_eq(dot, bc_rhs(f, fixed, r)) {
        assert(bc_rhs(f, fixed, r) == f[r]@);
        lemma_q_eq_trans(f[r]@, dot, q_zero());
        assert(false);
    }
}

} // verus!
