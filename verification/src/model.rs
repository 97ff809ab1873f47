//! Capability definitions: material and element contracts, the closed
//! topology and physics tags, the error taxonomy, and the serial assembler.

use vstd::prelude::*;

use crate::rat::Rat;
use crate::rat::lemma_q_add_congruence;
use crate::rat::lemma_q_eq_trans;
use crate::rat::lemma_q_add_wf;
use crate::rat::q_add;
use crate::rat::q_eq;
use crate::rat::q_fits;
use crate::rat::q_wf;
use crate::rat::q_zero;
use crate::sparse::SparseMatrix;
use crate::sparse::Triplet;
use crate::sparse::canonicalize;
use crate::sparse::entry_sum;
use crate::sparse::entry_sum_prefix;
use crate::sparse::lemma_esp_wf;
use crate::sparse::lemma_superposition;
use crate::sparse::trips_wf;

verus! {

/// Closed tag for the element geometry / interpolation family.
#[derive(Clone, Copy, Debug, PartialEq, Eq, Structural)]
pub enum Topology {
    Bar2,
}

/// Closed tag for the governing physics.
#[derive(Clone, Copy, Debug, PartialEq, Eq, Structural)]
pub enum Physics {
    StructuralMechanics,
}

/// The failures the kernel can report.  All are detected at the assembler
/// or solver boundary; none is masked as a numeric result.
#[derive(Clone, Copy, Debug, PartialEq, Eq, Structural)]
pub enum FeaError {
    /// The force vector's length disagrees with the matrix dimension.
    DimensionMismatch,
    /// A fixed degree of freedom lies outside the system.
    InvalidBoundaryIndex,
    /// The constrained system has no unique solution.
    Singular,
    /// An exact intermediate value left the representable range.
    Overflow,
}

/// Generic material description (isotropic elastic for now).
pub trait Material: Sized {
    spec fn wf(&self) -> bool;

    /// The elastic modulus this material stands for.
    spec fn spec_e(&self) -> Rat;

    /// The cross-section area this material carries, if any.  A material
    /// without one makes this `None`, which its `area` must then return.
    spec fn spec_area(&self) -> Option<Rat>;

    /// Elastic modulus; exactly the material's own, and positive.
    fn e(&self) -> (r: Rat)
        requires
            self.wf(),
        ensures
            r == self.spec_e(),
            r.wf(),
            r@.n > 0,
    ;

    /// Cross-section area: exactly the one the material carries.
    fn area(&self) -> (r: Option<Rat>)
        requires
            self.wf(),
        ensures
            r == self.spec_area(),
            r matches Some(a) ==> a.wf(),
    ;
}

/// Generic finite-element entity: a value-like capability supplying its
/// local stiffness contribution, addressed to global DOF indices (one DOF
/// per node; global index equals node id).
pub trait Element: Sized {
    spec fn wf(&self) -> bool;

    /// The stiffness contribution this element stands for.
    spec fn spec_stiffness(&self) -> Seq<Triplet>;

    /// The geometry / interpolation family this element belongs to.
    spec fn spec_topology(&self) -> Topology;

    /// The physics this element is governed by.
    spec fn spec_physics(&self) -> Physics;

    /// The element's topology tag.
    fn topology(&self) -> (r: Topology)
        ensures
            r == self.spec_topology(),
    ;

    /// The element's physics tag.
    fn physics(&self) -> (r: Physics)
        ensures
            r == self.spec_physics(),
    ;

    /// Local stiffness matrix in sparse triplet form.
    fn stiffness(&self) -> (r: Vec<Triplet>)
        requires
            self.wf(),
        ensures
            r@ == self.spec_stiffness(),
            trips_wf(r@),
    ;
}

/// All triplets of an element stay inside a `dof`-sized system.
pub open spec fn element_in_bounds<E: Element>(e: E, dof: int) -> bool {
    forall|j: int| 0 <= j < e.spec_stiffness().len() ==> (#[trigger] e.spec_stiffness()[j]).row
        < dof && e.spec_stiffness()[j].col < dof && e.spec_stiffness()[j].val.wf()
}

/// Concatenation of the stiffness contributions of the first `k` elements.
pub open spec fn flat_stiffness<E: Element>(elems: Seq<E>, k: int) -> Seq<Triplet>
    decreases k,
{
    if k <= 0 {
        Seq::empty()
    } else {
        flat_stiffness(elems, k - 1) + elems[k - 1].spec_stiffness()
    }
}

/// The whole model's contribution list: every element's triplets in order.
pub open spec fn global_stiffness<E: Element>(elems: Seq<E>) -> Seq<Triplet> {
    flat_stiffness(elems, elems.len() as int)
}

pub proof fn lemma_flat_wf<E: Element>(elems: Seq<E>, k: int, dof: int)
    requires
        k <= elems.len(),
        forall|i: int| 0 <= i < elems.len() ==> element_in_bounds(#[trigger] elems[i], dof),
    ensures
        trips_wf(flat_stiffness(elems, k)),
        forall|j: int| 0 <= j < flat_stiffness(elems, k).len() ==> (#[trigger] flat_stiffness(
            elems,
            k,
        )[j]).row < dof && flat_stiffness(elems, k)[j].col < dof,
    decreases k,
{
    if k > 0 {
        lemma_flat_wf(elems, k - 1, dof);
        assert(element_in_bounds(elems[k - 1], dof));
    }
}

pub proof fn lemma_flat_trips_wf<E: Element>(elems: Seq<E>, k: int)
    requires
        k <= elems.len(),
        forall|i: int| 0 <= i < elems.len() ==> trips_wf((#[trigger] elems[i]).spec_stiffness()),
    ensures
        trips_wf(flat_stiffness(elems, k)),
    decreases k,
{
    if k > 0 {
        lemma_flat_trips_wf(elems, k - 1);
        assert(trips_wf(elems[k - 1].spec_stiffness()));
    }
}

/// An element whose triplet matrix is symmetric.
pub open spec fn symmetric_contribution(ts: Seq<Triplet>) -> bool {
    forall|r: int, c: int| q_eq(#[trigger] entry_sum(ts, r, c), entry_sum(ts, c, r))
}

proof fn lemma_flat_symmetric<E: Element>(elems: Seq<E>, k: int, r: int, c: int)
    requires
        0 <= k <= elems.len(),
        forall|i: int| 0 <= i < elems.len() ==> trips_wf((#[trigger] elems[i]).spec_stiffness()),
        forall|i: int| 0 <= i < elems.len() ==> symmetric_contribution(
            (#[trigger] elems[i]).spec_stiffness(),
        ),
    ensures
        q_eq(entry_sum(flat_stiffness(elems, k), r, c), entry_sum(flat_stiffness(elems, k), c, r)),
    decreases k,
{
    lemma_flat_trips_wf(elems, k);
    if k <= 0 {
    } else {
        lemma_flat_symmetric(elems, k - 1, r, c);
        let prev = flat_stiffness(elems, k - 1);
        let own = elems[k - 1].spec_stiffness();
        let cur = flat_stiffness(elems, k);
        lemma_flat_trips_wf(elems, k - 1);
        assert(trips_wf(own));
        lemma_superposition(prev, own, r, c);
        lemma_superposition(prev, own, c, r);
        let prc = entry_sum(prev, r, c);
        let pcr = entry_sum(prev, c, r);
        let orc = entry_sum(own, r, c);
        let ocr = entry_sum(own, c, r);
        lemma_esp_wf(prev, prev.len() as int, r, c);
        lemma_esp_wf(prev, prev.len() as int, c, r);
        lemma_esp_wf(own, own.len() as int, r, c);
        lemma_esp_wf(own, own.len() as int, c, r);
        lemma_esp_wf(cur, cur.len() as int, r, c);
        lemma_esp_wf(cur, cur.len() as int, c, r);
        assert(symmetric_contribution(own));
        assert(q_eq(orc, ocr));
        lemma_q_add_congruence(prc, pcr, orc, ocr);
        lemma_q_add_wf(prc, orc);
        lemma_q_add_wf(pcr, ocr);
        lemma_q_eq_trans(entry_sum(cur, r, c), q_add(prc, orc), q_add(pcr, ocr));
        lemma_q_eq_trans(entry_sum(cur, r, c), q_add(pcr, ocr), entry_sum(cur, c, r));
    }
}

/// Symmetry law: a model built from elements with symmetric local
/// stiffness matrices has a symmetric global matrix.
pub proof fn lemma_assembly_symmetric<E: Element>(elems: Seq<E>, r: int, c: int)
    requires
        forall|i: int| 0 <= i < elems.len() ==> trips_wf((#[trigger] elems[i]).spec_stiffness()),
        forall|i: int| 0 <= i < elems.len() ==> symmetric_contribution(
            (#[trigger] elems[i]).spec_stiffness(),
        ),
    ensures
        q_eq(
            entry_sum(global_stiffness(elems), r, c),
            entry_sum(global_stiffness(elems), c, r),
        ),
{
    lemma_flat_symmetric(elems, elems.len() as int, r, c);
}

/// Trait responsible for assembling global matrices/vectors.
pub trait Assembler {
    /// Returns the global stiffness matrix in canonical sparse form and the
    /// zero-initialized global force vector.
    fn assemble<E: Element>(&self, dof: usize, elements: &Vec<E>) -> (r: Result<
        (SparseMatrix, Vec<Rat>),
        FeaError,
    >)
        requires
            forall|i: int| 0 <= i < elements@.len() ==> (#[trigger] elements@[i]).wf(),
            forall|i: int| 0 <= i < elements@.len() ==> element_in_bounds(
                #[trigger] elements@[i],
                dof as int,
            ),
        ensures
            r matches Ok(kf) ==> {
                &&& kf.0.wf()
                &&& kf.0.n == dof
                &&& forall|rr: int, cc: int|
                    q_eq(
                        #[trigger] kf.0.entry(rr, cc),
                        entry_sum(global_stiffness(elements@), rr, cc),
                    )
                &&& kf.1@.len() == dof
                &&& forall|i: int| 0 <= i < dof ==> (#[trigger] kf.1@[i])@ == q_zero()
                    && kf.1@[i].wf()
            },
            r is Ok || r == Err::<(SparseMatrix, Vec<Rat>), FeaError>(FeaError::Overflow),
            (forall|rr: int, cc: int, k: int| 0 <= k <= global_stiffness(elements@).len()
                ==> q_fits(
                #[trigger] entry_sum_prefix(global_stiffness(elements@), k, rr, cc),
            )) ==> r is Ok,
    ;
}

/// Serial reference implementation: a two-phase accumulation — an unordered
/// triplet buffer, then one canonicalization pass.
pub struct SerialAssembler;

impl Assembler for SerialAssembler {
    fn assemble<E: Element>(&self, dof: usize, elements: &Vec<E>) -> (r: Result<
        (SparseMatrix, Vec<Rat>),
        FeaError,
    >) {
        let mut buf: Vec<Triplet> = Vec::new();
        let mut i: usize = 0;
        while i < elements.len()
            invariant
                0 <= i <= elements@.len(),
                forall|p: int| 0 <= p < elements@.len() ==> (#[trigger] elements@[p]).wf(),
                forall|p: int| 0 <= p < elements@.len() ==> element_in_bounds(
                    #[trigger] elements@[p],
                    dof as int,
                ),
                buf@ == flat_stiffness(elements@, i as int),
            decreases elements@.len() - i,
        {
            let ts = elements[i].stiffness();
            let ghost pre = buf@;
            let mut j: usize = 0;
            while j < ts.len()
                invariant
                    0 <= j <= ts@.len(),
                    buf@ == pre + ts@.take(j as int),
                decreases ts@.len() - j,
            {
                buf.push(ts[j]);
                proof {
                    assert(ts@.take(j + 1) =~= ts@.take(j as int).push(ts@[j as int]));
                    assert(pre + ts@.take(j + 1) =~= (pre + ts@.take(j as int)).push(
                        ts@[j as int],
                    ));
                }
                j += 1;
            }
            proof {
                assert(ts@.take(ts@.len() as int) =~= ts@);
            }
            i += 1;
        }
        proof {
            lemma_flat_wf(elements@, elements@.len() as int, dof as int);
        }
        let global = match canonicalize(dof, &buf) {
            Some(m) => m,
            None => {
                proof {
                    assert(buf@ == global_stiffness(elements@));
                }
                return Err(FeaError::Overflow);
            },
        };
        let mut f: Vec<Rat> = Vec::new();
        let mut k: usize = 0;
        while k < dof
            invariant
                0 <= k <= dof,
                f@.len() == k,
                forall|p: int| 0 <= p < k ==> (#[trigger] f@[p])@ == q_zero() && f@[p].wf(),
            decreases dof - k,
        {
            f.push(Rat::zero());
            k += 1;
        }
        Ok((global, f))
    }
}

} // verus!
