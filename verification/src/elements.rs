//! Two-node axial bar element (1 DOF per node).

use vstd::prelude::*;

use crate::model::Element;
use crate::model::Physics;
use crate::model::Topology;
use crate::rat::Q;
use crate::rat::Rat;
use crate::rat::q_div;
use crate::rat::q_eq;
use crate::rat::q_fits;
use crate::rat::q_mul;
use crate::rat::q_sub;
use crate::rat::q_zero;
use crate::sparse::Triplet;
use crate::sparse::entry_sum;
use crate::sparse::entry_sum_prefix;

verus! {

/// 2-node axial bar: stiffness `k = E·A / L` spread over its node pair as
/// `[[k, -k], [-k, k]]`, addressed to the global indices `node_ids`.
#[derive(Clone, Copy, Debug)]
pub struct Bar2 {
    /// Global node numbers; the global DOF indices of the element.
    pub node_ids: [usize; 2],
    /// Elastic modulus E.
    pub e: Rat,
    /// Cross-section area A.
    pub area: Rat,
    /// Element length L; a degenerate (zero) length is excluded by
    /// well-formedness rather than propagated into the solve.
    pub length: Rat,
}

impl Bar2 {
    /// The axial stiffness coefficient `E·A / L`.
    pub open spec fn k_spec(self) -> Q {
        q_div(q_mul(self.e@, self.area@), self.length@)
    }

    /// The negated coefficient, as the representation the kernel computes.
    pub open spec fn neg_k_spec(self) -> Q {
        q_sub(q_zero(), self.k_spec())
    }

    pub open spec fn k_rat(self) -> Rat {
        Rat { num: self.k_spec().n as i64, den: self.k_spec().d as i64 }
    }

    pub open spec fn neg_k_rat(self) -> Rat {
        Rat { num: self.neg_k_spec().n as i64, den: self.neg_k_spec().d as i64 }
    }

    /// Runtime well-formedness test, exact against `wf`.
    pub fn well_formed(&self) -> (r: bool)
        ensures
            r == self.wf(),
    {
        if !(self.e.den() > 0 && self.area.den() > 0 && self.length.den() > 0
            && self.length.num() != 0) {
            return false;
        }
        match self.e.checked_mul(self.area) {
            Some(m) => match m.checked_div(self.length) {
                Some(k) => Rat::zero().checked_sub(k).is_some(),
                None => false,
            },
            None => false,
        }
    }

    fn stiffness_coefficient(&self) -> (r: (Rat, Rat))
        requires
            self.wf(),
        ensures
            r.0 == self.k_rat(),
            r.1 == self.neg_k_rat(),
            r.0.wf(),
            r.1.wf(),
    {
        let m = match self.e.checked_mul(self.area) {
            Some(m) => m,
            None => {
                proof {
                    assert(false);
                }
                Rat::zero()
            },
        };
        let k = match m.checked_div(self.length) {
            Some(k) => k,
            None => {
                proof {
                    assert(false);
                }
                Rat::zero()
            },
        };
        let nk = match Rat::zero().checked_sub(k) {
            Some(nk) => nk,
            None => {
                proof {
                    assert(false);
                }
                Rat::zero()
            },
        };
        (k, nk)
    }
}

impl Element for Bar2 {
    /// Scalars are valid, the length is nonzero, and the stiffness
    /// coefficient and its negation are representable.
    open spec fn wf(&self) -> bool {
        &&& self.e.wf()
        &&& self.area.wf()
        &&& self.length.wf()
        &&& self.length@.n != 0
        &&& q_fits(q_mul(self.e@, self.area@))
        &&& q_fits(self.k_spec())
        &&& q_fits(self.neg_k_spec())
    }

    /// Exactly four triplets: `(i,i)=k`, `(i,j)=-k`, `(j,i)=-k`, `(j,j)=k`
    /// for the node pair `(i, j)`.
    open spec fn spec_stiffness(&self) -> Seq<Triplet> {
        seq![
            Triplet { row: self.node_ids[0], col: self.node_ids[0], val: self.k_rat() },
            Triplet { row: self.node_ids[0], col: self.node_ids[1], val: self.neg_k_rat() },
            Triplet { row: self.node_ids[1], col: self.node_ids[0], val: self.neg_k_rat() },
            Triplet { row: self.node_ids[1], col: self.node_ids[1], val: self.k_rat() },
        ]
    }

    open spec fn spec_topology(&self) -> Topology {
        Topology::Bar2
    }

    open spec fn spec_physics(&self) -> Physics {
        Physics::StructuralMechanics
    }

    fn topology(&self) -> (r: Topology) {
        Topology::Bar2
    }

    fn physics(&self) -> (r: Physics) {
        Physics::StructuralMechanics
    }

    fn stiffness(&self) -> (r: Vec<Triplet>) {
        let (k, nk) = self.stiffness_coefficient();
        let mut out: Vec<Triplet> = Vec::new();
        out.push(Triplet { row: self.node_ids[0], col: self.node_ids[0], val: k });
        out.push(Triplet { row: self.node_ids[0], col: self.node_ids[1], val: nk });
        out.push(Triplet { row: self.node_ids[1], col: self.node_ids[0], val: nk });
        out.push(Triplet { row: self.node_ids[1], col: self.node_ids[1], val: k });
        proof {
            assert(out@ =~= self.spec_stiffness());
        }
        out
    }
}

/// A bar's triplet matrix is symmetric: its sum at `(r, c)` equals its sum
/// at `(c, r)`.
pub proof fn lemma_bar2_symmetric(b: Bar2, r: int, c: int)
    requires
        b.wf(),
    ensures
        q_eq(entry_sum(b.spec_stiffness(), r, c), entry_sum(b.spec_stiffness(), c, r)),
{
    let ts = b.spec_stiffness();
    assert(entry_sum_prefix(ts, 0, r, c) == q_zero());
    assert(entry_sum_prefix(ts, 0, c, r) == q_zero());
    assert(entry_sum(ts, r, c) == entry_sum_prefix(ts, 4, r, c));
    assert(entry_sum(ts, c, r) == entry_sum_prefix(ts, 4, c, r));
    assert(entry_sum_prefix(ts, 4, r, c) == entry_sum_prefix(ts, 4, c, r)) by {
        assert(entry_sum_prefix(ts, 1, r, c) == if ts[0].row as int == r && ts[0].col as int == c {
            crate::rat::q_add(q_zero(), ts[0].val@)
        } else {
            q_zero()
        });
        assert(entry_sum_prefix(ts, 1, c, r) == if ts[0].row as int == c && ts[0].col as int == r {
            crate::rat::q_add(q_zero(), ts[0].val@)
        } else {
            q_zero()
        });
        assert(entry_sum_prefix(ts, 2, r, c) == if ts[1].row as int == r && ts[1].col as int == c {
            crate::rat::q_add(entry_sum_prefix(ts, 1, r, c), ts[1].val@)
        } else {
            entry_sum_prefix(ts, 1, r, c)
        });
        assert(entry_sum_prefix(ts, 2, c, r) == if ts[1].row as int == c && ts[1].col as int == r {
            crate::rat::q_add(entry_sum_prefix(ts, 1, c, r), ts[1].val@)
        } else {
            entry_sum_prefix(ts, 1, c, r)
        });
        assert(entry_sum_prefix(ts, 3, r, c) == if ts[2].row as int == r && ts[2].col as int == c {
            crate::rat::q_add(entry_sum_prefix(ts, 2, r, c), ts[2].val@)
        } else {
            entry_sum_prefix(ts, 2, r, c)
        });
        assert(entry_sum_prefix(ts, 3, c, r) == if ts[2].row as int == c && ts[2].col as int == r {
            crate::rat::q_add(entry_sum_prefix(ts, 2, c, r), ts[2].val@)
        } else {
            entry_sum_prefix(ts, 2, c, r)
        });
    }
}

} // verus!
