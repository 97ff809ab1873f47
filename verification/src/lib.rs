//! A minimal finite-element analysis kernel.
//!
//! Element and material capabilities produce local stiffness contributions
//! in sparse triplet form; an assembler accumulates them into a canonical
//! sparse global matrix and a zero force vector; a solver enforces
//! homogeneous Dirichlet boundary conditions and performs an exact direct
//! solve, certifying that the returned displacements satisfy the
//! constrained system.
//!
//! All arithmetic is exact: scalars are checked rationals, so a result is
//! either a proved-correct solution or an explicit error — never a silently
//! degraded numeric value.

pub mod elements;
pub mod materials;
pub mod model;
pub mod rat;
pub mod solver;
pub mod sparse;

pub use elements::Bar2;
pub use materials::MaterialRecord;
pub use materials::Steel;

pub use model::Assembler;
pub use model::Element;
pub use model::FeaError;
pub use model::Material;
pub use model::Physics;
pub use model::SerialAssembler;
pub use model::Topology;
pub use rat::Q;
pub use rat::Rat;
pub use solver::solve;
pub use sparse::SparseMatrix;
pub use sparse::Triplet;
