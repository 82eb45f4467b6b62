//! Verified combinatorial core of a granular/continuum physics toolkit:
//! structured-grid indexing and stencils, multigrid transfer maps, hardware
//! routing, broad-phase neighbour search, cohesive-bond pairing, problem-spec
//! boundary handling, solver shape checks and episode bookkeeping.
pub mod assemble;
pub mod bonds;
pub mod broadphase;
pub mod dispatch;
pub mod gym;
pub mod lattice;
pub mod linalg;
pub mod multigrid;
pub mod solver;
pub mod spec;

pub use broadphase::SpatialHash;
pub use dispatch::{ComputeTarget, HardwareDispatch};
pub use gym::EpisodeCounter;
pub use linalg::DenseMat;
pub use multigrid::{Grid2D, Multigrid};
pub use solver::NotSquare;
pub use spec::{BcSpec, SolverSpec, SpecError};
