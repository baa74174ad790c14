//! Structural core of a Lie-algebraic quantum circuit simulator.
//!
//! The numerical work (complex matrices, exponentials, traces) is carried out by
//! the caller; this crate holds the parts of the simulator that are decided on
//! plain values: which generators and commutators the dynamical Lie algebra search
//! reduces, in
//! which order, which it keeps, when it stops and what it returns, and the preparation protocol
//! of the simulator object.

mod gsim;

pub use gsim::dla::{
    closed_under_examination, covered, new_new_commutator, new_new_pairs, new_old_commutators,
    old_new_pairs, DlaBuilder, DlaState, DlaStep,
};

pub use gsim::{dla_generators, gates_in_range, GSim, GSimView, GenerateDLA, SimulationGap};
