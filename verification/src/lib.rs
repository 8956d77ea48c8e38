//! A deterministic space-filling sequence generator: given a contiguous range
//! of unsigned integers, it produces a permutation of that range in which each
//! emitted value is, heuristically, maximally distant from the values emitted
//! before it. Early samples are spread evenly across the domain instead of
//! clustering, which suits progressive rendering, probing, or incremental
//! coverage of a value space.
//!
//! The generator first emits the two endpoints, then walks rational lattice
//! points `round(range * numerator / 2^pow)` through increasing powers of two
//! (midpoint, quarter points, eighth points, ...), and finally fills the gaps
//! left by rounding collisions with a linear scan.

mod ext;
mod laws;
mod model;
mod sequencer;

pub use laws::{
    lemma_deterministic, lemma_finished_stays, lemma_first_is_lower, lemma_offset_equivalence,
    lemma_run_complete, lemma_run_outputs_len, lemma_second_is_upper, lemma_single_element,
};
pub use model::{
    init_view, inv, out_as_nat, range_values, round_log2, run_outputs, shift_outputs, step,
    IterView, Phase, StepResult,
};
pub use sequencer::{ilog2, RlpIter, RlpIterator};
