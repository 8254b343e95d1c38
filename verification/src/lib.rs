//! Telemetry aggregation and history tracking for a terminal system monitor.
//!
//! The library owns the dashboard's state: bounded rolling histories per
//! metric source, the sorted/filtered/truncated process snapshot, and the
//! selection state. Raw readings come from unverified adapters (the OS
//! metric provider, an external GPU command); each tick the aggregation
//! engine ingests one flat sample of plain values and updates the state.

use vstd::prelude::*;

pub mod ring;
pub mod text;
pub mod process;
pub mod gpu;
pub mod app;
pub mod collector;

verus! {

/// Spells out the element-wise image of a vector: its deep view is the
/// sequence of its elements' deep views.
pub proof fn lemma_vec_deep_view<T: DeepView>(v: &Vec<T>)
    ensures
        v.deep_view().len() == v@.len(),
        forall|i: int| 0 <= i < v@.len() ==> v.deep_view()[i] == #[trigger] v@[i].deep_view(),
{
}

} // verus!
