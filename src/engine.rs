//! Choosing the engine for a run.
use vstd::prelude::*;

verus! {

/// The three output disciplines.
#[derive(PartialEq, Eq, Structural, Debug, Clone, Copy)]
pub enum Mode {
    /// Each line written at its first appearance.
    Dedup,
    /// Counts gathered over the whole input, then reported.
    CountBatch,
    /// Counts drawn live on the terminal, then reported.
    CountLive,
}

/// The engine for a run: dedup without counting; with counting, the live view
/// when the output is a terminal and the batch report otherwise.
pub fn select_mode(count: bool, terminal: bool) -> (r: Mode)
    ensures
        r == (if !count {
            Mode::Dedup
        } else if terminal {
            Mode::CountLive
        } else {
            Mode::CountBatch
        }),
{
    if !count {
        Mode::Dedup
    } else if terminal {
        Mode::CountLive
    } else {
        Mode::CountBatch
    }
}

} // verus!
