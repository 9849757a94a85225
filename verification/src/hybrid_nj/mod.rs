// The hybrid strategy: pruned merges first, then a handoff to the
// canonical representation for the remaining rounds.
mod algorithm;
mod data;

pub use algorithm::lemma_strategies_agree;
pub use algorithm::hybrid_guaranteed_input;
pub use algorithm::neighbor_joining;
pub use data::{DataNaiveNJ, DataRapidNJ};
