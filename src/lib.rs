//! Per-key statistics (count, sum, minimum, maximum) over `key;value` lines,
//! computed chunk by chunk and merged into one ordered table.

mod aggregate;
mod chunk;
mod decimal;
mod laws;
mod lines;
mod merged;
mod metrics;
mod pipeline;
mod worker;

pub use aggregate::{count_total, fold_entries, lists, map_combine, merge_entry};
pub use chunk::ChunkReader;
pub use decimal::{decimal_value, parse_value, FRACTION_DIGITS};
pub use laws::{
    lemma_absorb_order_independent, lemma_chunk_boundary, lemma_counts_sum_to_lines,
    lemma_final_line_counts, lemma_listing_determined, lemma_merge_order_independent,
    lemma_worker_assignment_irrelevant, concat_parts, merge_parts,
};
pub use lines::{record_of, split_lines};
pub use merged::{compare_keys, key_lt, sorted_keys, MergedTable};
pub use metrics::{combine, mean, single, Metrics, Stats, VALUE_LIMIT};
pub use pipeline::{first_fault, line_fault, no_fault, summarize, summary};
pub use worker::{line_entries, line_entry, lines_valid, WorkerTable};

use vstd::prelude::*;

verus! {

/// Why a run stopped without a table.
#[derive(Clone, Copy, Debug, PartialEq, Eq)]
pub enum StatsError {
    /// A line does not fit in the read buffer.
    OversizedRecord,
    /// A line has no separator, or its value is not a valid decimal.
    MalformedRecord,
}

} // verus!
