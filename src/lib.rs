//! A word-frequency pipeline: readers cut files into batches of whole lines,
//! aggregators tokenise batches into private frequency tables, and the tables
//! are merged into one result. Checkpoints store the pipeline's state so that a
//! run can resume, and a small expander adds numbered fields to a struct body.

pub mod freq_table;
pub mod reader;
pub mod shared_buffer;
pub mod tokens;
pub mod aggregator;
pub mod orchestrator;
pub mod report;
pub mod checkpoint;
pub mod fields;
