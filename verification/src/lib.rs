//! Extraction of the sequencing reads that a taxonomic classifier assigned to
//! chosen taxa and their descendants.
//!
//! The crate holds the rules and formats: the include set of a
//! classification report (`report`, `closure`), the exclusion predicate over
//! evidence strings (`exclusion`), rows of classification output and the
//! decision on each (`record`, `filter`, `match_index`), sequence records,
//! tag ranges and extraction (`fastq`, `trim`, `extract`), the gzip codec
//! (`codec`), the order of output blocks (`sequencer`), the settings and
//! the order of the stages (`config`, `controller`), and the whole run on
//! texts held in memory (`pipeline`). Reading and writing files, and
//! spreading batches over threads, is left to the caller.
//!
//! Every function is verified against its contract. What is taken on trust
//! are the contracts of the calls into `rustc_hash`, `aho_corasick` and
//! `libdeflater`; each stands in a small private function next to the type
//! that uses it.

pub mod bytes;
pub mod closure;
pub mod codec;
pub mod config;
pub mod controller;
pub mod error;
pub mod exclusion;
pub mod extract;
pub mod fastq;
pub mod filter;
pub mod lines;
pub mod match_index;
pub mod pipeline;
pub mod record;
pub mod report;
pub mod sequencer;
pub mod taxon_set;
pub mod trim;
