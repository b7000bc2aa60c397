//! Genome-coordinate liftover: parse chain-format alignments, build a
//! per-chromosome interval index over the aligned blocks, and remap
//! half-open coordinate ranges from the target assembly to the query
//! assembly, strand-aware.
//!
//! The pipeline runs strictly downward: the parser ([`parser`]) turns the
//! alignment text into records of derived blocks, the builder
//! ([`interval::get_lapper_hashmap`]) aggregates all blocks per target
//! sequence and freezes one read-only index each, and the engine
//! ([`interval::find_in_lapper`]) answers overlap queries against them.

pub mod bed;
pub mod interval;
pub mod parser;
pub mod view;
