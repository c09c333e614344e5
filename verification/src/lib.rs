//! A batch, idempotent source-to-source annotator: it scans a tree of source
//! files, collects the names declared in them into a corpus-wide registry,
//! and rewrites documentation-comment lines so that plain mentions of a
//! registered name become cross-reference link markers.
//!
//! The crate holds the verified core. `chars` carries the character-level
//! ground work, `tables` the fixed stopword and always-link sets,
//! `classify` the per-line classifier, `rewrite` the link-marker engine,
//! `source` the units, the corpus and the materializer, `report` the
//! declaration counters, `watch` the re-run decision, and `cli` the plain
//! data form of a run's mode. `laws` and `idempotence` state and prove the
//! pipeline's cross-cutting guarantees.
//!
//! File enumeration, reading, writing and console output live with the
//! caller, which hands lines in and takes lines back as plain strings.
pub mod chars;
pub mod classify;
pub mod cli;
pub mod idempotence;
pub mod laws;
pub mod report;
pub mod rewrite;
pub mod source;
pub mod tables;
pub mod watch;
