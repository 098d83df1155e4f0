//! Extraction of raw data-segment payloads from a parsed binary module.
//!
//! The crate turns a list of requested index tokens and a module's ordered
//! data segments into a deterministic write plan: which payload goes to
//! which destination (standard output, or a file path derived from an
//! output base path). Argument tokenization and the actual I/O live with
//! the caller; everything here is pure and verified.

pub mod digits;
pub mod loader;
pub mod router;
pub mod selector;
