//! Aggregation core for per-sample sequencing quality-control reports.
//!
//! The library covers the report-extraction and cross-dataset join engine:
//! parsing fields out of loosely structured text reports, normalizing sample
//! identifiers so that lexicographic order matches numeric order, building
//! ordered datasets keyed by normalized sample identifiers, and joining two
//! datasets (before and after trimming) to compute per-sample deltas.
//! File discovery and output rendering are left to the surrounding program.

pub mod dataset;
pub mod errors;
pub mod extract;
pub mod keys;
pub mod strutil;
