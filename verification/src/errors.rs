//! Error kinds for report extraction and the dataset join.

use vstd::prelude::*;

verus! {

/// The ways extraction and joining can fail.
///
/// Every parse failure is fatal to the whole run: there is no per-sample
/// recovery, only absent optional files are skipped (and that is not an
/// error, so it is not represented here).
#[derive(Debug, Clone, Copy, PartialEq, Eq, Structural)]
pub enum MyError {
    /// A file or line could not be read.
    Io,
    /// An expected label was missing or its value was garbled.
    InvalidBasicStatistics,
    /// A sample key could not be extracted from a directory or file name.
    InvalidFileName,
    /// A tabular summary row did not match the three-column schema.
    InvalidSchema,
    /// A post-trim count exceeded the pre-trim count, so the unsigned
    /// delta would underflow.
    RangeError,
}

impl MyError {
    /// A human-readable description of the error.
    pub fn message(&self) -> (r: &'static str)
        ensures
            *self is Io ==> r@ == "error reading line"@,
            *self is InvalidBasicStatistics ==> r@ == "could not get basic statistic"@,
            *self is InvalidFileName ==> r@ == "invalid filename"@,
            *self is InvalidSchema ==> r@ == "summary row does not match the schema"@,
            *self is RangeError ==> r@ == "post-trim count exceeds pre-trim count"@,
    {
        match self {
            MyError::Io => "error reading line",
            MyError::InvalidBasicStatistics => "could not get basic statistic",
            MyError::InvalidFileName => "invalid filename",
            MyError::InvalidSchema => "summary row does not match the schema",
            MyError::RangeError => "post-trim count exceeds pre-trim count",
        }
    }
}

} // verus!
