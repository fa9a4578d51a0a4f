//! Prediction and state recovery for the PCG-XSH-RR generator.
//!
//! Given a stream of 32-bit outputs from an unknown PCG-XSH-RR instance
//! (64-bit state, odd 64-bit increment), the library bootstraps a candidate
//! description from the first four outputs, narrows it as further outputs
//! arrive, and finally recovers the exact `(state, increment)` pair.

pub mod arith;
pub mod parse;
pub mod predictor;
pub mod recovery;
pub mod table;
pub mod xshrr;

use vstd::prelude::*;

verus! {

/// The PCG-XSH-RR multiplicative constant.
pub const A: u64 = 6364136223846793005;

/// The multiplicative inverse of `A` modulo 2^64.
pub const A_INV: u64 = 13877824140714322085;

/// The failures the solver can report.
#[derive(Clone, Copy, Debug, PartialEq, Eq, Structural)]
pub enum BreakError {
    /// The lookup table could not be validated.
    TableLoadFailed,
    /// A text-mode input line is not an unsigned 32-bit integer.
    OutputParseFailed,
    /// The input ended before the four bootstrap outputs were read.
    InputTruncated,
    /// No candidate is consistent with the observed outputs.
    NotPcg,
}

/// What `message` returns for each error.
pub open spec fn spec_message(e: BreakError) -> Seq<char> {
    match e {
        BreakError::TableLoadFailed => "failed to load precomputed table"@,
        BreakError::OutputParseFailed => "an output line is not an unsigned 32-bit integer"@,
        BreakError::InputTruncated => "input ended before four outputs were read"@,
        BreakError::NotPcg => "output sequence not produced by PCG-XSH-RR"@,
    }
}

impl BreakError {
    /// A short description of the error, for reporting.
    pub fn message(&self) -> (m: &'static str)
        ensures
            m@ == spec_message(*self),
    {
        match self {
            BreakError::TableLoadFailed => "failed to load precomputed table",
            BreakError::OutputParseFailed => "an output line is not an unsigned 32-bit integer",
            BreakError::InputTruncated => "input ended before four outputs were read",
            BreakError::NotPcg => "output sequence not produced by PCG-XSH-RR",
        }
    }
}

} // verus!
