//! Errors of threshold key generation, partial decryption and combination.

use crate::text::{decimal, push_decimal};
use vstd::prelude::*;

verus! {

/// Errors that can occur during threshold operations.
#[derive(Debug, Clone, PartialEq, Eq)]
pub enum ThresholdError {
    /// The threshold t must be at least 1.
    ThresholdTooSmall {
        /// The threshold that was requested.
        t: usize,
    },
    /// The threshold t must not exceed the number of trustees n.
    ThresholdExceedsTrustees {
        /// The threshold that was requested.
        t: usize,
        /// The number of trustees.
        n: usize,
    },
    /// Additive sharing needs all trustees: t must equal n.
    ThresholdNotSupported {
        /// The threshold that was requested.
        t: usize,
        /// The number of trustees.
        n: usize,
    },
    /// The number of trustees n must be at least 1.
    NoTrustees,
    /// Fewer than t partial decryptions were provided.
    InsufficientShares {
        /// The number of partial decryptions provided.
        provided: usize,
        /// The number required.
        required: usize,
    },
    /// Two partial decryptions carry the same trustee index.
    DuplicateShareIndex {
        /// The duplicated index.
        index: usize,
    },
    /// A partial decryption carries an index outside [1, n].
    InvalidShareIndex {
        /// The invalid index.
        index: usize,
        /// The largest valid index (n).
        max: usize,
    },
}

/// The message of each error, with its numbers in decimal.
pub open spec fn threshold_error_text(e: ThresholdError) -> Seq<char> {
    match e {
        ThresholdError::ThresholdTooSmall { t } => "threshold t="@ + decimal(t as nat) + " must be at least 1"@,
        ThresholdError::ThresholdExceedsTrustees { t, n } => "threshold t="@ + decimal(t as nat)
            + " exceeds number of trustees n="@ + decimal(n as nat),
        ThresholdError::ThresholdNotSupported { t, n } => "threshold t="@ + decimal(t as nat) + " of n="@
            + decimal(n as nat) + " trustees is not supported: additive sharing needs t = n"@,
        ThresholdError::NoTrustees => "number of trustees must be at least 1"@,
        ThresholdError::InsufficientShares { provided, required } => "insufficient partial decryptions: "@
            + decimal(provided as nat) + " provided, "@ + decimal(required as nat) + " required"@,
        ThresholdError::DuplicateShareIndex { index } => "duplicate trustee index "@ + decimal(index as nat)
            + " in partial decryptions"@,
        ThresholdError::InvalidShareIndex { index, max } => "trustee index "@ + decimal(index as nat)
            + " out of valid range [1, "@ + decimal(max as nat) + "]"@,
    }
}

impl ThresholdError {
    /// A human-readable description of the error.
    pub fn message(&self) -> (s: String)
        ensures
            s@ == threshold_error_text(*self),
    {
        match self {
            ThresholdError::ThresholdTooSmall { t } => {
                let mut s = String::from_str("threshold t=");
                push_decimal(&mut s, *t as u64);
                s.append(" must be at least 1");
                s
            },
            ThresholdError::ThresholdExceedsTrustees { t, n } => {
                let mut s = String::from_str("threshold t=");
                push_decimal(&mut s, *t as u64);
                s.append(" exceeds number of trustees n=");
                push_decimal(&mut s, *n as u64);
                s
            },
            ThresholdError::ThresholdNotSupported { t, n } => {
                let mut s = String::from_str("threshold t=");
                push_decimal(&mut s, *t as u64);
                s.append(" of n=");
                push_decimal(&mut s, *n as u64);
                s.append(" trustees is not supported: additive sharing needs t = n");
                s
            },
            ThresholdError::NoTrustees => String::from_str("number of trustees must be at least 1"),
            ThresholdError::InsufficientShares { provided, required } => {
                let mut s = String::from_str("insufficient partial decryptions: ");
                push_decimal(&mut s, *provided as u64);
                s.append(" provided, ");
                push_decimal(&mut s, *required as u64);
                s.append(" required");
                s
            },
            ThresholdError::DuplicateShareIndex { index } => {
                let mut s = String::from_str("duplicate trustee index ");
                push_decimal(&mut s, *index as u64);
                s.append(" in partial decryptions");
                s
            },
            ThresholdError::InvalidShareIndex { index, max } => {
                let mut s = String::from_str("trustee index ");
                push_decimal(&mut s, *index as u64);
                s.append(" out of valid range [1, ");
                push_decimal(&mut s, *max as u64);
                s.append("]");
                s
            },
        }
    }
}

} // verus!
