//! The failures that the engine reports.

use crate::text::{decimal_digits, decimal_text};
use vstd::prelude::*;
use vstd::std_specs::cmp::PartialEqSpecImpl;
use vstd::string::StringExecFns;

verus! {

/// A failure of a run.
#[derive(Debug)]
pub enum CustomError {
    /// The entries of a folder could not be listed; holds the folder's path.
    GetEntriesByPath(String),
    /// The layers that were found are not the layers that were configured.
    InvalidTrait(String),
    /// More combinations were asked for than can be had; holds the number
    /// asked for and the number that can be had.
    InvalidTotalSupply(u64, u64),
    /// The percentages of the forced combinations add up to more than 100.
    TotalPercentageExceeded(String),
    /// A file does not have the extension of an image.
    InvalidImageExtension(String),
}

/// What a [`CustomError`] holds, as plain values.
pub enum Failure {
    GetEntriesByPath(Seq<char>),
    InvalidTrait(Seq<char>),
    InvalidTotalSupply(nat, nat),
    TotalPercentageExceeded(Seq<char>),
    InvalidImageExtension(Seq<char>),
}

impl View for CustomError {
    type V = Failure;

    open spec fn view(&self) -> Failure {
        match *self {
            CustomError::GetEntriesByPath(path) => Failure::GetEntriesByPath(path@),
            CustomError::InvalidTrait(detail) => Failure::InvalidTrait(detail@),
            CustomError::InvalidTotalSupply(expected, actual) => Failure::InvalidTotalSupply(
                expected as nat,
                actual as nat,
            ),
            CustomError::TotalPercentageExceeded(detail) => Failure::TotalPercentageExceeded(
                detail@,
            ),
            CustomError::InvalidImageExtension(detail) => Failure::InvalidImageExtension(detail@),
        }
    }
}

/// The text by which a failure is shown.
pub open spec fn failure_text(failure: Failure) -> Seq<char> {
    match failure {
        Failure::GetEntriesByPath(path) => "Failed to retrieve entries by path folder: "@ + path,
        Failure::InvalidTrait(detail) => "Invalid trait config: "@ + detail,
        Failure::InvalidTotalSupply(expected, actual) => "Invalid total supply. Expected: "@
            + decimal_digits(expected) + ". Actual: "@ + decimal_digits(actual) + "."@,
        Failure::TotalPercentageExceeded(detail) => detail,
        Failure::InvalidImageExtension(detail) => detail,
    }
}

/// When two failures count as equal: both are of the same kind, one of the
/// first three, and hold the same. A failure of the last two kinds equals
/// nothing, not even itself.
pub open spec fn same_failure(a: Failure, b: Failure) -> bool {
    match (a, b) {
        (Failure::GetEntriesByPath(x), Failure::GetEntriesByPath(y)) => x == y,
        (Failure::InvalidTrait(x), Failure::InvalidTrait(y)) => x == y,
        (Failure::InvalidTotalSupply(e1, a1), Failure::InvalidTotalSupply(e2, a2)) => e1 == e2
            && a1 == a2,
        _ => false,
    }
}

impl CustomError {
    /// The text by which the failure is shown.
    pub fn to_string(&self) -> (text: String)
        ensures
            text@ == failure_text(self@),
    {
        match self {
            CustomError::GetEntriesByPath(path) => {
                let mut text = String::from_str("Failed to retrieve entries by path folder: ");
                text.append(path.as_str());
                text
            },
            CustomError::InvalidTrait(detail) => {
                let mut text = String::from_str("Invalid trait config: ");
                text.append(detail.as_str());
                text
            },
            CustomError::InvalidTotalSupply(expected, actual) => {
                let mut text = String::from_str("Invalid total supply. Expected: ");
                text.append(decimal_text(*expected).as_str());
                text.append(". Actual: ");
                text.append(decimal_text(*actual).as_str());
                text.append(".");
                text
            },
            CustomError::TotalPercentageExceeded(detail) => detail.clone(),
            CustomError::InvalidImageExtension(detail) => detail.clone(),
        }
    }
}

impl PartialEq for CustomError {
    fn eq(&self, other: &Self) -> (same: bool) {
        match (self, other) {
            (CustomError::GetEntriesByPath(x), CustomError::GetEntriesByPath(y)) => *x == *y,
            (CustomError::InvalidTrait(x), CustomError::InvalidTrait(y)) => *x == *y,
            (CustomError::InvalidTotalSupply(e1, a1), CustomError::InvalidTotalSupply(e2, a2)) => {
                *e1 == *e2 && *a1 == *a2
            },
            _ => false,
        }
    }
}

impl PartialEqSpecImpl for CustomError {
    open spec fn obeys_eq_spec() -> bool {
        true
    }

    open spec fn eq_spec(&self, other: &Self) -> bool {
        same_failure(self@, other@)
    }
}

} // verus!
