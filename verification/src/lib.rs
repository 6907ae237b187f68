//! Suffix schemes for rotated log files: how a rotated file is named, how
//! existing rotated files are recognised and ordered, and which of them are
//! old enough to delete under a configured limit.

use vstd::prelude::*;

pub mod strings;
pub mod suffix;
pub mod time;

verus! {

/// Errors reported by a suffix scheme.
#[derive(Clone, Copy, Debug, PartialEq, Eq, Structural)]
pub enum SuffixError {
    /// A scheme was asked to rotate an already-rotated file although its
    /// contract only permits rotating the live (un-suffixed) file.
    AlreadyRotated,
    /// The configured timestamp format string could not be formatted.
    BadFormat,
}

} // verus!
