//! The typed errors that a scan can report.  A scan either yields a complete
//! token sequence or fails with exactly one of these; it never aborts.

use vstd::prelude::*;

verus! {

/// A scan failure, carrying the offending byte and the offset at which the
/// scanner gave up.
#[derive(Debug, Clone, Copy, PartialEq, Eq, Structural)]
pub enum ScanError {
    /// The closing quote of a string literal was not found before the end of
    /// the input; `position` is the offset of the opening quote.
    UnterminatedString { delimiter: u8, position: usize },
    /// A bracket-scoped scan ran out of input while its closing bracket was
    /// still required; `position` is the offset at which the input ended.
    UnmatchedBracket { position: usize },
    /// A byte that belongs to no lexical category, at its offset.
    UnknownCharacter { byte: u8, position: usize },
    /// The operator classifier was invoked on a byte outside the fixed
    /// operator set; the dispatcher checks membership first, so this reports
    /// a misuse of the classifier, not bad input.
    InvalidOperatorByte { byte: u8 },
}

/// The mathematical shape of a `ScanError`: the same variants with the
/// position widened to `int`.
pub enum ScanErrorView {
    UnterminatedString { delimiter: u8, position: int },
    UnmatchedBracket { position: int },
    UnknownCharacter { byte: u8, position: int },
    InvalidOperatorByte { byte: u8 },
}

impl View for ScanError {
    type V = ScanErrorView;

    open spec fn view(&self) -> ScanErrorView {
        match self {
            ScanError::UnterminatedString { delimiter, position } => {
                ScanErrorView::UnterminatedString {
                    delimiter: *delimiter,
                    position: *position as int,
                }
            },
            ScanError::UnmatchedBracket { position } => {
                ScanErrorView::UnmatchedBracket { position: *position as int }
            },
            ScanError::UnknownCharacter { byte, position } => {
                ScanErrorView::UnknownCharacter { byte: *byte, position: *position as int }
            },
            ScanError::InvalidOperatorByte { byte } => {
                ScanErrorView::InvalidOperatorByte { byte: *byte }
            },
        }
    }
}

} // verus!
