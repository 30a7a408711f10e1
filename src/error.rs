//! Malformed-pattern diagnostics.
use vstd::prelude::*;

verus! {

/// What is wrong with a pattern, as discovered while matching it.
#[derive(Debug, Clone, Copy, PartialEq, Eq, Structural)]
pub enum PatternError {
    /// The pattern ends with a bare `%`.
    EndsWithPercent,
    /// A `[` set is never closed.
    MissingBracket,
    /// A `(` is never closed.
    UnfinishedCapture,
    /// A `)` closes no open capture.
    InvalidPatternCapture,
    /// `%f` is not followed by `[`.
    MissingFrontierBracket,
    /// `%b` is not followed by two bytes.
    MissingBalanceArguments,
    /// A back-reference `%n` names no closed capture; holds the digit `n`.
    InvalidCaptureIndex(u8),
    /// More captures than the capture buffer holds.
    TooManyCaptures,
}

impl PatternError {
    /// The diagnostic text.
    pub fn message(&self) -> (r: &'static str)
        ensures
            *self == PatternError::EndsWithPercent ==> r@ == "malformed pattern (ends with '%')"@,
            *self == PatternError::MissingBracket ==> r@ == "malformed pattern (missing ']')"@,
            *self == PatternError::UnfinishedCapture ==> r@ == "unfinished capture"@,
            *self == PatternError::InvalidPatternCapture ==> r@ == "invalid pattern capture"@,
            *self == PatternError::MissingFrontierBracket ==> r@ == "missing '[' after '%f' in pattern"@,
            *self == PatternError::MissingBalanceArguments ==> r@ == "malformed pattern (missing arguments to '%b')"@,
            *self == PatternError::TooManyCaptures ==> r@ == "too many captures"@,
            *self == PatternError::InvalidCaptureIndex(0) ==> r@ == "invalid capture index %0"@,
            *self == PatternError::InvalidCaptureIndex(1) ==> r@ == "invalid capture index %1"@,
            *self == PatternError::InvalidCaptureIndex(2) ==> r@ == "invalid capture index %2"@,
            *self == PatternError::InvalidCaptureIndex(3) ==> r@ == "invalid capture index %3"@,
            *self == PatternError::InvalidCaptureIndex(4) ==> r@ == "invalid capture index %4"@,
            *self == PatternError::InvalidCaptureIndex(5) ==> r@ == "invalid capture index %5"@,
            *self == PatternError::InvalidCaptureIndex(6) ==> r@ == "invalid capture index %6"@,
            *self == PatternError::InvalidCaptureIndex(7) ==> r@ == "invalid capture index %7"@,
            *self == PatternError::InvalidCaptureIndex(8) ==> r@ == "invalid capture index %8"@,
            *self == PatternError::InvalidCaptureIndex(9) ==> r@ == "invalid capture index %9"@,
    {
        match self {
            PatternError::EndsWithPercent => "malformed pattern (ends with '%')",
            PatternError::MissingBracket => "malformed pattern (missing ']')",
            PatternError::UnfinishedCapture => "unfinished capture",
            PatternError::InvalidPatternCapture => "invalid pattern capture",
            PatternError::MissingFrontierBracket => "missing '[' after '%f' in pattern",
            PatternError::MissingBalanceArguments => "malformed pattern (missing arguments to '%b')",
            PatternError::InvalidCaptureIndex(n) => match n {
                0 => "invalid capture index %0",
                1 => "invalid capture index %1",
                2 => "invalid capture index %2",
                3 => "invalid capture index %3",
                4 => "invalid capture index %4",
                5 => "invalid capture index %5",
                6 => "invalid capture index %6",
                7 => "invalid capture index %7",
                8 => "invalid capture index %8",
                _ => "invalid capture index %9",
            },
            PatternError::TooManyCaptures => "too many captures",
        }
    }
}

} // verus!
