use vstd::prelude::*;

verus! {

/// A fatal fault of one run.  Each variant names the position (in the raw
/// pattern token list) of the token or directive at fault.
#[derive(Clone, Copy, PartialEq, Eq, Structural, Debug)]
pub enum SplitError {
    /// A pattern token is malformed: not a line number, not a delimited
    /// regular expression with an optional offset, or carrying a malformed
    /// repetition suffix.
    PatternSyntax { token: usize },
    /// A repetition count of zero: every directive must contribute at least
    /// one split.
    Repetition { token: usize },
    /// A line-number directive that does not lie strictly beyond the line
    /// last consumed.
    PatternOrder { token: usize },
    /// A non-unbounded directive that the input ran out on before it was
    /// satisfied.
    PatternNotFound { token: usize },
}

} // verus!
