use vstd::prelude::*;

verus! {

/// Run-wide configuration, threaded explicitly into the split engine and the
/// piece accountant rather than held as ambient process state, so that
/// several independent runs can live in one process.
pub struct Behaviour {
    /// Suffix format used by the surrounding program when naming output
    /// files; the core never interprets it.
    pub suffix_format: String,
    /// Prefix for output file names; used by the surrounding program.
    pub prefix: String,
    /// Number of digits in output file names; used by the surrounding program.
    pub digits: u64,
    /// Name of the input source; used by the surrounding program.
    pub filename: String,
    /// On a fatal mid-stream error, keep the pieces already written instead
    /// of deleting them.
    pub keep_files: bool,
    /// Do not report per-piece byte counts.
    pub quiet: bool,
    /// Drop pieces whose content is empty from both the writer calls and the
    /// report.
    pub elide_empty: bool,
    /// Omit the line that triggered a match-based boundary from the output.
    pub suppress_matched: bool,
}

} // verus!
