use vstd::prelude::*;
use crate::rx::clone_pattern;
use crate::rx::CompiledRegex;

verus! {

/// One atomic split rule.  `AtLine` splits immediately before the absolute
/// (one-based) line number.  `AtMatch` scans for a line the regular
/// expression matches and splits at the line `offset` positions away from
/// it; with `discard` set the skipped content is dropped instead of becoming
/// a piece, and with `suppress` set the matched line itself is omitted from
/// the surrounding output.
pub enum Directive {
    AtLine { line: u64 },
    AtMatch { pattern: CompiledRegex, offset: i64, suppress: bool, discard: bool },
}

/// The mathematical shadow of a `Directive`: the compiled regular expression
/// is replaced by its pattern text.
pub ghost enum GDirective {
    AtLine { line: u64 },
    AtMatch { pattern: Seq<u8>, offset: i64, suppress: bool, discard: bool },
}

impl Directive {
    pub open spec fn model(self) -> GDirective {
        match self {
            Directive::AtLine { line } => GDirective::AtLine { line },
            Directive::AtMatch { pattern, offset, suppress, discard } => GDirective::AtMatch {
                pattern: pattern.pattern(),
                offset,
                suppress,
                discard,
            },
        }
    }
}

/// How often one directive applies: a fixed count, or until it first fails
/// to match (the unbounded form).
#[derive(Clone, Copy, PartialEq, Eq, Structural, Debug)]
pub enum RepetitionSpec {
    Count { times: u64 },
    Unbounded,
}

/// One entry of the expanded directive queue.  A fixed count is physically
/// unrolled into that many entries; the unbounded form stays one entry with
/// `repeat_until_miss` set.  `token` is the position of the raw pattern
/// token the entry came from, kept for error reports.
pub struct QueueEntry {
    pub directive: Directive,
    pub repeat_until_miss: bool,
    pub token: usize,
}

/// The mathematical shadow of a `QueueEntry`.
pub ghost struct GEntry {
    pub directive: GDirective,
    pub repeat_until_miss: bool,
    pub token: usize,
}

impl QueueEntry {
    pub open spec fn model(self) -> GEntry {
        GEntry {
            directive: self.directive.model(),
            repeat_until_miss: self.repeat_until_miss,
            token: self.token,
        }
    }
}

pub open spec fn entries_model(q: Seq<QueueEntry>) -> Seq<GEntry> {
    q.map_values(|e: QueueEntry| e.model())
}

/// A list of byte rows (input lines, or raw pattern tokens) as a sequence of
/// byte sequences.
pub open spec fn rows_model(v: Seq<Vec<u8>>) -> Seq<Seq<u8>> {
    v.map_values(|x: Vec<u8>| x@)
}

pub open spec fn pairs_model(v: Seq<(Directive, RepetitionSpec)>) -> Seq<
    (GDirective, RepetitionSpec),
> {
    v.map_values(|p: (Directive, RepetitionSpec)| (p.0.model(), p.1))
}

/// Duplicates a directive, recompiling nothing: the clone of a match
/// directive carries the same compiled pattern.
pub fn clone_directive(d: &Directive) -> (r: Directive)
    ensures
        r.model() == d.model(),
{
    match d {
        Directive::AtLine { line } => Directive::AtLine { line: *line },
        Directive::AtMatch { pattern, offset, suppress, discard } => Directive::AtMatch {
            pattern: clone_pattern(pattern),
            offset: *offset,
            suppress: *suppress,
            discard: *discard,
        },
    }
}

} // verus!
