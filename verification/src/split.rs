use vstd::prelude::*;
use crate::account::account_model;
use crate::account::account_segments;
use crate::account::pieces_model;
use crate::account::reports_model;
use crate::account::GPiece;
use crate::account::GReport;
use crate::account::Piece;
use crate::account::Report;
use crate::behaviour::Behaviour;
use crate::directive::entries_model;
use crate::directive::rows_model;
use crate::engine::lemma_chained_indexed;
use crate::engine::lemma_run_chained;
use crate::engine::run_from;
use crate::engine::segs_model;
use crate::engine::split_segments;
use crate::engine::GSeg;
use crate::engine::Segment;
use crate::errors::SplitError;
use crate::expand::expand_directives;
use crate::expand::expand_model;
use crate::parse::parse_all_model;
use crate::parse::parse_patterns;

verus! {

/// What one whole run yields: the fault that stopped it (if one did), the
/// segments placed before that, and the writer pieces and report lines the
/// accountant owes for them.
pub ghost struct GSplit {
    pub err: Option<SplitError>,
    pub segs: Seq<GSeg>,
    pub writes: Seq<GPiece>,
    pub reports: Seq<GReport>,
}

/// The meaning of one whole run: parse the raw tokens, flatten the pairs
/// into the directive queue, run the engine over the lines, and account the
/// segments.  Parse and repetition faults are detected before any piece
/// exists; an engine fault keeps the pieces already placed.
pub open spec fn split_model(
    lines: Seq<Seq<u8>>,
    tokens: Seq<Seq<u8>>,
    suppress: bool,
    elide: bool,
    quiet: bool,
) -> GSplit {
    match parse_all_model(tokens, suppress) {
        Err(e) => GSplit {
            err: Some(e),
            segs: Seq::empty(),
            writes: Seq::empty(),
            reports: Seq::empty(),
        },
        Ok(pairs) => match expand_model(pairs) {
            Err(e) => GSplit {
                err: Some(e),
                segs: Seq::empty(),
                writes: Seq::empty(),
                reports: Seq::empty(),
            },
            Ok(q) => {
                let r = run_from(lines, q, 0, 0, Seq::empty());
                let a = account_model(lines, r.segs, elide, quiet);
                GSplit { err: r.err, segs: r.segs, writes: a.writes, reports: a.reports }
            },
        },
    }
}

/// A faultless run: the pieces for the writer, the report lines for the
/// sink, and the segments they came from.
pub struct RunOutput {
    pub pieces: Vec<Piece>,
    pub reports: Vec<Report>,
    pub segments: Vec<Segment>,
}

/// A run stopped by a fault, carrying the pieces already owed to the writer
/// at that point, so the caller can honor the cleanup policy.
pub struct RunFailure {
    pub error: SplitError,
    pub pieces: Vec<Piece>,
}

/// Runs the whole split, per `split_model`: `Ok` exactly when no token is
/// malformed, no repetition is zero, and every directive is satisfied
/// before end-of-input.
pub fn rcsplit(lines: &Vec<Vec<u8>>, tokens: &Vec<Vec<u8>>, behaviour: &Behaviour) -> (r: Result<
    RunOutput,
    RunFailure,
>)
    ensures
        ({
            let m = split_model(
                rows_model(lines@),
                rows_model(tokens@),
                behaviour.suppress_matched,
                behaviour.elide_empty,
                behaviour.quiet,
            );
            match r {
                Ok(out) => m.err is None && pieces_model(out.pieces@) == m.writes
                    && reports_model(out.reports@) == m.reports && segs_model(out.segments@)
                    == m.segs,
                Err(f) => m.err == Some(f.error) && pieces_model(f.pieces@) == m.writes,
            }
        }),
{
    let ghost lm = rows_model(lines@);
    let pairs = match parse_patterns(tokens, behaviour.suppress_matched) {
        Ok(p) => p,
        Err(e) => {
            proof {
                assert(pieces_model(Seq::<Piece>::empty()) =~= Seq::<GPiece>::empty());
            }
            return Err(RunFailure { error: e, pieces: Vec::new() });
        },
    };
    let queue = match expand_directives(&pairs) {
        Ok(q) => q,
        Err(e) => {
            proof {
                assert(pieces_model(Seq::<Piece>::empty()) =~= Seq::<GPiece>::empty());
            }
            return Err(RunFailure { error: e, pieces: Vec::new() });
        },
    };
    let (segments, err) = split_segments(lines, &queue);
    proof {
        let gq = entries_model(queue@);
        let gr = run_from(lm, gq, 0, 0, Seq::empty());
        lemma_run_chained(lm, gq, 0, 0, Seq::empty());
        lemma_chained_indexed(gr.segs, 0);
        assert forall|j: int|
            0 <= j < segments@.len() implies (#[trigger] segments@[j]).start_line
            <= segments@[j].end_line <= lines@.len() by {
            assert(segs_model(segments@)[j] == segments@[j].model());
            assert(segs_model(segments@)[j] == gr.segs[j]);
        }
    }
    let (pieces, reports) = account_segments(
        lines,
        &segments,
        behaviour.elide_empty,
        behaviour.quiet,
    );
    match err {
        None => Ok(RunOutput { pieces, reports, segments }),
        Some(e) => Err(RunFailure { error: e, pieces }),
    }
}

/// The pieces to delete after a fatal fault: none under the keep-files
/// policy, else every piece already written, by index, in order.
pub fn cleanup_plan(failure: &RunFailure, keep_files: bool) -> (r: Vec<usize>)
    ensures
        keep_files ==> r@ == Seq::<usize>::empty(),
        !keep_files ==> r@ == failure.pieces@.map_values(|p: Piece| p.index),
{
    let mut out: Vec<usize> = Vec::new();
    if keep_files {
        proof {
            assert(out@ =~= Seq::<usize>::empty());
        }
        return out;
    }
    let mut i: usize = 0;
    while i < failure.pieces.len()
        invariant
            i <= failure.pieces@.len(),
            out@ == failure.pieces@.subrange(0, i as int).map_values(|p: Piece| p.index),
        decreases failure.pieces@.len() - i,
    {
        proof {
            assert(failure.pieces@.subrange(0, i + 1 as int).map_values(|p: Piece| p.index)
                =~= failure.pieces@.subrange(0, i as int).map_values(|p: Piece| p.index).push(
                failure.pieces@[i as int].index,
            ));
        }
        out.push(failure.pieces[i].index);
        i = i + 1;
    }
    proof {
        assert(failure.pieces@.subrange(0, failure.pieces@.len() as int) =~= failure.pieces@);
    }
    out
}

} // verus!
