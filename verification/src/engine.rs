use vstd::prelude::*;
use crate::directive::entries_model;
use crate::directive::rows_model;
use crate::directive::GDirective;
use crate::directive::GEntry;
use crate::directive::QueueEntry;
use crate::errors::SplitError;
use crate::rx::pattern_hits_line;
use crate::rx::regex_hits;
use crate::rx::CompiledRegex;

verus! {

/// One contiguous stretch of input lines, `[start_line, end_line)`
/// (zero-based), produced at one boundary crossing.  A discarded stretch is
/// never written out; a piece is, minus the lines listed in `suppressed`
/// (matched lines a suppressing directive asked to omit).
pub struct Segment {
    pub start_line: usize,
    pub end_line: usize,
    pub discard: bool,
    pub suppressed: Vec<usize>,
}

/// The mathematical shadow of a `Segment`.
pub ghost struct GSeg {
    pub start_line: int,
    pub end_line: int,
    pub discard: bool,
    pub suppressed: Seq<int>,
}

impl Segment {
    pub open spec fn model(self) -> GSeg {
        GSeg {
            start_line: self.start_line as int,
            end_line: self.end_line as int,
            discard: self.discard,
            suppressed: self.suppressed@.map_values(|x: usize| x as int),
        }
    }
}

pub open spec fn segs_model(v: Seq<Segment>) -> Seq<GSeg> {
    v.map_values(|s: Segment| s.model())
}

pub open spec fn pend_model(v: Seq<usize>) -> Seq<int> {
    v.map_values(|x: usize| x as int)
}

/// What one whole run of the engine yields: the segments in input order,
/// and the fault that stopped it, if one did.
pub ghost struct GOutcome {
    pub segs: Seq<GSeg>,
    pub err: Option<SplitError>,
}

/// A line as a pattern sees it: its bytes with the trailing newline, if
/// any, stripped.
pub open spec fn line_body(l: Seq<u8>) -> Seq<u8> {
    if l.len() > 0 && l.last() == 10 {
        l.drop_last()
    } else {
        l
    }
}

/// The least line index at or after `from` whose body the pattern matches.
pub open spec fn first_hit(lines: Seq<Seq<u8>>, pat: Seq<u8>, from: int) -> Option<int>
    decreases lines.len() - from,
{
    if from < 0 || from >= lines.len() {
        None
    } else if regex_hits(pat, line_body(lines[from])) {
        Some(from)
    } else {
        first_hit(lines, pat, from + 1)
    }
}

pub proof fn lemma_first_hit(lines: Seq<Seq<u8>>, pat: Seq<u8>, from: int)
    requires
        0 <= from,
    ensures
        match first_hit(lines, pat, from) {
            Some(m) => from <= m < lines.len() && regex_hits(pat, line_body(lines[m])) && (
            forall|j: int| from <= j < m ==> !regex_hits(pat, line_body(lines[j]))),
            None => forall|j: int|
                from <= j < lines.len() ==> !regex_hits(pat, line_body(lines[j])),
        },
    decreases lines.len() - from,
{
    if from < lines.len() && !regex_hits(pat, line_body(lines[from])) {
        lemma_first_hit(lines, pat, from + 1);
    }
}

pub open spec fn clamp_int(lo: int, x: int, hi: int) -> int {
    if x < lo {
        lo
    } else if x > hi {
        hi
    } else {
        x
    }
}

/// The pending suppressed line indices that fall before `e`.
pub open spec fn pend_below(p: Seq<int>, e: int) -> Seq<int>
    decreases p.len(),
{
    if p.len() == 0 {
        Seq::empty()
    } else {
        pend_below(p.drop_last(), e) + if p.last() < e {
            seq![p.last()]
        } else {
            Seq::empty()
        }
    }
}

/// The pending suppressed line indices that fall at or after `e`.
pub open spec fn pend_at_or_above(p: Seq<int>, e: int) -> Seq<int>
    decreases p.len(),
{
    if p.len() == 0 {
        Seq::empty()
    } else {
        pend_at_or_above(p.drop_last(), e) + if p.last() >= e {
            seq![p.last()]
        } else {
            Seq::empty()
        }
    }
}

/// The split engine, as a mathematical function of its state.
///
/// `out_pos` is the line where the next piece begins (the last committed
/// boundary); `scan_pos` is the next line to be read, never rewound;
/// `pending` are matched lines awaiting suppression in whichever segment
/// comes to contain them.  The queue is consumed in order:
///
/// * `AtLine(n)` (one-based) ends the piece just before line `n`; a line
///   number not strictly beyond the lines already consumed is an order
///   fault, and one beyond end-of-input is a not-found fault.
/// * `AtMatch` scans from `scan_pos` for the first matching line `m` and
///   ends the piece at `m + offset`, clamped between the last boundary and
///   end-of-input; reading resumes after the match (or after the boundary,
///   whichever is later).  With `discard` set the stretch runs through the
///   matched line (`m + 1 + offset`, clamped) and is dropped instead of
///   becoming a piece.  With `suppress` set the matched line is recorded
///   for omission from the segment that contains it.
/// * A missed match ends an unbounded entry without fault, and is fatal for
///   any other entry.
///
/// When the queue is exhausted the remaining input, even empty, forms one
/// final piece.
pub open spec fn run_from(
    lines: Seq<Seq<u8>>,
    q: Seq<GEntry>,
    out_pos: int,
    scan_pos: int,
    pending: Seq<int>,
) -> GOutcome
    decreases q.len(), lines.len() - scan_pos,
    when 0 <= out_pos && out_pos <= scan_pos && scan_pos <= lines.len()
    via run_from_decreases
{
    if q.len() == 0 {
        GOutcome {
            segs: seq![
                GSeg {
                    start_line: out_pos,
                    end_line: lines.len() as int,
                    discard: false,
                    suppressed: pend_below(pending, lines.len() as int),
                },
            ],
            err: None,
        }
    } else {
        let e = q[0];
        match e.directive {
            GDirective::AtLine { line } => {
                if line <= scan_pos {
                    GOutcome { segs: Seq::empty(), err: Some(SplitError::PatternOrder { token: e.token }) }
                } else if line - 1 > lines.len() {
                    GOutcome {
                        segs: Seq::empty(),
                        err: Some(SplitError::PatternNotFound { token: e.token }),
                    }
                } else {
                    let t = line - 1;
                    let seg = GSeg {
                        start_line: out_pos,
                        end_line: t,
                        discard: false,
                        suppressed: pend_below(pending, t),
                    };
                    let rest = run_from(lines, q.drop_first(), t, t, pend_at_or_above(pending, t));
                    GOutcome { segs: seq![seg] + rest.segs, err: rest.err }
                }
            },
            GDirective::AtMatch { pattern, offset, suppress, discard } => {
                match first_hit(lines, pattern, scan_pos) {
                    None => {
                        if e.repeat_until_miss {
                            run_from(lines, q.drop_first(), out_pos, scan_pos, pending)
                        } else {
                            GOutcome {
                                segs: Seq::empty(),
                                err: Some(SplitError::PatternNotFound { token: e.token }),
                            }
                        }
                    },
                    Some(m) => {
                        let qq = if e.repeat_until_miss {
                            q
                        } else {
                            q.drop_first()
                        };
                        if discard {
                            let epos = clamp_int(out_pos, m + 1 + offset, lines.len() as int);
                            let seg = GSeg {
                                start_line: out_pos,
                                end_line: epos,
                                discard: true,
                                suppressed: Seq::empty(),
                            };
                            let scan2 = if m + 1 > epos {
                                m + 1
                            } else {
                                epos
                            };
                            let rest = run_from(lines, qq, epos, scan2, pend_at_or_above(pending, epos));
                            GOutcome { segs: seq![seg] + rest.segs, err: rest.err }
                        } else {
                            let b = clamp_int(out_pos, m + offset, lines.len() as int);
                            let seg = GSeg {
                                start_line: out_pos,
                                end_line: b,
                                discard: false,
                                suppressed: pend_below(pending, b) + if suppress && m < b {
                                    seq![m]
                                } else {
                                    Seq::empty()
                                },
                            };
                            let pend2 = pend_at_or_above(pending, b) + if suppress && m >= b {
                                seq![m]
                            } else {
                                Seq::empty()
                            };
                            let scan2 = if m + 1 > b {
                                m + 1
                            } else {
                                b
                            };
                            let rest = run_from(lines, qq, b, scan2, pend2);
                            GOutcome { segs: seq![seg] + rest.segs, err: rest.err }
                        }
                    },
                }
            },
        }
    }
}

#[via_fn]
proof fn run_from_decreases(
    lines: Seq<Seq<u8>>,
    q: Seq<GEntry>,
    out_pos: int,
    scan_pos: int,
    pending: Seq<int>,
) {
    if q.len() > 0 {
        match q[0].directive {
            GDirective::AtMatch { pattern, .. } => {
                lemma_first_hit(lines, pattern, scan_pos);
            },
            _ => {},
        }
    }
}

/// Segments tile the line range that starts at `from`: each begins where
/// the one before it ended, and none runs backwards.
pub open spec fn chained_from(segs: Seq<GSeg>, from: int) -> bool
    decreases segs.len(),
{
    if segs.len() == 0 {
        true
    } else {
        segs[0].start_line == from && from <= segs[0].end_line && chained_from(
            segs.drop_first(),
            segs[0].end_line,
        )
    }
}

/// Where a chained segment run ends: the last segment's end, or `from` when
/// there is none.
pub open spec fn chain_end(segs: Seq<GSeg>, from: int) -> int
    decreases segs.len(),
{
    if segs.len() == 0 {
        from
    } else {
        chain_end(segs.drop_first(), segs[0].end_line)
    }
}

/// Whatever the queue, the engine's segments tile the input lines from the
/// starting boundary on, never run past end-of-input, and on a faultless
/// run reach end-of-input exactly.
pub proof fn lemma_run_chained(
    lines: Seq<Seq<u8>>,
    q: Seq<GEntry>,
    out_pos: int,
    scan_pos: int,
    pending: Seq<int>,
)
    requires
        0 <= out_pos <= scan_pos <= lines.len(),
    ensures
        ({
            let r = run_from(lines, q, out_pos, scan_pos, pending);
            chained_from(r.segs, out_pos) && chain_end(r.segs, out_pos) <= lines.len() && (r.err
                is None ==> r.segs.len() > 0 && chain_end(r.segs, out_pos) == lines.len())
        }),
    decreases q.len(), lines.len() - scan_pos,
{
    let r = run_from(lines, q, out_pos, scan_pos, pending);
    if q.len() == 0 {
        assert(r.segs.drop_first() =~= Seq::<GSeg>::empty());
        assert(chained_from(Seq::<GSeg>::empty(), lines.len() as int));
        assert(chain_end(Seq::<GSeg>::empty(), lines.len() as int) == lines.len() as int);
        assert(chained_from(r.segs, out_pos));
        assert(chain_end(r.segs, out_pos) == lines.len() as int);
    } else {
        let e = q[0];
        match e.directive {
            GDirective::AtLine { line } => {
                if line <= scan_pos || line - 1 > lines.len() {
                    assert(r.segs == Seq::<GSeg>::empty());
                    assert(chained_from(r.segs, out_pos));
                    assert(chain_end(r.segs, out_pos) == out_pos);
                } else {
                    let t = line - 1;
                    let rest = run_from(lines, q.drop_first(), t, t, pend_at_or_above(pending, t));
                    lemma_run_chained(lines, q.drop_first(), t, t, pend_at_or_above(pending, t));
                    assert(r.segs.drop_first() =~= rest.segs);
                    assert(r.segs[0].start_line == out_pos && r.segs[0].end_line == t);
                    assert(chained_from(rest.segs, t));
                    assert(chained_from(r.segs, out_pos));
                    assert(chain_end(r.segs, out_pos) == chain_end(rest.segs, t));
                }
            },
            GDirective::AtMatch { pattern, offset, suppress, discard } => {
                lemma_first_hit(lines, pattern, scan_pos);
                match first_hit(lines, pattern, scan_pos) {
                    None => {
                        if e.repeat_until_miss {
                            lemma_run_chained(lines, q.drop_first(), out_pos, scan_pos, pending);
                            assert(chained_from(r.segs, out_pos));
                        } else {
                            assert(r.segs == Seq::<GSeg>::empty());
                            assert(chained_from(r.segs, out_pos));
                        }
                    },
                    Some(m) => {
                        let qq = if e.repeat_until_miss {
                            q
                        } else {
                            q.drop_first()
                        };
                        if discard {
                            let epos = clamp_int(out_pos, m + 1 + offset, lines.len() as int);
                            let scan2 = if m + 1 > epos {
                                m + 1
                            } else {
                                epos
                            };
                            let rest = run_from(lines, qq, epos, scan2, pend_at_or_above(pending, epos));
                            lemma_run_chained(lines, qq, epos, scan2, pend_at_or_above(pending, epos));
                            assert(r.segs.drop_first() =~= rest.segs);
                            assert(r.segs[0].start_line == out_pos && r.segs[0].end_line == epos);
                            assert(chained_from(rest.segs, epos as int));
                            assert(chained_from(r.segs, out_pos));
                            assert(chain_end(r.segs, out_pos) == chain_end(rest.segs, epos));
                        } else {
                            let b = clamp_int(out_pos, m + offset, lines.len() as int);
                            let pend2 = pend_at_or_above(pending, b) + if suppress && m >= b {
                                seq![m]
                            } else {
                                Seq::empty()
                            };
                            let scan2 = if m + 1 > b {
                                m + 1
                            } else {
                                b
                            };
                            let rest = run_from(lines, qq, b, scan2, pend2);
                            lemma_run_chained(lines, qq, b, scan2, pend2);
                            assert(r.segs.drop_first() =~= rest.segs);
                            assert(r.segs[0].start_line == out_pos && r.segs[0].end_line == b);
                            assert(chained_from(rest.segs, b as int));
                            assert(chained_from(r.segs, out_pos));
                            assert(chain_end(r.segs, out_pos) == chain_end(rest.segs, b));
                        }
                    },
                }
            },
        }
    }
}

/// Index-wise reading of a chained segment run: the first segment starts at
/// `from`, every later one starts where its predecessor ended, and every
/// segment lies between `from` and the run's end.
pub proof fn lemma_chained_indexed(segs: Seq<GSeg>, from: int)
    requires
        chained_from(segs, from),
    ensures
        from <= chain_end(segs, from),
        forall|j: int|
            0 <= j < segs.len() ==> from <= (#[trigger] segs[j]).start_line <= segs[j].end_line
                <= chain_end(segs, from),
        forall|j: int| 0 < j < segs.len() ==> (#[trigger] segs[j]).start_line == segs[j - 1].end_line,
        segs.len() > 0 ==> segs[0].start_line == from,
    decreases segs.len(),
{
    if segs.len() > 0 {
        let tail = segs.drop_first();
        lemma_chained_indexed(tail, segs[0].end_line);
        assert forall|j: int|
            0 <= j < segs.len() implies from <= (#[trigger] segs[j]).start_line
            <= segs[j].end_line <= chain_end(segs, from) by {
            if j > 0 {
                assert(segs[j] == tail[j - 1]);
            }
        }
        assert forall|j: int|
            0 < j < segs.len() implies (#[trigger] segs[j]).start_line == segs[j - 1].end_line by {
            assert(segs[j] == tail[j - 1]);
            if j > 1 {
                assert(segs[j - 1] == tail[j - 2]);
            }
        }
    }
}

/// The first line at or after `from` that the pattern matches, per
/// `first_hit`.
fn find_match(lines: &Vec<Vec<u8>>, cr: &CompiledRegex, from: usize) -> (r: Option<usize>)
    requires
        from <= lines@.len(),
    ensures
        match r {
            Some(m) => first_hit(rows_model(lines@), cr.pattern(), from as int) == Some(m as int)
                && from <= m < lines@.len(),
            None => first_hit(rows_model(lines@), cr.pattern(), from as int) is None,
        },
{
    let ghost lm = rows_model(lines@);
    let mut i: usize = from;
    while i < lines.len()
        invariant
            from <= i <= lines@.len(),
            lm == rows_model(lines@),
            first_hit(lm, cr.pattern(), from as int) == first_hit(lm, cr.pattern(), i as int),
        decreases lines@.len() - i,
    {
        proof {
            assert(lm[i as int] == lines@[i as int]@);
        }
        let line = &lines[i];
        let n = line.len();
        let body = if n > 0 && line[n - 1] == 10 {
            vstd::slice::slice_subrange(line.as_slice(), 0, n - 1)
        } else {
            line.as_slice()
        };
        proof {
            assert(body@ =~= line_body(lm[i as int]));
        }
        if pattern_hits_line(cr, body) {
            return Some(i);
        }
        i = i + 1;
    }
    None
}

/// Parts the pending suppressed lines at `e`: those before it (they belong
/// to the segment being closed) and those at or after it (they stay
/// pending).
fn split_pending(pending: &Vec<usize>, e: usize) -> (r: (Vec<usize>, Vec<usize>))
    ensures
        pend_model(r.0@) == pend_below(pend_model(pending@), e as int),
        pend_model(r.1@) == pend_at_or_above(pend_model(pending@), e as int),
{
    let ghost p = pend_model(pending@);
    let mut lo: Vec<usize> = Vec::new();
    let mut hi: Vec<usize> = Vec::new();
    proof {
        assert(pend_model(lo@) =~= Seq::<int>::empty());
        assert(pend_model(hi@) =~= Seq::<int>::empty());
        assert(p.subrange(0, 0) =~= Seq::<int>::empty());
    }
    let mut i: usize = 0;
    while i < pending.len()
        invariant
            i <= pending@.len(),
            p == pend_model(pending@),
            pend_model(lo@) == pend_below(p.subrange(0, i as int), e as int),
            pend_model(hi@) == pend_at_or_above(p.subrange(0, i as int), e as int),
        decreases pending@.len() - i,
    {
        let x = pending[i];
        proof {
            let pre = p.subrange(0, i as int);
            let ext = p.subrange(0, i + 1 as int);
            assert(ext.drop_last() =~= pre);
            assert(ext.last() == p[i as int]);
            assert(p[i as int] == x as int);
            if x < e {
                assert(pend_model(lo@.push(x)) =~= pend_model(lo@) + seq![x as int]);
                assert(pend_model(hi@) =~= pend_model(hi@) + Seq::<int>::empty());
            } else {
                assert(pend_model(hi@.push(x)) =~= pend_model(hi@) + seq![x as int]);
                assert(pend_model(lo@) =~= pend_model(lo@) + Seq::<int>::empty());
            }
        }
        if x < e {
            lo.push(x);
        } else {
            hi.push(x);
        }
        i = i + 1;
    }
    proof {
        assert(p.subrange(0, pending@.len() as int) =~= p);
    }
    (lo, hi)
}

/// `m + plus + off`, clamped into `[lo, hi]`.
fn offset_target(lo: usize, m: usize, plus: usize, off: i64, hi: usize) -> (r: usize)
    requires
        lo <= hi,
        plus <= 1,
    ensures
        r as int == clamp_int(lo as int, m + plus + off, hi as int),
{
    let target: i128 = m as i128 + plus as i128 + off as i128;
    if target < lo as i128 {
        lo
    } else if target > hi as i128 {
        hi
    } else {
        target as usize
    }
}

/// Runs the queue entries from `qi` on, appending each produced segment,
/// and returns the fault that stopped the run, if one did.  The result is
/// exactly `run_from` applied to the matching state.
#[verifier::rlimit(80)]
fn run_entries(
    lines: &Vec<Vec<u8>>,
    queue: &Vec<QueueEntry>,
    qi: usize,
    out_pos: usize,
    scan_pos: usize,
    pending: Vec<usize>,
    segs: &mut Vec<Segment>,
) -> (err: Option<SplitError>)
    requires
        qi <= queue@.len(),
        out_pos <= scan_pos <= lines@.len(),
    ensures
        ({
            let r = run_from(
                rows_model(lines@),
                entries_model(queue@).subrange(qi as int, queue@.len() as int),
                out_pos as int,
                scan_pos as int,
                pend_model(pending@),
            );
            segs_model(final(segs)@) == segs_model(old(segs)@) + r.segs && err == r.err
        }),
    decreases queue@.len() - qi, lines@.len() - scan_pos,
{
    let ghost lm = rows_model(lines@);
    let ghost q = entries_model(queue@).subrange(qi as int, queue@.len() as int);
    if qi == queue.len() {
        let (sup, _rest) = split_pending(&pending, lines.len());
        let seg = Segment {
            start_line: out_pos,
            end_line: lines.len(),
            discard: false,
            suppressed: sup,
        };
        proof {
            assert(q.len() == 0);
            assert(segs_model(segs@.push(seg)) =~= segs_model(segs@) + seq![seg.model()]);
        }
        segs.push(seg);
        return None;
    }
    proof {
        assert(q[0] == queue@[qi as int].model());
        assert(q.drop_first() =~= entries_model(queue@).subrange(
            qi + 1 as int,
            queue@.len() as int,
        ));
    }
    let entry = &queue[qi];
    let token = entry.token;
    match &entry.directive {
        crate::directive::Directive::AtLine { line } => {
            let line = *line;
            if line <= scan_pos as u64 {
                return Some(SplitError::PatternOrder { token });
            }
            if line - 1 > lines.len() as u64 {
                return Some(SplitError::PatternNotFound { token });
            }
            let t = (line - 1) as usize;
            let (sup, rest) = split_pending(&pending, t);
            let seg = Segment { start_line: out_pos, end_line: t, discard: false, suppressed: sup };
            proof {
                assert(segs_model(segs@.push(seg)) =~= segs_model(segs@) + seq![seg.model()]);
            }
            segs.push(seg);
            let ghost segs_before = segs@;
            let r = run_entries(lines, queue, qi + 1, t, t, rest, segs);
            proof {
                let gr = run_from(lm, q, out_pos as int, scan_pos as int, pend_model(pending@));
                let grest = run_from(lm, q.drop_first(), t as int, t as int,
                    pend_at_or_above(pend_model(pending@), t as int));
                assert(segs_model(segs@) =~= segs_model(old(segs)@) + (seq![seg.model()]
                    + grest.segs));
            }
            r
        },
        crate::directive::Directive::AtMatch { pattern, offset, suppress, discard } => {
            let offset = *offset;
            let suppress = *suppress;
            let discard = *discard;
            match find_match(lines, pattern, scan_pos) {
                None => {
                    if entry.repeat_until_miss {
                        run_entries(lines, queue, qi + 1, out_pos, scan_pos, pending, segs)
                    } else {
                        Some(SplitError::PatternNotFound { token })
                    }
                },
                Some(m) => {
                    proof {
                        lemma_first_hit(lm, pattern.pattern(), scan_pos as int);
                    }
                    let nqi = if entry.repeat_until_miss {
                        qi
                    } else {
                        qi + 1
                    };
                    proof {
                        if entry.repeat_until_miss {
                            assert(entries_model(queue@).subrange(nqi as int, queue@.len() as int)
                                =~= q);
                        }
                    }
                    if discard {
                        let epos = offset_target(out_pos, m, 1, offset, lines.len());
                        let (_sup, rest) = split_pending(&pending, epos);
                        let seg = Segment {
                            start_line: out_pos,
                            end_line: epos,
                            discard: true,
                            suppressed: Vec::new(),
                        };
                        let scan2 = if m + 1 > epos {
                            m + 1
                        } else {
                            epos
                        };
                        proof {
                            assert(seg.model().suppressed =~= Seq::<int>::empty());
                            assert(segs_model(segs@.push(seg)) =~= segs_model(segs@) + seq![
                                seg.model(),
                            ]);
                        }
                        segs.push(seg);
                        let r = run_entries(lines, queue, nqi, epos, scan2, rest, segs);
                        proof {
                            let qq = entries_model(queue@).subrange(nqi as int, queue@.len() as int);
                            let grest = run_from(lm, qq, epos as int, scan2 as int,
                                pend_at_or_above(pend_model(pending@), epos as int));
                            assert(segs_model(segs@) =~= segs_model(old(segs)@) + (seq![seg.model()]
                                + grest.segs));
                        }
                        r
                    } else {
                        let b = offset_target(out_pos, m, 0, offset, lines.len());
                        let (mut sup, mut rest) = split_pending(&pending, b);
                        if suppress {
                            if m < b {
                                proof {
                                    assert(pend_model(sup@.push(m)) =~= pend_model(sup@) + seq![
                                        m as int,
                                    ]);
                                }
                                sup.push(m);
                            } else {
                                proof {
                                    assert(pend_model(rest@.push(m)) =~= pend_model(rest@) + seq![
                                        m as int,
                                    ]);
                                }
                                rest.push(m);
                            }
                        }
                        proof {
                            if !(suppress && m < b) {
                                assert(pend_model(sup@) =~= pend_below(
                                    pend_model(pending@),
                                    b as int,
                                ) + Seq::<int>::empty());
                            }
                            if !(suppress && m >= b) {
                                assert(pend_model(rest@) =~= pend_at_or_above(
                                    pend_model(pending@),
                                    b as int,
                                ) + Seq::<int>::empty());
                            }
                        }
                        let seg = Segment {
                            start_line: out_pos,
                            end_line: b,
                            discard: false,
                            suppressed: sup,
                        };
                        let scan2 = if m + 1 > b {
                            m + 1
                        } else {
                            b
                        };
                        proof {
                            assert(segs_model(segs@.push(seg)) =~= segs_model(segs@) + seq![
                                seg.model(),
                            ]);
                        }
                        segs.push(seg);
                        let r = run_entries(lines, queue, nqi, b, scan2, rest, segs);
                        proof {
                            let qq = entries_model(queue@).subrange(nqi as int, queue@.len() as int);
                            let grest = run_from(lm, qq, b as int, scan2 as int,
                                pend_model(rest@));
                            assert(segs_model(segs@) =~= segs_model(old(segs)@) + (seq![seg.model()]
                                + grest.segs));
                        }
                        r
                    }
                },
            }
        },
    }
}

/// Runs a directive queue over the input lines, yielding the segments in
/// input order and the fault that stopped the run, if one did; the pair is
/// exactly what `run_from` yields from the initial state.
pub fn split_segments(lines: &Vec<Vec<u8>>, queue: &Vec<QueueEntry>) -> (r: (
    Vec<Segment>,
    Option<SplitError>,
))
    ensures
        ({
            let g = run_from(rows_model(lines@), entries_model(queue@), 0, 0, Seq::empty());
            segs_model(r.0@) == g.segs && r.1 == g.err
        }),
{
    let mut segs: Vec<Segment> = Vec::new();
    let pending: Vec<usize> = Vec::new();
    proof {
        assert(entries_model(queue@).subrange(0, queue@.len() as int) =~= entries_model(queue@));
        assert(pend_model(pending@) =~= Seq::<int>::empty());
        assert(segs_model(segs@) =~= Seq::<GSeg>::empty());
    }
    let err = run_entries(lines, queue, 0, 0, 0, pending, &mut segs);
    proof {
        assert(segs_model(segs@) =~= Seq::<GSeg>::empty() + segs_model(segs@));
    }
    (segs, err)
}

} // verus!
