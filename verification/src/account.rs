use vstd::prelude::*;
use crate::directive::rows_model;
use crate::engine::pend_model;
use crate::engine::segs_model;
use crate::engine::GSeg;
use crate::engine::Segment;

verus! {

/// The bytes of lines `[lo, hi)`, with the lines listed in `sup` omitted.
pub open spec fn content_between(lines: Seq<Seq<u8>>, sup: Seq<int>, lo: int, hi: int) -> Seq<u8>
    decreases hi - lo,
{
    if hi <= lo {
        Seq::empty()
    } else {
        content_between(lines, sup, lo, hi - 1) + if sup.contains(hi - 1) {
            Seq::empty()
        } else {
            lines[hi - 1]
        }
    }
}

/// The bytes a segment contributes to its output piece.
pub open spec fn seg_content(lines: Seq<Seq<u8>>, s: GSeg) -> Seq<u8> {
    content_between(lines, s.suppressed, s.start_line, s.end_line)
}

/// The piece number the `i`-th segment would get: every non-discarded
/// segment consumes one number, in input order.  An elided piece keeps its
/// number consumed, so elision leaves gaps rather than renumbering densely.
pub open spec fn piece_index(segs: Seq<GSeg>, i: int) -> int
    decreases i,
{
    if i <= 0 {
        0
    } else {
        piece_index(segs, i - 1) + if segs[i - 1].discard {
            0int
        } else {
            1int
        }
    }
}

/// One output piece as handed to the writer.
pub struct Piece {
    pub index: usize,
    pub bytes: Vec<u8>,
}

/// The mathematical shadow of a `Piece`.
pub ghost struct GPiece {
    pub index: int,
    pub bytes: Seq<u8>,
}

impl Piece {
    pub open spec fn model(self) -> GPiece {
        GPiece { index: self.index as int, bytes: self.bytes@ }
    }
}

/// One line of the byte-count report.
pub struct Report {
    pub index: usize,
    pub count: usize,
}

/// The mathematical shadow of a `Report`.
pub ghost struct GReport {
    pub index: int,
    pub count: int,
}

impl Report {
    pub open spec fn model(self) -> GReport {
        GReport { index: self.index as int, count: self.count as int }
    }
}

pub open spec fn pieces_model(v: Seq<Piece>) -> Seq<GPiece> {
    v.map_values(|p: Piece| p.model())
}

pub open spec fn reports_model(v: Seq<Report>) -> Seq<GReport> {
    v.map_values(|p: Report| p.model())
}

/// What the accountant owes the writer and the reporting sink.
pub ghost struct GAccount {
    pub writes: Seq<GPiece>,
    pub reports: Seq<GReport>,
}

/// The accounting of the first `i` segments.  Discarded segments are never
/// written nor reported; with `elide` set, a piece whose content is empty
/// is likewise absent from both, though its number stays consumed; with
/// `quiet` set nothing is reported, while the writes are untouched.
pub open spec fn account_upto(
    lines: Seq<Seq<u8>>,
    segs: Seq<GSeg>,
    i: int,
    elide: bool,
    quiet: bool,
) -> GAccount
    decreases i,
{
    if i <= 0 {
        GAccount { writes: Seq::empty(), reports: Seq::empty() }
    } else {
        let prev = account_upto(lines, segs, i - 1, elide, quiet);
        let s = segs[i - 1];
        if s.discard {
            prev
        } else {
            let c = seg_content(lines, s);
            if elide && c.len() == 0 {
                prev
            } else {
                GAccount {
                    writes: prev.writes.push(
                        GPiece { index: piece_index(segs, i - 1), bytes: c },
                    ),
                    reports: if quiet {
                        prev.reports
                    } else {
                        prev.reports.push(
                            GReport { index: piece_index(segs, i - 1), count: c.len() as int },
                        )
                    },
                }
            }
        }
    }
}

/// The accounting of a whole segment run.
pub open spec fn account_model(
    lines: Seq<Seq<u8>>,
    segs: Seq<GSeg>,
    elide: bool,
    quiet: bool,
) -> GAccount {
    account_upto(lines, segs, segs.len() as int, elide, quiet)
}

/// Whether `x` stands among the suppressed line indices.
fn contains_line(v: &Vec<usize>, x: usize) -> (b: bool)
    ensures
        b == pend_model(v@).contains(x as int),
{
    let mut i: usize = 0;
    while i < v.len()
        invariant
            i <= v@.len(),
            forall|j: int| 0 <= j < i ==> pend_model(v@)[j] != x as int,
        decreases v@.len() - i,
    {
        if v[i] == x {
            assert(pend_model(v@)[i as int] == x as int);
            return true;
        }
        i = i + 1;
    }
    proof {
        if pend_model(v@).contains(x as int) {
            let j = choose|j: int| 0 <= j < pend_model(v@).len() && pend_model(v@)[j] == x as int;
            assert(pend_model(v@)[j] != x as int);
        }
    }
    false
}

/// The bytes of one segment's piece: its lines in order, minus the
/// suppressed ones.
pub fn piece_content(lines: &Vec<Vec<u8>>, seg: &Segment) -> (out: Vec<u8>)
    requires
        seg.start_line <= seg.end_line <= lines@.len(),
    ensures
        out@ == seg_content(rows_model(lines@), seg.model()),
{
    let ghost lm = rows_model(lines@);
    let mut out: Vec<u8> = Vec::new();
    proof {
        assert(out@ =~= Seq::<u8>::empty());
    }
    let mut i: usize = seg.start_line;
    while i < seg.end_line
        invariant
            seg.start_line <= i <= seg.end_line <= lines@.len(),
            lm == rows_model(lines@),
            out@ == content_between(lm, seg.model().suppressed, seg.start_line as int, i as int),
        decreases seg.end_line - i,
    {
        let ghost before = out@;
        if !contains_line(&seg.suppressed, i) {
            let line = &lines[i];
            proof {
                assert(lm[i as int] == lines@[i as int]@);
            }
            let mut k: usize = 0;
            while k < line.len()
                invariant
                    k <= line@.len(),
                    out@ == before + line@.subrange(0, k as int),
                decreases line@.len() - k,
            {
                proof {
                    assert((before + line@.subrange(0, k + 1 as int)) =~= (before + line@.subrange(
                        0,
                        k as int,
                    )).push(line@[k as int]));
                }
                out.push(line[k]);
                k = k + 1;
            }
            proof {
                assert(line@.subrange(0, line@.len() as int) =~= line@);
            }
        } else {
            proof {
                assert(out@ =~= before + Seq::<u8>::empty());
            }
        }
        i = i + 1;
    }
    out
}

/// Turns a segment run into writer pieces and report lines, per
/// `account_model`.
pub fn account_segments(lines: &Vec<Vec<u8>>, segs: &Vec<Segment>, elide: bool, quiet: bool) -> (r:
    (Vec<Piece>, Vec<Report>))
    requires
        forall|j: int|
            0 <= j < segs@.len() ==> (#[trigger] segs@[j]).start_line <= segs@[j].end_line <= lines@.len(),
    ensures
        ({
            let a = account_model(rows_model(lines@), segs_model(segs@), elide, quiet);
            pieces_model(r.0@) == a.writes && reports_model(r.1@) == a.reports
        }),
{
    let ghost lm = rows_model(lines@);
    let ghost gs = segs_model(segs@);
    let mut writes: Vec<Piece> = Vec::new();
    let mut reports: Vec<Report> = Vec::new();
    proof {
        assert(pieces_model(writes@) =~= Seq::<GPiece>::empty());
        assert(reports_model(reports@) =~= Seq::<GReport>::empty());
    }
    let mut idx: usize = 0;
    let mut i: usize = 0;
    while i < segs.len()
        invariant
            i <= segs@.len(),
            idx <= i,
            lm == rows_model(lines@),
            gs == segs_model(segs@),
            forall|j: int|
                0 <= j < segs@.len() ==> (#[trigger] segs@[j]).start_line <= segs@[j].end_line
                    <= lines@.len(),
            idx as int == piece_index(gs, i as int),
            account_upto(lm, gs, i as int, elide, quiet) == (GAccount {
                writes: pieces_model(writes@),
                reports: reports_model(reports@),
            }),
        decreases segs@.len() - i,
    {
        let seg = &segs[i];
        proof {
            assert(gs[i as int] == segs@[i as int].model());
        }
        if seg.discard {
            i = i + 1;
            continue;
        }
        let bytes = piece_content(lines, seg);
        if elide && bytes.len() == 0 {
            idx = idx + 1;
            i = i + 1;
            continue;
        }
        let count = bytes.len();
        proof {
            let c = seg_content(lm, gs[i as int]);
            assert(pieces_model(writes@.push(Piece { index: idx, bytes })) =~= pieces_model(
                writes@,
            ).push(GPiece { index: idx as int, bytes: c }));
            if !quiet {
                assert(reports_model(reports@.push(Report { index: idx, count })) =~=
                    reports_model(reports@).push(GReport { index: idx as int, count: count as int }));
            }
        }
        writes.push(Piece { index: idx, bytes });
        if !quiet {
            reports.push(Report { index: idx, count });
        }
        idx = idx + 1;
        i = i + 1;
    }
    (writes, reports)
}

} // verus!
