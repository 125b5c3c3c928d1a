use vstd::prelude::*;
use crate::account::account_upto;
use crate::account::content_between;
use crate::account::seg_content;
use crate::directive::GDirective;
use crate::directive::GEntry;
use crate::engine::chain_end;
use crate::engine::clamp_int;
use crate::engine::first_hit;
use crate::engine::lemma_chained_indexed;
use crate::engine::lemma_first_hit;
use crate::engine::lemma_run_chained;
use crate::engine::pend_below;
use crate::engine::run_from;
use crate::engine::GSeg;
use crate::rx::regex_hits;

verus! {

/// The byte offset where line `k` begins: the lengths of all lines before
/// it, summed.
pub open spec fn byte_offset(lines: Seq<Seq<u8>>, k: int) -> int
    decreases k,
{
    if k <= 0 {
        0
    } else {
        byte_offset(lines, k - 1) + lines[k - 1].len()
    }
}

pub proof fn lemma_byte_offset_mono(lines: Seq<Seq<u8>>, a: int, b: int)
    requires
        a <= b,
    ensures
        byte_offset(lines, a) <= byte_offset(lines, b),
    decreases b - a,
{
    if a < b {
        lemma_byte_offset_mono(lines, a, b - 1);
    }
}

proof fn lemma_chain_end_last(segs: Seq<GSeg>, from: int)
    ensures
        chain_end(segs, from) == if segs.len() == 0 {
            from
        } else {
            segs.last().end_line
        },
    decreases segs.len(),
{
    if segs.len() > 0 {
        lemma_chain_end_last(segs.drop_first(), segs[0].end_line);
        if segs.len() > 1 {
            assert(segs.drop_first().last() == segs.last());
        }
    }
}

/// Law: whatever the directive queue, the segments' byte ranges tile the
/// input exactly — the first range starts at byte 0, each later range
/// starts where the one before it ended (no gap, no overlap), every range
/// runs forward, and on a faultless run the last range ends at the input's
/// total byte count.  Discarded and suppressed bytes lie inside the ranges,
/// so the union covers the whole input.
pub proof fn lemma_ranges_cover_input(lines: Seq<Seq<u8>>, q: Seq<GEntry>)
    ensures
        ({
            let r = run_from(lines, q, 0, 0, Seq::empty());
            &&& forall|j: int|
                0 <= j < r.segs.len() ==> byte_offset(lines, (#[trigger] r.segs[j]).start_line)
                    <= byte_offset(lines, r.segs[j].end_line)
            &&& forall|j: int|
                0 < j < r.segs.len() ==> byte_offset(lines, (#[trigger] r.segs[j]).start_line)
                    == byte_offset(lines, r.segs[j - 1].end_line)
            &&& r.segs.len() > 0 ==> r.segs[0].start_line == 0 && byte_offset(
                lines,
                r.segs[0].start_line,
            ) == 0
            &&& r.err is None ==> r.segs.len() > 0 && byte_offset(lines, r.segs.last().end_line)
                == byte_offset(lines, lines.len() as int)
        }),
{
    let r = run_from(lines, q, 0, 0, Seq::empty());
    lemma_run_chained(lines, q, 0, 0, Seq::empty());
    lemma_chained_indexed(r.segs, 0);
    lemma_chain_end_last(r.segs, 0);
    assert forall|j: int|
        0 <= j < r.segs.len() implies byte_offset(lines, (#[trigger] r.segs[j]).start_line)
        <= byte_offset(lines, r.segs[j].end_line) by {
        lemma_byte_offset_mono(lines, r.segs[j].start_line, r.segs[j].end_line);
    }
}

/// Law: a line-number directive at the head of the queue makes the first
/// piece hold exactly the lines before line `n` (one-based): zero-based
/// lines `[0, n-1)`, none of them suppressed, none discarded.
pub proof fn lemma_at_line_first_piece(lines: Seq<Seq<u8>>, q: Seq<GEntry>, n: u64)
    requires
        q.len() > 0,
        q[0].directive == (GDirective::AtLine { line: n }),
        1 <= n,
        n - 1 <= lines.len(),
    ensures
        ({
            let r = run_from(lines, q, 0, 0, Seq::empty());
            r.segs.len() > 0 && r.segs[0] == (GSeg {
                start_line: 0,
                end_line: n - 1,
                discard: false,
                suppressed: Seq::<int>::empty(),
            })
        }),
{
    assert(pend_below(Seq::<int>::empty(), n - 1) =~= Seq::<int>::empty());
}

/// How many lines at or after `from` the pattern matches.
pub open spec fn hit_count(lines: Seq<Seq<u8>>, pat: Seq<u8>, from: int) -> int
    decreases lines.len() - from,
{
    if from < 0 || from >= lines.len() {
        0
    } else {
        (if regex_hits(pat, crate::engine::line_body(lines[from])) {
            1int
        } else {
            0int
        }) + hit_count(lines, pat, from + 1)
    }
}

proof fn lemma_hit_count_first(lines: Seq<Seq<u8>>, pat: Seq<u8>, from: int)
    requires
        0 <= from,
    ensures
        match first_hit(lines, pat, from) {
            Some(m) => hit_count(lines, pat, from) == 1 + hit_count(lines, pat, m + 1),
            None => hit_count(lines, pat, from) == 0,
        },
    decreases lines.len() - from,
{
    if from < lines.len() && !regex_hits(pat, crate::engine::line_body(lines[from])) {
        lemma_hit_count_first(lines, pat, from + 1);
    }
}

/// Law: an unbounded repetition over a match directive (offset zero, not
/// discarding) never faults, and places exactly one boundary per matching
/// occurrence: one piece per occurrence plus the final implicit piece, even
/// when there is no occurrence at all.
pub proof fn lemma_unbounded_matches_count(
    lines: Seq<Seq<u8>>,
    e: GEntry,
    pattern: Seq<u8>,
    suppress: bool,
    out_pos: int,
    scan_pos: int,
    pending: Seq<int>,
)
    requires
        0 <= out_pos <= scan_pos <= lines.len(),
        e.repeat_until_miss,
        e.directive == (GDirective::AtMatch {
            pattern,
            offset: 0i64,
            suppress,
            discard: false,
        }),
    ensures
        ({
            let r = run_from(lines, seq![e], out_pos, scan_pos, pending);
            r.err is None && r.segs.len() == 1 + hit_count(lines, pattern, scan_pos)
        }),
    decreases lines.len() - scan_pos,
{
    let q = seq![e];
    lemma_first_hit(lines, pattern, scan_pos);
    lemma_hit_count_first(lines, pattern, scan_pos);
    let r = run_from(lines, q, out_pos, scan_pos, pending);
    match first_hit(lines, pattern, scan_pos) {
        None => {
            assert(q.drop_first() =~= Seq::<GEntry>::empty());
            let fin = run_from(lines, Seq::<GEntry>::empty(), out_pos, scan_pos, pending);
            assert(fin.segs.len() == 1 && fin.err is None);
            assert(r == fin);
        },
        Some(m) => {
            let b = clamp_int(out_pos, m + 0, lines.len() as int);
            assert(b == m);
            let pend2 = crate::engine::pend_at_or_above(pending, b) + if suppress && m >= b {
                seq![m]
            } else {
                Seq::empty()
            };
            lemma_unbounded_matches_count(lines, e, pattern, suppress, b, m + 1, pend2);
            let rest = run_from(lines, q, b, m + 1, pend2);
            assert(r.segs.len() == 1 + rest.segs.len());
            assert(r.err == rest.err);
        },
    }
}

proof fn lemma_contains_concat(a: Seq<int>, b: Seq<int>, p: int)
    ensures
        (a + b).contains(p) == (a.contains(p) || b.contains(p)),
{
    if a.contains(p) {
        let i = choose|i: int| 0 <= i < a.len() && a[i] == p;
        assert((a + b)[i] == p);
    }
    if b.contains(p) {
        let i = choose|i: int| 0 <= i < b.len() && b[i] == p;
        assert((a + b)[a.len() + i] == p);
    }
    if (a + b).contains(p) {
        let i = choose|i: int| 0 <= i < (a + b).len() && (a + b)[i] == p;
        if i < a.len() {
            assert(a[i] == p);
        } else {
            assert(b[i - a.len()] == p);
        }
    }
}

proof fn lemma_pend_split_contains(pnd: Seq<int>, e: int, p: int)
    ensures
        crate::engine::pend_below(pnd, e).contains(p) == (pnd.contains(p) && p < e),
        crate::engine::pend_at_or_above(pnd, e).contains(p) == (pnd.contains(p) && p >= e),
    decreases pnd.len(),
{
    if pnd.len() == 0 {
    } else {
        let d = pnd.drop_last();
        lemma_pend_split_contains(d, e, p);
        lemma_contains_concat(
            crate::engine::pend_below(d, e),
            if pnd.last() < e {
                seq![pnd.last()]
            } else {
                Seq::empty()
            },
            p,
        );
        lemma_contains_concat(
            crate::engine::pend_at_or_above(d, e),
            if pnd.last() >= e {
                seq![pnd.last()]
            } else {
                Seq::empty()
            },
            p,
        );
        assert(pnd =~= d + seq![pnd.last()]);
        lemma_contains_concat(d, seq![pnd.last()], p);
    }
}

/// Law (suppression lands): any line awaiting suppression ends up, on a
/// faultless run, inside exactly the segment that contains it — either in
/// that segment's suppressed set, or in a segment discarded whole — so its
/// bytes never reach the output.
pub proof fn lemma_pending_lands(
    lines: Seq<Seq<u8>>,
    q: Seq<GEntry>,
    out_pos: int,
    scan_pos: int,
    pending: Seq<int>,
    p: int,
)
    requires
        0 <= out_pos <= scan_pos <= lines.len(),
        pending.contains(p),
        out_pos <= p < lines.len(),
        run_from(lines, q, out_pos, scan_pos, pending).err is None,
    ensures
        ({
            let r = run_from(lines, q, out_pos, scan_pos, pending);
            exists|j: int|
                0 <= j < r.segs.len() && (#[trigger] r.segs[j]).start_line <= p
                    < r.segs[j].end_line && (r.segs[j].discard || r.segs[j].suppressed.contains(p))
        }),
    decreases q.len(), lines.len() - scan_pos,
{
    let r = run_from(lines, q, out_pos, scan_pos, pending);
    if q.len() == 0 {
        lemma_pend_split_contains(pending, lines.len() as int, p);
        assert(r.segs[0].start_line <= p < r.segs[0].end_line && r.segs[0].suppressed.contains(p));
    } else {
        let e = q[0];
        match e.directive {
            GDirective::AtLine { line } => {
                let t = line - 1;
                lemma_pend_split_contains(pending, t, p);
                if p < t {
                    assert(r.segs[0].start_line <= p < r.segs[0].end_line
                        && r.segs[0].suppressed.contains(p));
                } else {
                    let pend2 = crate::engine::pend_at_or_above(pending, t);
                    let rest = run_from(lines, q.drop_first(), t, t, pend2);
                    lemma_pending_lands(lines, q.drop_first(), t, t, pend2, p);
                    let j = choose|j: int|
                        0 <= j < rest.segs.len() && (#[trigger] rest.segs[j]).start_line <= p
                            < rest.segs[j].end_line && (rest.segs[j].discard
                            || rest.segs[j].suppressed.contains(p));
                    assert(r.segs[j + 1] == rest.segs[j]);
                }
            },
            GDirective::AtMatch { pattern, offset, suppress, discard } => {
                lemma_first_hit(lines, pattern, scan_pos);
                match first_hit(lines, pattern, scan_pos) {
                    None => {
                        lemma_pending_lands(lines, q.drop_first(), out_pos, scan_pos, pending, p);
                    },
                    Some(m) => {
                        let qq = if e.repeat_until_miss {
                            q
                        } else {
                            q.drop_first()
                        };
                        if discard {
                            let epos = clamp_int(out_pos, m + 1 + offset, lines.len() as int);
                            let scan2 = if m + 1 > epos {
                                m + 1
                            } else {
                                epos
                            };
                            let pend2 = crate::engine::pend_at_or_above(pending, epos);
                            lemma_pend_split_contains(pending, epos, p);
                            if p < epos {
                                assert(r.segs[0].start_line <= p < r.segs[0].end_line
                                    && r.segs[0].discard);
                            } else {
                                let rest = run_from(lines, qq, epos, scan2, pend2);
                                lemma_pending_lands(lines, qq, epos, scan2, pend2, p);
                                let j = choose|j: int|
                                    0 <= j < rest.segs.len() && (#[trigger] rest.segs[j]).start_line
                                        <= p < rest.segs[j].end_line && (rest.segs[j].discard
                                        || rest.segs[j].suppressed.contains(p));
                                assert(r.segs[j + 1] == rest.segs[j]);
                            }
                        } else {
                            let b = clamp_int(out_pos, m + offset, lines.len() as int);
                            let scan2 = if m + 1 > b {
                                m + 1
                            } else {
                                b
                            };
                            let sup_extra = if suppress && m < b {
                                seq![m]
                            } else {
                                Seq::<int>::empty()
                            };
                            let pend_extra = if suppress && m >= b {
                                seq![m]
                            } else {
                                Seq::<int>::empty()
                            };
                            let pend2 = crate::engine::pend_at_or_above(pending, b) + pend_extra;
                            lemma_pend_split_contains(pending, b, p);
                            lemma_contains_concat(crate::engine::pend_below(pending, b), sup_extra, p);
                            lemma_contains_concat(crate::engine::pend_at_or_above(pending, b), pend_extra, p);
                            if p < b {
                                assert(r.segs[0].start_line <= p < r.segs[0].end_line
                                    && r.segs[0].suppressed.contains(p));
                            } else {
                                let rest = run_from(lines, qq, b, scan2, pend2);
                                lemma_pending_lands(lines, qq, b, scan2, pend2, p);
                                let j = choose|j: int|
                                    0 <= j < rest.segs.len() && (#[trigger] rest.segs[j]).start_line
                                        <= p < rest.segs[j].end_line && (rest.segs[j].discard
                                        || rest.segs[j].suppressed.contains(p));
                                assert(r.segs[j + 1] == rest.segs[j]);
                            }
                        }
                    },
                }
            },
        }
    }
}

/// Law (the matched line is suppressed): when the queue's head is a
/// suppressing, non-discarding match directive that fires on line `m`, a
/// faultless run puts `m` in the suppressed set of the segment containing
/// it (or inside a wholly discarded segment), so the matched line's bytes
/// appear in neither the preceding nor the following piece.
pub proof fn lemma_suppressed_match_lands(
    lines: Seq<Seq<u8>>,
    q: Seq<GEntry>,
    out_pos: int,
    scan_pos: int,
    pending: Seq<int>,
    pattern: Seq<u8>,
    offset: i64,
    m: int,
)
    requires
        0 <= out_pos <= scan_pos <= lines.len(),
        q.len() > 0,
        q[0].directive == (GDirective::AtMatch { pattern, offset, suppress: true, discard: false }),
        first_hit(lines, pattern, scan_pos) == Some(m),
        run_from(lines, q, out_pos, scan_pos, pending).err is None,
    ensures
        ({
            let r = run_from(lines, q, out_pos, scan_pos, pending);
            exists|j: int|
                0 <= j < r.segs.len() && (#[trigger] r.segs[j]).start_line <= m
                    < r.segs[j].end_line && (r.segs[j].discard || r.segs[j].suppressed.contains(m))
        }),
{
    let r = run_from(lines, q, out_pos, scan_pos, pending);
    let e = q[0];
    lemma_first_hit(lines, pattern, scan_pos);
    let b = clamp_int(out_pos, m + offset, lines.len() as int);
    let scan2 = if m + 1 > b {
        m + 1
    } else {
        b
    };
    let qq = if e.repeat_until_miss {
        q
    } else {
        q.drop_first()
    };
    if m < b {
        let sup_here = crate::engine::pend_below(pending, b) + seq![m];
        lemma_contains_concat(crate::engine::pend_below(pending, b), seq![m], m);
        assert(r.segs[0].start_line <= m < r.segs[0].end_line && r.segs[0].suppressed.contains(m));
    } else {
        let pend2 = crate::engine::pend_at_or_above(pending, b) + seq![m];
        lemma_contains_concat(crate::engine::pend_at_or_above(pending, b), seq![m], m);
        let rest = run_from(lines, qq, b, scan2, pend2);
        lemma_pending_lands(lines, qq, b, scan2, pend2, m);
        let j = choose|j: int|
            0 <= j < rest.segs.len() && (#[trigger] rest.segs[j]).start_line <= m
                < rest.segs[j].end_line && (rest.segs[j].discard
                || rest.segs[j].suppressed.contains(m));
        assert(r.segs[j + 1] == rest.segs[j]);
    }
}

/// Law: a suppressed line contributes no bytes to its piece: the content of
/// the whole range is the content before the line followed by the content
/// after it, the line's own bytes in neither part.
pub proof fn lemma_suppressed_line_omitted(
    lines: Seq<Seq<u8>>,
    sup: Seq<int>,
    lo: int,
    i: int,
    hi: int,
)
    requires
        sup.contains(i),
        lo <= i < hi,
    ensures
        content_between(lines, sup, lo, hi) == content_between(lines, sup, lo, i)
            + content_between(lines, sup, i + 1, hi),
    decreases hi - i,
{
    if hi - 1 == i {
        assert(content_between(lines, sup, lo, hi) =~= content_between(lines, sup, lo, i)
            + content_between(lines, sup, i + 1, hi));
    } else {
        lemma_suppressed_line_omitted(lines, sup, lo, i, hi - 1);
        assert(content_between(lines, sup, lo, hi) =~= content_between(lines, sup, lo, i)
            + content_between(lines, sup, i + 1, hi));
    }
}

/// Law: the same, read on a segment: its content splits around any
/// suppressed line, which is omitted from the output bytes.
pub proof fn lemma_seg_omits_suppressed(lines: Seq<Seq<u8>>, s: GSeg, i: int)
    requires
        s.suppressed.contains(i),
        s.start_line <= i < s.end_line,
    ensures
        seg_content(lines, s) == content_between(lines, s.suppressed, s.start_line, i)
            + content_between(lines, s.suppressed, i + 1, s.end_line),
{
    lemma_suppressed_line_omitted(lines, s.suppressed, s.start_line, i, s.end_line);
}

/// Law: with elision active, no empty piece reaches the writer or the
/// reporting sink: every write carries at least one byte and every report
/// line counts at least one.
pub proof fn lemma_elision_omits_empty(
    lines: Seq<Seq<u8>>,
    segs: Seq<GSeg>,
    i: int,
    quiet: bool,
)
    ensures
        ({
            let a = account_upto(lines, segs, i, true, quiet);
            (forall|j: int| 0 <= j < a.writes.len() ==> (#[trigger] a.writes[j]).bytes.len() > 0)
                && (forall|j: int| 0 <= j < a.reports.len() ==> (#[trigger] a.reports[j]).count
                > 0)
        }),
    decreases i,
{
    if i > 0 {
        lemma_elision_omits_empty(lines, segs, i - 1, quiet);
        let prev = account_upto(lines, segs, i - 1, true, quiet);
        let a = account_upto(lines, segs, i, true, quiet);
        assert forall|j: int| 0 <= j < a.writes.len() implies (#[trigger] a.writes[j]).bytes.len()
            > 0 by {
            if j < prev.writes.len() {
                assert(a.writes[j] == prev.writes[j]);
            }
        }
        assert forall|j: int| 0 <= j < a.reports.len() implies (#[trigger] a.reports[j]).count
            > 0 by {
            if j < prev.reports.len() {
                assert(a.reports[j] == prev.reports[j]);
            }
        }
    }
}

/// Law: the quiet policy silences the report and nothing else: the writes
/// are those of a non-quiet run, and the report is empty.
pub proof fn lemma_quiet_only_silences(lines: Seq<Seq<u8>>, segs: Seq<GSeg>, i: int, elide: bool)
    ensures
        account_upto(lines, segs, i, elide, true).writes == account_upto(
            lines,
            segs,
            i,
            elide,
            false,
        ).writes,
        account_upto(lines, segs, i, elide, true).reports == Seq::<
            crate::account::GReport,
        >::empty(),
    decreases i,
{
    if i > 0 {
        lemma_quiet_only_silences(lines, segs, i - 1, elide);
    }
}

/// Law: without the quiet policy the report mirrors the writes line for
/// line: same length, same piece numbers, and each count is the piece's
/// byte length.
pub proof fn lemma_reports_match_writes(lines: Seq<Seq<u8>>, segs: Seq<GSeg>, i: int, elide: bool)
    ensures
        ({
            let a = account_upto(lines, segs, i, elide, false);
            a.reports.len() == a.writes.len() && forall|j: int|
                0 <= j < a.writes.len() ==> a.reports[j].index == (#[trigger] a.writes[j]).index
                    && a.reports[j].count == a.writes[j].bytes.len()
        }),
    decreases i,
{
    if i > 0 {
        lemma_reports_match_writes(lines, segs, i - 1, elide);
    }
}

} // verus!
