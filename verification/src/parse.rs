use vstd::prelude::*;
use vstd::slice::slice_subrange;
use crate::directive::pairs_model;
use crate::directive::rows_model;
use crate::directive::Directive;
use crate::directive::GDirective;
use crate::directive::RepetitionSpec;
use crate::errors::SplitError;
use crate::rx::compile_pattern;
use crate::rx::regex_accepts;

verus! {

pub const LBRACE: u8 = 123;

pub const RBRACE: u8 = 125;

pub const SLASH: u8 = 47;

pub const PERCENT: u8 = 37;

pub const PLUS: u8 = 43;

pub const MINUS: u8 = 45;

pub const STAR: u8 = 42;

pub open spec fn is_digit(c: u8) -> bool {
    48 <= c && c <= 57
}

/// A non-empty run of decimal digits.
pub open spec fn all_digits(s: Seq<u8>) -> bool {
    s.len() > 0 && forall|j: int| 0 <= j < s.len() ==> is_digit(s[j])
}

/// The base-10 value of a digit run.
pub open spec fn dec_val(s: Seq<u8>) -> int
    decreases s.len(),
{
    if s.len() == 0 {
        0
    } else {
        dec_val(s.drop_last()) * 10 + (s.last() - 48)
    }
}

pub proof fn lemma_dec_val_nonneg(s: Seq<u8>)
    requires
        forall|j: int| 0 <= j < s.len() ==> is_digit(s[j]),
    ensures
        dec_val(s) >= 0,
    decreases s.len(),
{
    if s.len() > 0 {
        lemma_dec_val_nonneg(s.drop_last());
    }
}

pub open spec fn pow10(n: nat) -> int
    decreases n,
{
    if n == 0 {
        1
    } else {
        10 * pow10((n - 1) as nat)
    }
}

proof fn lemma_pow10_pos(n: nat)
    ensures
        pow10(n) >= 1,
    decreases n,
{
    if n > 0 {
        lemma_pow10_pos((n - 1) as nat);
    }
}

proof fn lemma_pow10_mono(a: nat, b: nat)
    requires
        a <= b,
    ensures
        pow10(a) <= pow10(b),
    decreases b,
{
    if a < b {
        lemma_pow10_mono(a, (b - 1) as nat);
        lemma_pow10_pos((b - 1) as nat);
    }
}

/// A digit run of n digits has value below 10^n.
proof fn lemma_dec_val_bound(s: Seq<u8>)
    requires
        forall|j: int| 0 <= j < s.len() ==> is_digit(s[j]),
    ensures
        dec_val(s) < pow10(s.len()),
    decreases s.len(),
{
    if s.len() > 0 {
        lemma_dec_val_bound(s.drop_last());
        let p = pow10((s.len() - 1) as nat);
        assert(dec_val(s.drop_last()) * 10 <= (p - 1) * 10) by (nonlinear_arith)
            requires
                dec_val(s.drop_last()) <= p - 1,
        ;
    }
}

/// A digit run the grammar admits as an offset magnitude (at most nine
/// digits) stays below a billion, so it fits an `i64` either signed way.
pub proof fn lemma_dec_val_small(s: Seq<u8>)
    requires
        forall|j: int| 0 <= j < s.len() ==> is_digit(s[j]),
        s.len() <= 9,
    ensures
        dec_val(s) < 1000000000,
{
    lemma_dec_val_bound(s);
    lemma_pow10_mono(s.len(), 9);
    assert(pow10(9) == 1000000000) by {
        reveal_with_fuel(pow10, 11);
    }
}

/// Extending a digit run can only grow its value.
pub proof fn lemma_dec_val_prefix(s: Seq<u8>, i: int)
    requires
        forall|j: int| 0 <= j < s.len() ==> is_digit(s[j]),
        0 <= i <= s.len(),
    ensures
        dec_val(s.subrange(0, i)) <= dec_val(s),
    decreases s.len() - i,
{
    if i == s.len() {
        assert(s.subrange(0, i) =~= s);
    } else {
        lemma_dec_val_prefix(s, i + 1);
        let p = s.subrange(0, i + 1);
        assert(p.drop_last() =~= s.subrange(0, i));
        lemma_dec_val_nonneg(s.subrange(0, i));
        assert(dec_val(s.subrange(0, i)) <= dec_val(p));
    }
}

/// The least index at or after `from` holding byte `c`.
pub open spec fn find_from(s: Seq<u8>, c: u8, from: int) -> Option<int>
    decreases s.len() - from,
{
    if from < 0 || from >= s.len() {
        None
    } else if s[from] == c {
        Some(from)
    } else {
        find_from(s, c, from + 1)
    }
}

/// The greatest index in `[1, upto)` holding byte `c`: the closing delimiter
/// of a regex token is its last delimiter occurrence, never its first byte.
pub open spec fn rfind_from(s: Seq<u8>, c: u8, upto: int) -> Option<int>
    decreases upto,
{
    if upto <= 1 {
        None
    } else if upto > s.len() {
        rfind_from(s, c, s.len() as int)
    } else if s[upto - 1] == c {
        Some(upto - 1)
    } else {
        rfind_from(s, c, upto - 1)
    }
}

/// Where the repetition suffix would begin: the first `{`, or the end.
pub open spec fn brace_or_end(s: Seq<u8>, from: int) -> int {
    match find_from(s, LBRACE, from) {
        Some(j) => j,
        None => s.len() as int,
    }
}

/// The meaning of a repetition suffix: absent means once, `{*}` means
/// unbounded, `{digits}` means that many times.
pub open spec fn rep_model(s: Seq<u8>) -> Option<RepetitionSpec> {
    if s.len() == 0 {
        Some(RepetitionSpec::Count { times: 1 })
    } else if s.len() >= 3 && s[0] == LBRACE && s.last() == RBRACE {
        let inner = s.subrange(1, s.len() - 1);
        if inner.len() == 1 && inner[0] == STAR {
            Some(RepetitionSpec::Unbounded)
        } else if all_digits(inner) && dec_val(inner) <= u64::MAX {
            Some(RepetitionSpec::Count { times: dec_val(inner) as u64 })
        } else {
            None
        }
    } else {
        None
    }
}

/// The meaning of an offset part: absent means zero, else a sign and at most
/// nine digits (offsets are small integers by design).
pub open spec fn offset_model(s: Seq<u8>) -> Option<i64> {
    if s.len() == 0 {
        Some(0i64)
    } else if 2 <= s.len() && s.len() <= 10 && (s[0] == PLUS || s[0] == MINUS) && all_digits(
        s.subrange(1, s.len() as int),
    ) {
        let v = dec_val(s.subrange(1, s.len() as int));
        if s[0] == MINUS {
            Some((-v) as i64)
        } else {
            Some(v as i64)
        }
    } else {
        None
    }
}

/// The meaning of one raw pattern token.  A digit token is a line-number
/// directive (its repetition may not be unbounded).  A `/regex/` token keeps
/// the scanned content as a piece; a `%regex%` token discards it.  Either
/// may carry a signed line offset after the closing delimiter and a
/// repetition suffix at the very end.  `None` is a syntax fault.
pub open spec fn parse_token_model(t: Seq<u8>, suppress: bool) -> Option<
    (GDirective, RepetitionSpec),
> {
    if t.len() == 0 {
        None
    } else if is_digit(t[0]) {
        let stop = brace_or_end(t, 0);
        let body = t.subrange(0, stop);
        let repp = t.subrange(stop, t.len() as int);
        if all_digits(body) && dec_val(body) <= u64::MAX {
            match rep_model(repp) {
                Some(RepetitionSpec::Unbounded) => None,
                Some(r) => Some((GDirective::AtLine { line: dec_val(body) as u64 }, r)),
                None => None,
            }
        } else {
            None
        }
    } else if t[0] == SLASH || t[0] == PERCENT {
        match rfind_from(t, t[0], t.len() as int) {
            None => None,
            Some(j) => {
                let bs = brace_or_end(t, j + 1);
                let pat = t.subrange(1, j);
                let offp = t.subrange(j + 1, bs);
                let repp = t.subrange(bs, t.len() as int);
                if !regex_accepts(pat) {
                    None
                } else {
                    match (offset_model(offp), rep_model(repp)) {
                        (Some(o), Some(r)) => Some(
                            (
                                GDirective::AtMatch {
                                    pattern: pat,
                                    offset: o,
                                    suppress,
                                    discard: t[0] == PERCENT,
                                },
                                r,
                            ),
                        ),
                        _ => None,
                    }
                }
            },
        }
    } else {
        None
    }
}

/// Reads the digit run `s[lo..hi]` as a base-10 `u64`; `None` when the range
/// is empty, holds a non-digit, or overflows.
pub fn parse_decimal(s: &Vec<u8>, lo: usize, hi: usize) -> (r: Option<u64>)
    requires
        lo <= hi <= s@.len(),
    ensures
        ({
            let part = s@.subrange(lo as int, hi as int);
            match r {
                Some(v) => all_digits(part) && v == dec_val(part) && dec_val(part) <= u64::MAX,
                None => !(all_digits(part) && dec_val(part) <= u64::MAX),
            }
        }),
{
    let ghost part = s@.subrange(lo as int, hi as int);
    if lo == hi {
        return None;
    }
    let mut val: u64 = 0;
    let mut i: usize = lo;
    while i < hi
        invariant
            lo <= i <= hi <= s@.len(),
            forall|j: int| lo <= j < i ==> is_digit(s@[j]),
            part == s@.subrange(lo as int, hi as int),
            val == dec_val(s@.subrange(lo as int, i as int)),
        decreases hi - i,
    {
        let c = s[i];
        if c < 48 || c > 57 {
            assert(!is_digit(part[i - lo]));
            return None;
        }
        let d: u64 = (c - 48) as u64;
        proof {
            let pre = s@.subrange(lo as int, i as int);
            let ext = s@.subrange(lo as int, i + 1 as int);
            assert(ext.drop_last() =~= pre);
            assert(ext.last() == s@[i as int]);
        }
        if val > (u64::MAX - d) / 10 {
            proof {
                let ext = s@.subrange(lo as int, i + 1 as int);
                assert(val * 10 + d > u64::MAX) by (nonlinear_arith)
                    requires
                        val > (u64::MAX - d) / 10,
                        d <= 9,
                ;
                if all_digits(part) {
                    assert(ext =~= part.subrange(0, i + 1 - lo));
                    lemma_dec_val_prefix(part, i + 1 - lo);
                    assert(dec_val(part) > u64::MAX);
                }
            }
            return None;
        }
        proof {
            assert(val * 10 + d <= u64::MAX) by (nonlinear_arith)
                requires
            // !(val > (MAX - d)/10)

                    val <= (u64::MAX - d) / 10,
                    d <= 9,
            ;
        }
        val = val * 10 + d;
        i = i + 1;
    }
    proof {
        assert(s@.subrange(lo as int, i as int) =~= part);
    }
    Some(val)
}

/// The least index in `s[from..]` holding byte `c`.
pub fn find_byte(s: &Vec<u8>, c: u8, from: usize) -> (r: Option<usize>)
    requires
        from <= s@.len(),
    ensures
        match r {
            Some(j) => find_from(s@, c, from as int) == Some(j as int) && from <= j < s@.len(),
            None => find_from(s@, c, from as int) is None,
        },
{
    let mut i: usize = from;
    while i < s.len()
        invariant
            from <= i <= s@.len(),
            find_from(s@, c, from as int) == find_from(s@, c, i as int),
        decreases s@.len() - i,
    {
        if s[i] == c {
            return Some(i);
        }
        i = i + 1;
    }
    None
}

/// The greatest index in `s[1..upto]` holding byte `c`.
pub fn rfind_byte(s: &Vec<u8>, c: u8) -> (r: Option<usize>)
    ensures
        match r {
            Some(j) => rfind_from(s@, c, s@.len() as int) == Some(j as int) && 1 <= j < s@.len(),
            None => rfind_from(s@, c, s@.len() as int) is None,
        },
{
    let mut i: usize = s.len();
    while i > 1
        invariant
            i <= s@.len() || i <= 1,
            rfind_from(s@, c, s@.len() as int) == rfind_from(s@, c, i as int),
        decreases i,
    {
        if s[i - 1] == c {
            return Some(i - 1);
        }
        i = i - 1;
    }
    None
}

/// Reads the repetition suffix `s[lo..hi]`.
fn parse_rep(s: &Vec<u8>, lo: usize, hi: usize) -> (r: Option<RepetitionSpec>)
    requires
        lo <= hi <= s@.len(),
    ensures
        r == rep_model(s@.subrange(lo as int, hi as int)),
{
    let ghost part = s@.subrange(lo as int, hi as int);
    if lo == hi {
        return Some(RepetitionSpec::Count { times: 1 });
    }
    if hi - lo >= 3 && s[lo] == LBRACE && s[hi - 1] == RBRACE {
        proof {
            assert(part.subrange(1, part.len() - 1) =~= s@.subrange(lo + 1 as int, hi - 1 as int));
        }
        if hi - lo == 3 && s[lo + 1] == STAR {
            return Some(RepetitionSpec::Unbounded);
        }
        assert(!(part.subrange(1, part.len() - 1).len() == 1 && part.subrange(
            1,
            part.len() - 1,
        )[0] == STAR));
        match parse_decimal(s, lo + 1, hi - 1) {
            Some(v) => Some(RepetitionSpec::Count { times: v }),
            None => None,
        }
    } else {
        None
    }
}

/// Reads the offset part `s[lo..hi]`.
fn parse_offset(s: &Vec<u8>, lo: usize, hi: usize) -> (r: Option<i64>)
    requires
        lo <= hi <= s@.len(),
    ensures
        r == offset_model(s@.subrange(lo as int, hi as int)),
{
    let ghost part = s@.subrange(lo as int, hi as int);
    if lo == hi {
        return Some(0i64);
    }
    if hi - lo >= 2 && hi - lo <= 10 && (s[lo] == PLUS || s[lo] == MINUS) {
        proof {
            assert(part.subrange(1, part.len() as int) =~= s@.subrange(
                lo + 1 as int,
                hi as int,
            ));
        }
        match parse_decimal(s, lo + 1, hi) {
            Some(v) => {
                proof {
                    lemma_dec_val_small(s@.subrange(lo + 1 as int, hi as int));
                }
                if s[lo] == MINUS {
                    Some(-(v as i64))
                } else {
                    Some(v as i64)
                }
            },
            None => {
                proof {
                    if all_digits(s@.subrange(lo + 1 as int, hi as int)) {
                        lemma_dec_val_small(s@.subrange(lo + 1 as int, hi as int));
                    }
                }
                None
            },
        }
    } else {
        None
    }
}

/// Reads one raw pattern token into a directive and its repetition, per
/// `parse_token_model`; `None` is a syntax fault.
pub fn parse_token(t: &Vec<u8>, suppress: bool) -> (r: Option<(Directive, RepetitionSpec)>)
    ensures
        (r is Some) == (parse_token_model(t@, suppress) is Some),
        r matches Some(p) ==> (parse_token_model(t@, suppress) matches Some(g) && p.0.model()
            == g.0 && p.1 == g.1),
{
    if t.len() == 0 {
        return None;
    }
    let c0 = t[0];
    if 48 <= c0 && c0 <= 57 {
        let stop = match find_byte(t, LBRACE, 0) {
            Some(j) => j,
            None => t.len(),
        };
        assert(stop == brace_or_end(t@, 0));
        let v = match parse_decimal(t, 0, stop) {
            Some(v) => v,
            None => {
                return None;
            },
        };
        let rep = match parse_rep(t, stop, t.len()) {
            Some(r) => r,
            None => {
                return None;
            },
        };
        if let RepetitionSpec::Unbounded = rep {
            return None;
        }
        Some((Directive::AtLine { line: v }, rep))
    } else if c0 == SLASH || c0 == PERCENT {
        let j = match rfind_byte(t, c0) {
            Some(j) => j,
            None => {
                return None;
            },
        };
        let bs = match find_byte(t, LBRACE, j + 1) {
            Some(k) => k,
            None => t.len(),
        };
        assert(bs == brace_or_end(t@, j + 1));
        let off = match parse_offset(t, j + 1, bs) {
            Some(o) => o,
            None => {
                return None;
            },
        };
        let rep = match parse_rep(t, bs, t.len()) {
            Some(r) => r,
            None => {
                return None;
            },
        };
        let pat = match compile_pattern(slice_subrange(t.as_slice(), 1, j)) {
            Some(p) => p,
            None => {
                return None;
            },
        };
        Some(
            (
                Directive::AtMatch {
                    pattern: pat,
                    offset: off,
                    suppress,
                    discard: c0 == PERCENT,
                },
                rep,
            ),
        )
    } else {
        None
    }
}

/// The meaning of the first `i` raw pattern tokens: the parsed pairs in
/// order, or the syntax fault of the first malformed token.
pub open spec fn parse_upto(tokens: Seq<Seq<u8>>, suppress: bool, i: int) -> Result<
    Seq<(GDirective, RepetitionSpec)>,
    SplitError,
>
    decreases i,
{
    if i <= 0 {
        Ok(Seq::empty())
    } else {
        match parse_upto(tokens, suppress, i - 1) {
            Err(e) => Err(e),
            Ok(s) => match parse_token_model(tokens[i - 1], suppress) {
                Some(p) => Ok(s.push(p)),
                None => Err(SplitError::PatternSyntax { token: (i - 1) as usize }),
            },
        }
    }
}

/// The meaning of a whole raw pattern token list.
pub open spec fn parse_all_model(tokens: Seq<Seq<u8>>, suppress: bool) -> Result<
    Seq<(GDirective, RepetitionSpec)>,
    SplitError,
> {
    parse_upto(tokens, suppress, tokens.len() as int)
}

proof fn lemma_parse_upto_err(tokens: Seq<Seq<u8>>, suppress: bool, i: int, j: int)
    requires
        0 <= i <= j,
        parse_upto(tokens, suppress, i) is Err,
    ensures
        parse_upto(tokens, suppress, j) == parse_upto(tokens, suppress, i),
    decreases j - i,
{
    if i < j {
        lemma_parse_upto_err(tokens, suppress, i, j - 1);
    }
}

/// Reads every raw pattern token, in order, stopping at the first malformed
/// one, per `parse_all_model`.
pub fn parse_patterns(tokens: &Vec<Vec<u8>>, suppress: bool) -> (r: Result<
    Vec<(Directive, RepetitionSpec)>,
    SplitError,
>)
    ensures
        ({
            let m = parse_all_model(rows_model(tokens@), suppress);
            match r {
                Ok(v) => m matches Ok(g) && pairs_model(v@) == g,
                Err(e) => m matches Err(e2) && e == e2,
            }
        }),
{
    let ghost tm = rows_model(tokens@);
    let mut out: Vec<(Directive, RepetitionSpec)> = Vec::new();
    proof {
        assert(pairs_model(out@) =~= Seq::<(GDirective, RepetitionSpec)>::empty());
    }
    let mut i: usize = 0;
    while i < tokens.len()
        invariant
            i <= tokens@.len(),
            tm == rows_model(tokens@),
            parse_upto(tm, suppress, i as int) == Ok::<_, SplitError>(pairs_model(out@)),
        decreases tokens@.len() - i,
    {
        match parse_token(&tokens[i], suppress) {
            Some(p) => {
                proof {
                    assert(tm[i as int] == tokens@[i as int]@);
                    assert(pairs_model(out@.push(p)) =~= pairs_model(out@).push(
                        (p.0.model(), p.1),
                    ));
                }
                out.push(p);
            },
            None => {
                proof {
                    assert(tm[i as int] == tokens@[i as int]@);
                    assert(parse_upto(tm, suppress, i + 1 as int) == Err::<
                        Seq<(GDirective, RepetitionSpec)>,
                        _,
                    >(SplitError::PatternSyntax { token: i }));
                    lemma_parse_upto_err(tm, suppress, i + 1 as int, tm.len() as int);
                }
                return Err(SplitError::PatternSyntax { token: i });
            },
        }
        i = i + 1;
    }
    Ok(out)
}

} // verus!
