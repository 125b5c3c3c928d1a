use rcsplit::behaviour::Behaviour;
use rcsplit::directive::Directive;
use rcsplit::directive::RepetitionSpec;
use rcsplit::errors::SplitError;
use rcsplit::parse::parse_token;
use rcsplit::split::cleanup_plan;
use rcsplit::split::rcsplit;
use rcsplit::split::RunOutput;

fn lines_of(s: &str) -> Vec<Vec<u8>> {
    let mut out: Vec<Vec<u8>> = Vec::new();
    let mut cur: Vec<u8> = Vec::new();
    for &b in s.as_bytes() {
        cur.push(b);
        if b == b'\n' {
            out.push(std::mem::take(&mut cur));
        }
    }
    if !cur.is_empty() {
        out.push(cur);
    }
    out
}

fn toks(ts: &[&str]) -> Vec<Vec<u8>> {
    ts.iter().map(|t| t.as_bytes().to_vec()).collect()
}

fn behaviour(suppress: bool, elide: bool, quiet: bool, keep: bool) -> Behaviour {
    Behaviour {
        suffix_format: String::new(),
        prefix: String::from("xx"),
        digits: 2,
        filename: String::from("-"),
        keep_files: keep,
        quiet,
        elide_empty: elide,
        suppress_matched: suppress,
    }
}

fn run_ok(input: &str, tokens: &[&str], b: &Behaviour) -> RunOutput {
    let lines = lines_of(input);
    let tv = toks(tokens);
    match rcsplit(&lines, &tv, b) {
        Ok(out) => out,
        Err(f) => panic!("unexpected failure: {:?}", f.error),
    }
}

fn run_err(input: &str, tokens: &[&str], b: &Behaviour) -> rcsplit::split::RunFailure {
    let lines = lines_of(input);
    let tv = toks(tokens);
    match rcsplit(&lines, &tv, b) {
        Ok(_) => panic!("expected a failure"),
        Err(f) => f,
    }
}

#[test]
fn at_line_two_pieces() {
    // Splitting "a\nb\nc\nd\n" before line 3 gives "a\nb\n" and "c\nd\n".
    let out = run_ok("a\nb\nc\nd\n", &["3"], &behaviour(false, false, false, false));
    assert_eq!(out.pieces.len(), 2);
    assert_eq!(out.pieces[0].bytes, b"a\nb\n".to_vec());
    assert_eq!(out.pieces[1].bytes, b"c\nd\n".to_vec());
    assert_eq!(out.pieces[0].index, 0);
    assert_eq!(out.pieces[1].index, 1);
    assert_eq!(out.reports.len(), 2);
    assert_eq!(out.reports[0].count, 4);
    assert_eq!(out.reports[1].count, 4);
}

#[test]
fn suppressed_match_line_vanishes() {
    // Lines 1..10, pattern /^5$/, suppression on: line 5 is in neither piece.
    let input = "1\n2\n3\n4\n5\n6\n7\n8\n9\n10\n";
    let out = run_ok(input, &["/^5$/"], &behaviour(true, false, false, false));
    assert_eq!(out.pieces.len(), 2);
    assert_eq!(out.pieces[0].bytes, b"1\n2\n3\n4\n".to_vec());
    assert_eq!(out.pieces[1].bytes, b"6\n7\n8\n9\n10\n".to_vec());
}

#[test]
fn not_found_cleanup_policies() {
    // A pattern that never matches is fatal; the piece already placed is
    // deleted under the default policy and kept under keep-files.
    let f = run_err("a\nb\nc\n", &["2", "/zzz/"], &behaviour(false, false, false, false));
    assert_eq!(f.error, SplitError::PatternNotFound { token: 1 });
    assert_eq!(f.pieces.len(), 1);
    assert_eq!(f.pieces[0].bytes, b"a\n".to_vec());
    let delete = cleanup_plan(&f, false);
    assert_eq!(delete, vec![0]);
    let keep = cleanup_plan(&f, true);
    assert!(keep.is_empty());
}

#[test]
fn unbounded_repetition_counts_occurrences() {
    // Two occurrences of /x/ give two boundaries plus the final piece.
    let out = run_ok("x\na\nx\nb\n", &["/x/{*}"], &behaviour(false, false, false, false));
    assert_eq!(out.pieces.len(), 3);
    assert_eq!(out.pieces[0].bytes, b"".to_vec());
    assert_eq!(out.pieces[1].bytes, b"x\na\n".to_vec());
    assert_eq!(out.pieces[2].bytes, b"x\nb\n".to_vec());
}

#[test]
fn unbounded_repetition_no_match_is_fine() {
    // {*} over a pattern with no occurrence ends without fault: one piece.
    let out = run_ok("a\nb\n", &["/zzz/{*}"], &behaviour(false, false, false, false));
    assert_eq!(out.pieces.len(), 1);
    assert_eq!(out.pieces[0].bytes, b"a\nb\n".to_vec());
}

#[test]
fn elision_drops_empty_and_keeps_numbering() {
    // Splitting before line 1 makes an empty first piece; elision drops it
    // from writes and report, but its number stays consumed: gaps, not
    // dense renumbering.
    let out = run_ok("a\nb\n", &["1"], &behaviour(false, true, false, false));
    assert_eq!(out.pieces.len(), 1);
    assert_eq!(out.pieces[0].index, 1);
    assert_eq!(out.pieces[0].bytes, b"a\nb\n".to_vec());
    assert_eq!(out.reports.len(), 1);
    assert_eq!(out.reports[0].index, 1);
    assert_eq!(out.reports[0].count, 4);
}

#[test]
fn without_elision_empty_piece_is_written() {
    let out = run_ok("a\nb\n", &["1"], &behaviour(false, false, false, false));
    assert_eq!(out.pieces.len(), 2);
    assert_eq!(out.pieces[0].bytes, b"".to_vec());
    assert_eq!(out.pieces[0].index, 0);
    assert_eq!(out.pieces[1].index, 1);
}

#[test]
fn quiet_silences_report_only() {
    let loud = run_ok("a\nb\nc\nd\n", &["3"], &behaviour(false, false, false, false));
    let out = run_ok("a\nb\nc\nd\n", &["3"], &behaviour(false, false, true, false));
    assert!(out.reports.is_empty());
    assert_eq!(out.pieces.len(), loud.pieces.len());
    assert_eq!(out.pieces[0].bytes, loud.pieces[0].bytes);
    assert_eq!(out.pieces[1].bytes, loud.pieces[1].bytes);
}

#[test]
fn discard_skips_content_without_a_piece() {
    // %b% drops everything through the matched line and numbers nothing.
    let out = run_ok("a\nb\nc\n", &["%b%"], &behaviour(false, false, false, false));
    assert_eq!(out.pieces.len(), 1);
    assert_eq!(out.pieces[0].index, 0);
    assert_eq!(out.pieces[0].bytes, b"c\n".to_vec());
}

#[test]
fn positive_offset_moves_boundary_later() {
    let out = run_ok("a\nb\nc\nd\n", &["/b/+1"], &behaviour(false, false, false, false));
    assert_eq!(out.pieces.len(), 2);
    assert_eq!(out.pieces[0].bytes, b"a\nb\n".to_vec());
    assert_eq!(out.pieces[1].bytes, b"c\nd\n".to_vec());
}

#[test]
fn negative_offset_moves_boundary_earlier() {
    let out = run_ok("a\nb\nc\nd\n", &["/c/-1"], &behaviour(false, false, false, false));
    assert_eq!(out.pieces.len(), 2);
    assert_eq!(out.pieces[0].bytes, b"a\n".to_vec());
    assert_eq!(out.pieces[1].bytes, b"b\nc\nd\n".to_vec());
}

#[test]
fn counted_repetition_splits_that_many_times() {
    let out = run_ok("x\nx\nx\n", &["/x/{2}"], &behaviour(false, false, false, false));
    assert_eq!(out.pieces.len(), 3);
    assert_eq!(out.pieces[0].bytes, b"".to_vec());
    assert_eq!(out.pieces[1].bytes, b"x\n".to_vec());
    assert_eq!(out.pieces[2].bytes, b"x\nx\n".to_vec());
}

#[test]
fn no_tokens_single_piece() {
    let out = run_ok("a\nb\n", &[], &behaviour(false, false, false, false));
    assert_eq!(out.pieces.len(), 1);
    assert_eq!(out.pieces[0].bytes, b"a\nb\n".to_vec());
}

#[test]
fn malformed_token_is_syntax_error() {
    let f = run_err("a\n", &["bogus"], &behaviour(false, false, false, false));
    assert_eq!(f.error, SplitError::PatternSyntax { token: 0 });
    assert!(f.pieces.is_empty());
}

#[test]
fn unterminated_regex_is_syntax_error() {
    let f = run_err("a\n", &["/abc"], &behaviour(false, false, false, false));
    assert_eq!(f.error, SplitError::PatternSyntax { token: 0 });
}

#[test]
fn invalid_regex_is_syntax_error() {
    let f = run_err("a\n", &["/(/"], &behaviour(false, false, false, false));
    assert_eq!(f.error, SplitError::PatternSyntax { token: 0 });
}

#[test]
fn unbounded_on_line_number_is_syntax_error() {
    let f = run_err("a\nb\n", &["2{*}"], &behaviour(false, false, false, false));
    assert_eq!(f.error, SplitError::PatternSyntax { token: 0 });
}

#[test]
fn zero_repetition_is_rejected() {
    let f = run_err("a\nb\n", &["/a/{0}"], &behaviour(false, false, false, false));
    assert_eq!(f.error, SplitError::Repetition { token: 0 });
}

#[test]
fn non_increasing_line_number_is_order_error() {
    let f = run_err("a\nb\nc\nd\n", &["3", "2"], &behaviour(false, false, false, false));
    assert_eq!(f.error, SplitError::PatternOrder { token: 1 });
}

#[test]
fn line_number_past_input_is_not_found() {
    let f = run_err("a\nb\n", &["9"], &behaviour(false, false, false, false));
    assert_eq!(f.error, SplitError::PatternNotFound { token: 0 });
}

#[test]
fn parse_line_number_token() {
    let t = b"12".to_vec();
    let (d, r) = parse_token(&t, false).expect("number token parses");
    assert!(matches!(d, Directive::AtLine { line: 12 }));
    assert_eq!(r, RepetitionSpec::Count { times: 1 });
}

#[test]
fn parse_line_number_with_count() {
    let t = b"12{3}".to_vec();
    let (d, r) = parse_token(&t, false).expect("number token with count parses");
    assert!(matches!(d, Directive::AtLine { line: 12 }));
    assert_eq!(r, RepetitionSpec::Count { times: 3 });
}

#[test]
fn parse_regex_with_offset_and_count() {
    let t = b"%xy%-2{4}".to_vec();
    let (d, r) = parse_token(&t, true).expect("discard token parses");
    match d {
        Directive::AtMatch { offset, suppress, discard, .. } => {
            assert_eq!(offset, -2);
            assert!(suppress);
            assert!(discard);
        },
        _ => panic!("expected a match directive"),
    }
    assert_eq!(r, RepetitionSpec::Count { times: 4 });
}

#[test]
fn parse_regex_unbounded() {
    let t = b"/ab/{*}".to_vec();
    let (d, r) = parse_token(&t, false).expect("unbounded token parses");
    match d {
        Directive::AtMatch { offset, suppress, discard, .. } => {
            assert_eq!(offset, 0);
            assert!(!suppress);
            assert!(!discard);
        },
        _ => panic!("expected a match directive"),
    }
    assert_eq!(r, RepetitionSpec::Unbounded);
}

#[test]
fn parse_rejects_garbage() {
    assert!(parse_token(&b"".to_vec(), false).is_none());
    assert!(parse_token(&b"{2}".to_vec(), false).is_none());
    assert!(parse_token(&b"/a/x".to_vec(), false).is_none());
    assert!(parse_token(&b"/a/+".to_vec(), false).is_none());
    assert!(parse_token(&b"1x".to_vec(), false).is_none());
    assert!(parse_token(&b"/a/{2}}".to_vec(), false).is_none());
}

#[test]
fn regex_actually_selects_the_matching_line() {
    // Would fail if the regex bridge answered blindly: /c$/ must match the
    // third line only.
    let out = run_ok("ca\ncb\nc\nd\n", &["/c$/"], &behaviour(false, false, false, false));
    assert_eq!(out.pieces.len(), 2);
    assert_eq!(out.pieces[0].bytes, b"ca\ncb\n".to_vec());
    assert_eq!(out.pieces[1].bytes, b"c\nd\n".to_vec());
}

#[test]
fn suppression_with_positive_offset_drops_line_from_current_piece() {
    // /b/+2: the boundary lands after line b, so the matched line sits in
    // the preceding piece and is dropped from it.
    let out = run_ok("a\nb\nc\nd\n", &["/b/+2"], &behaviour(true, false, false, false));
    assert_eq!(out.pieces.len(), 2);
    assert_eq!(out.pieces[0].bytes, b"a\nc\n".to_vec());
    assert_eq!(out.pieces[1].bytes, b"d\n".to_vec());
}

#[test]
fn suppression_with_negative_offset_drops_line_from_later_piece() {
    // /b/-1: the boundary clamps to the previous boundary, the matched line
    // stays pending and is dropped from the piece that comes to contain it.
    let out = run_ok("a\nb\nc\nd\n", &["/b/-1"], &behaviour(true, false, false, false));
    assert_eq!(out.pieces.len(), 2);
    assert_eq!(out.pieces[0].bytes, b"".to_vec());
    assert_eq!(out.pieces[1].bytes, b"a\nc\nd\n".to_vec());
}

#[test]
fn last_line_without_terminator_counts_fully() {
    let out = run_ok("a\nb", &["2"], &behaviour(false, false, false, false));
    assert_eq!(out.pieces.len(), 2);
    assert_eq!(out.pieces[0].bytes, b"a\n".to_vec());
    assert_eq!(out.pieces[1].bytes, b"b".to_vec());
    assert_eq!(out.reports[1].count, 1);
}
