use vstd::prelude::*;

verus! {

#[verifier::external_type_specification]
#[verifier::external_body]
pub struct ExRegex(regex::bytes::Regex);

/// Whether `regex::bytes::Regex::new` accepts `pattern` (read as UTF-8 text):
/// compilation of a fixed pattern text always succeeds or always fails, so
/// acceptance is a function of the pattern bytes alone.  A pattern that is
/// not valid UTF-8 counts as not accepted.
pub uninterp spec fn regex_accepts(pattern: Seq<u8>) -> bool;

/// What `regex::bytes::Regex::is_match` returns for a compiled pattern and a
/// haystack: a function of the pattern text and the haystack bytes alone.
pub uninterp spec fn regex_hits(pattern: Seq<u8>, haystack: Seq<u8>) -> bool;

/// A compiled regular expression together with the pattern text it was
/// compiled from.  The two fields are private: only the constructor below
/// fills them, so the compiled value always belongs to the recorded text.
pub struct CompiledRegex {
    re: regex::bytes::Regex,
    src: Vec<u8>,
}

impl CompiledRegex {
    /// The pattern text this value was compiled from.
    pub closed spec fn pattern(self) -> Seq<u8> {
        self.src@
    }
}

/// Relies on `regex::bytes::Regex::new`: it returns `Ok` exactly on the
/// patterns it accepts, and the compiled value searches for the given
/// pattern text.  A pattern that is not valid UTF-8 is reported as refused.
#[verifier::external_body]
pub(crate) fn compile_pattern(pattern: &[u8]) -> (r: Option<CompiledRegex>)
    ensures
        r is Some <==> regex_accepts(pattern@),
        r matches Some(cr) ==> cr.pattern() == pattern@,
{
    match core::str::from_utf8(pattern) {
        Ok(text) => match regex::bytes::Regex::new(text) {
            Ok(re) => Some(CompiledRegex { re, src: pattern.to_vec() }),
            Err(_) => None,
        },
        Err(_) => None,
    }
}

/// Relies on `regex::bytes::Regex::is_match`: whether the regex matches
/// anywhere in the haystack, a function of pattern text and haystack alone.
#[verifier::external_body]
pub(crate) fn pattern_hits_line(cr: &CompiledRegex, line: &[u8]) -> (b: bool)
    ensures
        b == regex_hits(cr.pattern(), line@),
{
    cr.re.is_match(line)
}

/// Relies on the `Clone` impl that `regex::bytes::Regex` derives: the clone
/// is the same compiled pattern.
#[verifier::external_body]
pub(crate) fn clone_pattern(cr: &CompiledRegex) -> (r: CompiledRegex)
    ensures
        r.pattern() == cr.pattern(),
{
    CompiledRegex { re: cr.re.clone(), src: cr.src.clone() }
}

} // verus!
