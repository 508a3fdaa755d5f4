//! Query compiler and line matcher. A query is a regex pattern plus a
//! case-sensitivity flag; a compiled matcher finds every match's byte range
//! within a line. Compilation and matching are done by the `regex` crate;
//! what they return is named here and everything downstream is proved
//! against those names.
use vstd::prelude::*;

verus! {

#[verifier::external_type_specification]
#[verifier::external_body]
pub struct ExRegex(regex::bytes::Regex);

/// Whether a pattern compiles, under the given case-insensitivity flag.
/// Depends on the pattern text and the flag alone.
pub uninterp spec fn pattern_ok(pattern: Seq<char>, case_insensitive: bool) -> bool;

/// The successive non-overlapping leftmost-first match ranges that the
/// compiled pattern finds in a line. Depends on the pattern text, the
/// case-insensitivity flag and the line bytes alone.
pub uninterp spec fn find_ranges(pattern: Seq<char>, case_insensitive: bool, line: Seq<u8>) -> Seq<
    (usize, usize),
>;

/// Every range of `s` lies within a line of length `len`, and the ranges
/// are ordered and non-overlapping.
pub open spec fn ranges_wf(s: Seq<(usize, usize)>, len: nat) -> bool {
    &&& forall|i: int| 0 <= i < s.len() ==> #[trigger] s[i].0 <= s[i].1 <= len
    &&& forall|i: int| 0 < i < s.len() ==> #[trigger] s[i - 1].1 <= s[i].0 && s[i - 1].0 < s[i].0
}

/// A compiled query: the regex built from `pattern` under `case_insensitive`.
/// Only `build` constructs one, so the two fields always describe `re`.
pub struct CompiledMatcher {
    re: regex::bytes::Regex,
    pattern: String,
    case_insensitive: bool,
}

impl CompiledMatcher {
    /// The pattern text the matcher was compiled from.
    pub closed spec fn spec_pattern(&self) -> Seq<char> {
        self.pattern@
    }

    /// The case-insensitivity flag the matcher was compiled with.
    pub closed spec fn spec_case_insensitive(&self) -> bool {
        self.case_insensitive
    }

    /// Relies on `regex::bytes::RegexBuilder::build` (after
    /// `case_insensitive`): it returns `Ok` exactly on well-formed
    /// patterns, deterministically in the pattern and the flag.
    #[verifier::external_body]
    pub(crate) fn build(pattern: &String, case_insensitive: bool) -> (r: Option<CompiledMatcher>)
        ensures
            r is Some <==> pattern_ok(pattern@, case_insensitive),
            (match r {
                Some(m) => m.spec_pattern() == pattern@ && m.spec_case_insensitive()
                    == case_insensitive,
                None => true,
            }),
    {
        match regex::bytes::RegexBuilder::new(pattern).case_insensitive(case_insensitive).build() {
            Ok(re) => Some(CompiledMatcher {
                re,
                pattern: pattern.clone(),
                case_insensitive,
            }),
            Err(_) => None,
        }
    }

    /// Relies on `regex::bytes::Regex::find_iter`: it yields the successive
    /// non-overlapping matches in the line, leftmost first, each within the
    /// line's bounds, deterministically in the pattern, flag and line.
    #[verifier::external_body]
    pub(crate) fn find_matches(&self, line: &Vec<u8>) -> (r: Vec<(usize, usize)>)
        ensures
            r@ == find_ranges(self.spec_pattern(), self.spec_case_insensitive(), line@),
            ranges_wf(r@, line@.len()),
    {
        self.re.find_iter(line).map(|m| (m.start(), m.end())).collect()
    }
}

} // verus!
