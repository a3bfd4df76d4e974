//! Calls into the `url`, `serde_json`, `globset` and `regex` crates, each behind one trusted
//! item whose contract names what the crate computes.
use std::sync::Arc;
use vstd::prelude::*;
use crate::platform::share;

verus! {

/// The error `url::Url::parse` and `url::Url::join` return, carried through opaquely.
#[verifier::external_type_specification]
#[verifier::external_body]
pub struct ExUrlParseError(url::ParseError);

/// A set of glob patterns compiled by the `globset` crate, carried through opaquely.
#[verifier::external_type_specification]
#[verifier::external_body]
pub struct ExGlobSet(globset::GlobSet);

/// The error `globset::Glob::new` and `globset::GlobSet::new` return, carried through
/// opaquely.
#[verifier::external_type_specification]
#[verifier::external_body]
pub struct ExGlobError(globset::Error);

/// A compiled regular expression of the `regex` crate, carried through opaquely.
#[verifier::external_type_specification]
#[verifier::external_body]
pub struct ExRegex(regex::Regex);

/// The error `regex::Regex::new` returns, carried through opaquely.
#[verifier::external_type_specification]
#[verifier::external_body]
pub struct ExRegexError(regex::Error);

/// A version number of the `semver` crate, carried through opaquely.
#[verifier::external_type_specification]
#[verifier::external_body]
pub struct ExVersion(semver::Version);

/// What `url::Url::parse(input)` gives: `None` where it fails, else the serialization
/// (`as_str`), the scheme (`scheme`) and the host (`host_str`) of the parsed URL.
pub uninterp spec fn url_parse(input: Seq<char>) -> Option<(Seq<char>, Seq<char>, Option<Seq<char>>)>;

/// What `url::Url::parse(base)` followed by `join(input)` on the parsed URL gives, in the
/// same form as `url_parse`: `None` where either fails.
pub uninterp spec fn url_join(base: Seq<char>, input: Seq<char>) -> Option<(Seq<char>, Seq<char>, Option<Seq<char>>)>;

/// What `percent_encoding::percent_decode_str(s).decode_utf8()` gives: `None` where the
/// decoded bytes are not UTF-8, else the decoded text.
pub uninterp spec fn percent_decoded(s: Seq<char>) -> Option<Seq<char>>;

/// What `serde_json::from_slice::<serde_json::Value>(bytes)` gives: `None` where the bytes
/// are accepted as one JSON value, else the text of the error it returns.
pub uninterp spec fn json_syntax_error(bytes: Seq<u8>) -> Option<Seq<char>>;

/// Whether `globset::Glob::new` accepts each of `patterns` and `globset::GlobSet::new`
/// builds the set of them.
pub uninterp spec fn glob_set_accepts(patterns: Seq<Seq<char>>) -> bool;

/// Whether the set built from `patterns` matches the path `text`, as
/// `globset::GlobSet::is_match` answers: some glob of the set matches. (On Windows the crate
/// reads `\\` in the path as `/` first.)
pub uninterp spec fn glob_set_matches(patterns: Seq<Seq<char>>, text: Seq<char>) -> bool;

/// Whether `globset` accepts the one pattern `pattern`.
pub open spec fn glob_accepts(pattern: Seq<char>) -> bool {
    glob_set_accepts(seq![pattern])
}

/// Whether the glob `pattern` matches the path `text`.
pub open spec fn glob_matches(pattern: Seq<char>, text: Seq<char>) -> bool {
    glob_set_matches(seq![pattern], text)
}

/// Whether `regex::Regex::new(pattern)` accepts the pattern.
pub uninterp spec fn regex_accepts(pattern: Seq<char>) -> bool;

/// Whether the regex compiled from `pattern` finds a match anywhere in `text`.
pub uninterp spec fn regex_matches(pattern: Seq<char>, text: Seq<char>) -> bool;

/// The view of an optional string.
pub open spec fn opt_view(o: Option<String>) -> Option<Seq<char>> {
    match o {
        Some(s) => Some(s@),
        None => None,
    }
}

/// The parts of a parsed URL as plain values: serialization, scheme, host.
pub open spec fn parts_view(p: (String, String, Option<String>)) -> (Seq<char>, Seq<char>, Option<Seq<char>>) {
    (p.0@, p.1@, opt_view(p.2))
}

/// The serialization of a URL starts with its scheme followed by `:`.
pub open spec fn scheme_leads(p: (Seq<char>, Seq<char>, Option<Seq<char>>)) -> bool {
    crate::text::is_prefix_of(p.1.push(':'), p.0)
}

/// Calls `url::Url::parse` and hands out the serialization, the scheme and the host.
/// The `url` crate documents that the scheme is the part of the serialization before its
/// first `:`, which is the one fact stated beside the name.
#[verifier::external_body]
pub(crate) fn parse_url(input: &str) -> (r: Result<(String, String, Option<String>), url::ParseError>)
    ensures
        r is Ok <==> url_parse(input@) is Some,
        r matches Ok(p) ==> url_parse(input@) == Some(parts_view(p)) && scheme_leads(parts_view(p)),
{
    match url::Url::parse(input) {
        Ok(u) => Ok((u.as_str().to_string(), u.scheme().to_string(), u.host_str().map(|h| h.to_string()))),
        Err(e) => Err(e),
    }
}

/// Calls `url::Url::parse` on `base` and `url::Url::join` with `input` on the URL it gives,
/// and hands out the same parts as `parse_url`.
#[verifier::external_body]
pub(crate) fn join_url(base: &str, input: &str) -> (r: Result<(String, String, Option<String>), url::ParseError>)
    ensures
        r is Ok <==> url_join(base@, input@) is Some,
        r matches Ok(p) ==> url_join(base@, input@) == Some(parts_view(p)) && scheme_leads(parts_view(p)),
{
    match url::Url::parse(base).and_then(|b| b.join(input)) {
        Ok(u) => Ok((u.as_str().to_string(), u.scheme().to_string(), u.host_str().map(|h| h.to_string()))),
        Err(e) => Err(e),
    }
}

/// Calls `percent_encoding::percent_decode_str` and `PercentDecode::decode_utf8`, and
/// hands out the decoded text where it is UTF-8.
#[verifier::external_body]
pub fn percent_decode_utf8(s: &str) -> (r: Option<String>)
    ensures
        opt_view(r) == percent_decoded(s@),
{
    match percent_encoding::percent_decode_str(s).decode_utf8() {
        Ok(c) => Some(c.into_owned()),
        Err(_) => None,
    }
}

/// Calls `serde_json::from_slice::<serde_json::Value>` and keeps only whether it failed,
/// with the text of its error.
#[verifier::external_body]
pub fn json_check(bytes: &[u8]) -> (r: Option<String>)
    ensures
        opt_view(r) == json_syntax_error(bytes@),
{
    match serde_json::from_slice::<serde_json::Value>(bytes) {
        Ok(_) => None,
        Err(e) => Some(e.to_string()),
    }
}

/// The texts of a list of strings.
pub open spec fn string_views(v: Seq<String>) -> Seq<Seq<char>> {
    v.map_values(|s: String| s@)
}

/// Glob patterns together with the set `globset` compiled from them.
pub struct CompiledGlobSet {
    patterns: Arc<Vec<String>>,
    set: Arc<globset::GlobSet>,
}

impl CompiledGlobSet {
    /// The patterns this set was compiled from.
    pub closed spec fn patterns_view(&self) -> Seq<Seq<char>> {
        string_views(self.patterns@)
    }

    /// Compiles `patterns`; fails exactly where `globset` refuses them.
    pub fn new(patterns: &[String]) -> (r: Result<CompiledGlobSet, globset::Error>)
        ensures
            r is Ok <==> glob_set_accepts(string_views(patterns@)),
            patterns@.len() == 0 ==> r is Ok,
            r matches Ok(g) ==> g.patterns_view() == string_views(patterns@),
    {
        match build_glob_set(patterns) {
            Ok(set) => {
                let copy = crate::text::clone_all_of(patterns);
                Ok(CompiledGlobSet { patterns: Arc::new(copy), set: Arc::new(set) })
            },
            Err(e) => Err(e),
        }
    }

    /// Whether the two sets were compiled from the same patterns, in the same order.
    pub fn same_patterns(&self, other: &CompiledGlobSet) -> (r: bool)
        ensures
            r == (self.patterns_view() == other.patterns_view()),
    {
        let n = self.patterns.len();
        if n != other.patterns.len() {
            assert(string_views(self.patterns@).len() != string_views(other.patterns@).len());
            return false;
        }
        let mut i: usize = 0;
        while i < n
            invariant
                n == self.patterns@.len(),
                n == other.patterns@.len(),
                0 <= i <= n,
                forall|j: int| 0 <= j < i ==> (#[trigger] self.patterns@[j])@ == other.patterns@[j]@,
            decreases n - i,
        {
            if !crate::text::str_equal(self.patterns[i].as_str(), other.patterns[i].as_str()) {
                assert(string_views(self.patterns@)[i as int] != string_views(other.patterns@)[i as int]);
                return false;
            }
            i = i + 1;
        }
        assert(string_views(self.patterns@) =~= string_views(other.patterns@));
        true
    }

    /// Whether some pattern of the set matches the path `text`; an empty set matches
    /// nothing.
    pub fn is_match(&self, text: &str) -> (r: bool)
        ensures
            r == glob_set_matches(self.patterns_view(), text@),
            self.patterns_view().len() == 0 ==> !r,
    {
        glob_set_is_match(self, text)
    }
}

impl Clone for CompiledGlobSet {
    fn clone(&self) -> (r: Self)
        ensures
            r == *self,
    {
        CompiledGlobSet { patterns: share(&self.patterns), set: share(&self.set) }
    }
}

/// Calls `globset::Glob::new` on each pattern and `globset::GlobSet::new` on the globs; fails
/// with the first error. `GlobSet::new` builds the empty set from no globs. (Building the
/// set also builds a literal matcher with `aho_corasick`, unwrapped, which fails only past
/// that crate's capacity; that case is not stated here.)
#[verifier::external_body]
fn build_glob_set(patterns: &[String]) -> (r: Result<globset::GlobSet, globset::Error>)
    ensures
        r is Ok <==> glob_set_accepts(string_views(patterns@)),
        patterns@.len() == 0 ==> r is Ok,
{
    let globs: Result<Vec<globset::Glob>, globset::Error> = patterns.iter().map(|p| globset::Glob::new(p)).collect();
    match globs {
        Ok(gs) => globset::GlobSet::new(gs),
        Err(e) => Err(e),
    }
}

/// Calls `globset::GlobSet::is_match`, which answers whether some glob of the set matches
/// and `false` for the empty set. A `CompiledGlobSet` is only made by
/// `CompiledGlobSet::new`, which stores the set built from its own patterns.
#[verifier::external_body]
fn glob_set_is_match(g: &CompiledGlobSet, text: &str) -> (r: bool)
    ensures
        r == glob_set_matches(string_views(g.patterns@), text@),
        g.patterns@.len() == 0 ==> !r,
{
    g.set.is_match(text)
}

/// A glob pattern together with the set `globset` compiled from it alone.
pub struct CompiledGlob {
    pattern: String,
    set: CompiledGlobSet,
}

impl CompiledGlob {
    #[verifier::type_invariant]
    closed spec fn inv(self) -> bool {
        self.set.patterns_view() == seq![self.pattern@]
    }

    /// The pattern this glob was compiled from.
    pub closed spec fn pattern_view(&self) -> Seq<char> {
        self.pattern@
    }

    /// Compiles `pattern`; fails exactly where `globset` refuses it.
    pub fn new(pattern: &str) -> (r: Result<CompiledGlob, globset::Error>)
        ensures
            r is Ok <==> glob_accepts(pattern@),
            r matches Ok(g) ==> g.pattern_view() == pattern@,
    {
        let mut one: Vec<String> = Vec::new();
        one.push(crate::text::owned(pattern));
        assert(string_views(one@) =~= seq![pattern@]);
        match CompiledGlobSet::new(one.as_slice()) {
            Ok(set) => Ok(CompiledGlob { pattern: crate::text::owned(pattern), set }),
            Err(e) => Err(e),
        }
    }

    /// The pattern this glob was compiled from.
    pub fn pattern(&self) -> (r: &str)
        ensures
            r@ == self.pattern_view(),
    {
        self.pattern.as_str()
    }

    /// Whether the glob matches the path `text`.
    pub fn is_match(&self, text: &str) -> (r: bool)
        ensures
            r == glob_matches(self.pattern_view(), text@),
    {
        proof {
            use_type_invariant(self);
        }
        self.set.is_match(text)
    }
}

impl Clone for CompiledGlob {
    fn clone(&self) -> (r: Self)
        ensures
            r == *self,
    {
        proof {
            use_type_invariant(self);
        }
        CompiledGlob { pattern: self.pattern.clone(), set: self.set.clone() }
    }
}

/// A regular expression together with the regex `regex` compiled from it.
pub struct CompiledRegex {
    pattern: String,
    regex: Arc<regex::Regex>,
}

impl CompiledRegex {
    /// The pattern this regex was compiled from.
    pub closed spec fn pattern_view(&self) -> Seq<char> {
        self.pattern@
    }

    /// Compiles `pattern`; fails exactly where `regex` refuses it.
    pub fn new(pattern: &str) -> (r: Result<CompiledRegex, regex::Error>)
        ensures
            r is Ok <==> regex_accepts(pattern@),
            r matches Ok(g) ==> g.pattern_view() == pattern@,
    {
        match compile_regex(pattern) {
            Ok(m) => Ok(CompiledRegex { pattern: crate::text::owned(pattern), regex: Arc::new(m) }),
            Err(e) => Err(e),
        }
    }

    /// The pattern this regex was compiled from.
    pub fn as_str(&self) -> (r: &str)
        ensures
            r@ == self.pattern_view(),
    {
        self.pattern.as_str()
    }

    /// Whether the regex matches somewhere in `text`.
    pub fn is_match(&self, text: &str) -> (r: bool)
        ensures
            r == regex_matches(self.pattern_view(), text@),
    {
        regex_is_match(self, text)
    }
}

impl Clone for CompiledRegex {
    fn clone(&self) -> (r: Self)
        ensures
            r == *self,
    {
        CompiledRegex { pattern: self.pattern.clone(), regex: share(&self.regex) }
    }
}

/// Calls `regex::Regex::new`; fails exactly where it fails.
#[verifier::external_body]
fn compile_regex(pattern: &str) -> (r: Result<regex::Regex, regex::Error>)
    ensures
        r is Ok <==> regex_accepts(pattern@),
{
    regex::Regex::new(pattern)
}

/// Calls `regex::Regex::is_match`. A `CompiledRegex` is only made by
/// `CompiledRegex::new`, which stores the regex compiled from its own pattern, so the
/// answer is the one the name gives for that pattern.
#[verifier::external_body]
fn regex_is_match(r: &CompiledRegex, text: &str) -> (b: bool)
    ensures
        b == regex_matches(r.pattern@, text@),
{
    r.regex.is_match(text)
}

} // verus!
