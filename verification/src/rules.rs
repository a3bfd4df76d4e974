//! Rules that associate documents with schemas: glob patterns over file paths, regular
//! expressions over URLs, and exact URLs.
use vstd::prelude::*;
use crate::bindings::{
    CompiledGlobSet, CompiledRegex, glob_accepts, glob_set_accepts, glob_set_matches, regex_accepts, regex_matches,
    string_views,
    percent_decode_utf8, percent_decoded, opt_view,
};
use crate::location::{ParsedUrl, UrlView};
use crate::text::{chars_of, owned, str_equal};

verus! {

/// The text `s` after percent-decoding, where the decoded bytes are UTF-8; else `s`.
pub open spec fn normalized(s: Seq<char>) -> Seq<char> {
    match percent_decoded(s) {
        Some(d) => d,
        None => s,
    }
}

/// Percent-decodes `s` where the result is UTF-8; else gives `s` back.
pub fn normalize_str(s: &str) -> (r: String)
    ensures
        r@ == normalized(s@),
{
    match percent_decode_utf8(s) {
        Some(d) => d,
        None => owned(s),
    }
}

/// The metadata of a schema association.
pub struct AssociationMeta {
    /// The schema's name.
    pub name: Option<String>,
    /// The schema's description.
    pub description: Option<String>,
    /// Where the association comes from (see the `source` module).
    pub source: Option<String>,
    /// The catalog the association comes from.
    pub catalog_url: Option<String>,
}

/// The metadata of a schema association, as texts.
pub struct MetaView {
    pub name: Option<Seq<char>>,
    pub description: Option<Seq<char>>,
    pub source: Option<Seq<char>>,
    pub catalog_url: Option<Seq<char>>,
}

impl View for AssociationMeta {
    type V = MetaView;

    open spec fn view(&self) -> MetaView {
        MetaView {
            name: opt_view(self.name),
            description: opt_view(self.description),
            source: opt_view(self.source),
            catalog_url: opt_view(self.catalog_url),
        }
    }
}

/// A copy of an optional string.
fn clone_opt(o: &Option<String>) -> (r: Option<String>)
    ensures
        r == *o,
{
    match o {
        Some(s) => Some(s.clone()),
        None => None,
    }
}

/// Whether two optional strings hold the same text.
fn opt_equal(a: &Option<String>, b: &Option<String>) -> (r: bool)
    ensures
        r == (opt_view(*a) == opt_view(*b)),
{
    match (a, b) {
        (Some(x), Some(y)) => str_equal(x.as_str(), y.as_str()),
        (None, None) => true,
        _ => false,
    }
}

impl AssociationMeta {
    /// Metadata that records only where the association comes from.
    pub fn from_source(source: &str) -> (r: AssociationMeta)
        ensures
            r@ == (MetaView { name: None, description: None, source: Some(source@), catalog_url: None }),
    {
        AssociationMeta { name: None, description: None, source: Some(owned(source)), catalog_url: None }
    }

    /// Whether two metadata records hold the same texts.
    pub fn same_as(&self, other: &AssociationMeta) -> (r: bool)
        ensures
            r == (self@ == other@),
    {
        opt_equal(&self.name, &other.name) && opt_equal(&self.description, &other.description)
            && opt_equal(&self.source, &other.source) && opt_equal(&self.catalog_url, &other.catalog_url)
    }

    /// Whether the association comes from the source `source`.
    pub fn has_source(&self, source: &str) -> (r: bool)
        ensures
            r == (self@.source == Some(source@)),
    {
        match &self.source {
            Some(s) => str_equal(s.as_str(), source),
            None => false,
        }
    }
}

impl Clone for AssociationMeta {
    fn clone(&self) -> (r: Self)
        ensures
            r == *self,
    {
        AssociationMeta {
            name: clone_opt(&self.name),
            description: clone_opt(&self.description),
            source: clone_opt(&self.source),
            catalog_url: clone_opt(&self.catalog_url),
        }
    }
}

/// An association of documents with a schema.
pub struct SchemaAssociation {
    /// The association's metadata.
    pub meta: AssociationMeta,
    /// The schema's URL.
    pub url: ParsedUrl,
    /// The association's priority (see the `priority` module).
    pub priority: usize,
}

impl Clone for SchemaAssociation {
    fn clone(&self) -> (r: Self)
        ensures
            r == *self,
    {
        SchemaAssociation { meta: self.meta.clone(), url: self.url.clone(), priority: self.priority }
    }
}

/// Two associations name the same schema URL with the same metadata.
pub open spec fn same_association(a: SchemaAssociation, b: SchemaAssociation) -> bool {
    a.url@.text == b.url@.text && a.meta@ == b.meta@
}

impl SchemaAssociation {
    /// Whether the two associations name the same schema URL with the same metadata.
    pub fn same_as(&self, other: &SchemaAssociation) -> (r: bool)
        ensures
            r == same_association(*self, *other),
    {
        self.url.same_as(&other.url) && self.meta.same_as(&other.meta)
    }
}

/// A rule over file paths: some pattern matches and no excluding pattern does.
pub struct GlobRule {
    accepted: CompiledGlobSet,
    rejected: CompiledGlobSet,
}

impl GlobRule {
    /// The patterns a path must match (one of them).
    pub closed spec fn accept_patterns(&self) -> Seq<Seq<char>> {
        self.accepted.patterns_view()
    }

    /// The patterns a path must not match.
    pub closed spec fn reject_patterns(&self) -> Seq<Seq<char>> {
        self.rejected.patterns_view()
    }

    /// The set of accepted patterns and not the set of rejected ones matches `path`.
    pub open spec fn selects(&self, path: Seq<char>) -> bool {
        glob_set_matches(self.accept_patterns(), path) && !glob_set_matches(self.reject_patterns(), path)
    }

    /// A rule from the patterns a path must match and those it must not match; fails where
    /// either set does not compile. No patterns at all always compile.
    pub fn new(patterns: &[String], excludes: &[String]) -> (r: Result<GlobRule, globset::Error>)
        ensures
            r is Ok <==> glob_set_accepts(string_views(patterns@)) && glob_set_accepts(string_views(excludes@)),
            excludes@.len() == 0 ==> glob_set_accepts(string_views(excludes@)),
            r matches Ok(g) ==> g.accept_patterns() == string_views(patterns@) && g.reject_patterns() == string_views(excludes@),
    {
        let exc = CompiledGlobSet::new(excludes);
        let inc = match CompiledGlobSet::new(patterns) {
            Ok(v) => v,
            Err(e) => {
                return Err(e);
            },
        };
        match exc {
            Ok(exc) => Ok(GlobRule { accepted: inc, rejected: exc }),
            Err(e) => Err(e),
        }
    }

    /// Whether the two rules were made from the same patterns and the same excluding
    /// patterns.
    pub fn same_patterns(&self, other: &GlobRule) -> (r: bool)
        ensures
            r == same_glob_rule(*self, *other),
    {
        self.accepted.same_patterns(&other.accepted) && self.rejected.same_patterns(&other.rejected)
    }

    /// Whether the accepted patterns and not the rejected ones match the path `text`.
    pub fn is_match(&self, text: &str) -> (r: bool)
        ensures
            r == self.selects(text@),
    {
        if !self.accepted.is_match(text) {
            return false;
        }
        !self.rejected.is_match(text)
    }
}

/// Two glob rules were made from the same patterns and the same excluding patterns.
pub open spec fn same_glob_rule(g: GlobRule, h: GlobRule) -> bool {
    g.accept_patterns() == h.accept_patterns() && g.reject_patterns() == h.reject_patterns()
}

impl Clone for GlobRule {
    fn clone(&self) -> (r: Self)
        ensures
            r == *self,
    {
        GlobRule { accepted: self.accepted.clone(), rejected: self.rejected.clone() }
    }
}

/// The reasons a rule cannot be made.
#[derive(Debug)]
pub enum RuleError {
    /// A glob pattern does not compile.
    Glob(globset::Error),
    /// A regular expression does not compile.
    Regex(regex::Error),
}

/// A rule that selects the documents a schema applies to.
pub enum AssociationRule {
    /// Documents whose path (the URL without its scheme and `://`) the glob rule matches.
    Glob(GlobRule),
    /// Documents whose URL the regular expression matches.
    Regex(CompiledRegex),
    /// The document at exactly this URL.
    Url(ParsedUrl),
}

impl Clone for AssociationRule {
    fn clone(&self) -> (r: Self)
        ensures
            r == *self,
    {
        match self {
            AssociationRule::Glob(g) => AssociationRule::Glob(g.clone()),
            AssociationRule::Regex(x) => AssociationRule::Regex(x.clone()),
            AssociationRule::Url(u) => AssociationRule::Url(u.clone()),
        }
    }
}

/// The URL `u` has `://` right after its scheme.
pub open spec fn has_authority(u: UrlView) -> bool {
    let n = u.scheme.len() as int;
    &&& u.text.len() >= n + 3
    &&& u.text[n] == ':'
    &&& u.text[n + 1] == '/'
    &&& u.text[n + 2] == '/'
}

/// The path of `u` as glob rules see it: the URL without its scheme and `://`.
pub open spec fn url_path(u: UrlView) -> Seq<char> {
    u.text.skip(u.scheme.len() + 3int)
}

/// Whether the rule selects the document at `u`.
pub open spec fn rule_matches(rule: AssociationRule, u: UrlView) -> bool {
    match rule {
        AssociationRule::Glob(g) => g.selects(normalized(url_path(u))),
        AssociationRule::Regex(r) => regex_matches(r.pattern_view(), normalized(u.text)),
        AssociationRule::Url(v) => v@.text == u.text,
    }
}

impl AssociationRule {
    /// A glob rule with the one pattern `pattern` and nothing excluded.
    pub fn glob(pattern: &str) -> (r: Result<AssociationRule, RuleError>)
        ensures
            r is Ok <==> glob_accepts(pattern@),
            r matches Ok(rule) ==> (rule matches AssociationRule::Glob(g)
                && g.accept_patterns() == seq![pattern@] && g.reject_patterns().len() == 0),
    {
        let mut wanted: Vec<String> = Vec::new();
        wanted.push(owned(pattern));
        let unwanted: Vec<String> = Vec::new();
        assert(string_views(wanted@) =~= seq![pattern@]);
        assert(string_views(unwanted@) =~= Seq::<Seq<char>>::empty());
        match GlobRule::new(wanted.as_slice(), unwanted.as_slice()) {
            Ok(g) => Ok(AssociationRule::Glob(g)),
            Err(e) => Err(RuleError::Glob(e)),
        }
    }

    /// A regular-expression rule.
    pub fn regex(regex: &str) -> (r: Result<AssociationRule, RuleError>)
        ensures
            r is Ok <==> regex_accepts(regex@),
            r matches Ok(rule) ==> (rule matches AssociationRule::Regex(x) && x.pattern_view() == regex@),
    {
        match CompiledRegex::new(regex) {
            Ok(x) => Ok(AssociationRule::Regex(x)),
            Err(e) => Err(RuleError::Regex(e)),
        }
    }

    /// Whether the rule selects the document at `url`. A glob rule reads the URL without its
    /// scheme and `://`, so it needs the URL to have `://` after its scheme.
    pub fn is_match(&self, url: &ParsedUrl) -> (r: bool)
        requires
            self is Glob ==> has_authority(url@),
        ensures
            r == rule_matches(*self, url@),
    {
        match self {
            AssociationRule::Glob(g) => {
                let path = url_path_text(url);
                g.is_match(normalize_str(path.as_str()).as_str())
            },
            AssociationRule::Regex(x) => x.is_match(normalize_str(url.as_str()).as_str()),
            AssociationRule::Url(u) => u.same_as(url),
        }
    }
}

/// The URL without its scheme and the `://` after it.
pub(crate) fn url_path_text(url: &ParsedUrl) -> (r: String)
    requires
        has_authority(url@),
    ensures
        r@ == url_path(url@),
{
    let text = url.as_str();
    let scheme = url.scheme();
    let n = scheme.unicode_len();
    let len = text.unicode_len();
    owned(text.substring_char(n + 3, len))
}

/// Whether the URL has `://` right after its scheme.
pub fn url_has_authority(url: &ParsedUrl) -> (r: bool)
    ensures
        r == has_authority(url@),
{
    let t = chars_of(url.as_str());
    let n = url.scheme().unicode_len();
    if t.len() < 3 || n > t.len() - 3 {
        return false;
    }
    t[n] == ':' && t[n + 1] == '/' && t[n + 2] == '/'
}

} // verus!
