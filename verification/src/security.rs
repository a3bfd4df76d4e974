//! Security policy for loading schemas: which URLs, files and contents are accepted, and
//! the audit log of each decision.
use core::time::Duration;
use std::time::Instant;
use vstd::prelude::*;
use crate::bindings::{json_check, json_syntax_error};
use crate::location::{ParsedUrl, UrlView};
use crate::paths::{lexical_normal, normal_form};
use crate::platform::{duration_from_secs, duration_of_secs, instant_now, path_has_prefix, path_starts_with};
use crate::text::{chars_of, clone_all, decimal, is_prefix_of, owned, str_equal, str_starts_with, usize_to_string};

verus! {

/// Security configuration for schema loading.
pub struct SchemaSecurityConfig {
    /// Maximum allowed schema size in bytes.
    pub max_schema_size: usize,
    /// Maximum recursion depth for schema references.
    pub max_recursion_depth: usize,
    /// Maximum time allowed for schema resolution.
    pub resolution_timeout: Duration,
    /// Maximum concurrent schema requests.
    pub max_concurrent_requests: usize,
    /// Allowed URL schemes (a set: the order and repeats carry no meaning).
    pub allowed_schemes: Vec<String>,
    /// Allowed URL patterns.
    pub allowed_urls: Vec<String>,
    /// Blocked URL patterns.
    pub blocked_urls: Vec<String>,
    /// Allowed file paths.
    pub allowed_file_paths: Vec<String>,
    /// Blocked file paths.
    pub blocked_file_paths: Vec<String>,
    /// Whether to allow localhost and internal network access.
    pub allow_localhost: bool,
    /// Whether to allow access to files.
    pub allow_file_scheme: bool,
    /// Whether to run the integrity check on schema contents.
    pub validate_integrity: bool,
    /// Whether to record security events in the audit log.
    pub audit_logging: bool,
}

/// The texts of a list of strings.
pub open spec fn texts(v: Seq<String>) -> Seq<Seq<char>> {
    v.map_values(|s: String| s@)
}

/// The texts of `v` are its strings' views, one for one.
pub proof fn lemma_texts(v: Seq<String>)
    ensures
        texts(v).len() == v.len(),
        forall|i: int| 0 <= i < v.len() ==> #[trigger] texts(v)[i] == v[i]@,
{
}

/// `t` is one of the strings of `v`.
pub open spec fn contains_text(v: Seq<String>, t: Seq<char>) -> bool {
    exists|i: int| 0 <= i < v.len() && #[trigger] v[i]@ == t
}

/// Whether `url` matches the simple glob `pattern`: a pattern ending in `/**` matches every
/// URL that starts with the pattern without its two final characters (so with the `/`), a pattern ending in
/// `*` every URL that starts with the pattern without it, and any other pattern only the
/// URL equal to it.
pub open spec fn pattern_matches(url: Seq<char>, pattern: Seq<char>) -> bool {
    let n = pattern.len();
    if n >= 3 && pattern[n - 3] == '/' && pattern[n - 2] == '*' && pattern[n - 1] == '*' {
        is_prefix_of(pattern.take(n - 2), url)
    } else if n >= 1 && pattern[n - 1] == '*' {
        is_prefix_of(pattern.take(n - 1), url)
    } else {
        url == pattern
    }
}

/// Some pattern of `patterns` matches `url`.
pub open spec fn some_pattern_matches(patterns: Seq<String>, url: Seq<char>) -> bool {
    exists|i: int| 0 <= i < patterns.len() && pattern_matches(url, #[trigger] patterns[i]@)
}

/// The allowlist admits `url`: it is empty, or one of its patterns matches.
pub open spec fn url_allowed_by(cfg: SchemaSecurityConfig, url: Seq<char>) -> bool {
    cfg.allowed_urls@.len() == 0 || some_pattern_matches(cfg.allowed_urls@, url)
}

/// The blocklist refuses `url`: one of its patterns matches.
pub open spec fn url_blocked_by(cfg: SchemaSecurityConfig, url: Seq<char>) -> bool {
    some_pattern_matches(cfg.blocked_urls@, url)
}

/// The host names the guard treats as the local machine or an internal network.
pub open spec fn is_internal_host(host: Option<Seq<char>>) -> bool {
    match host {
        Some(h) => {
            ||| h == "localhost"@
            ||| h == "127.0.0.1"@
            ||| h == "::1"@
            ||| h == "[::1]"@
            ||| is_prefix_of("192.168."@, h)
            ||| is_prefix_of("10."@, h)
            ||| is_prefix_of("172."@, h)
        },
        None => false,
    }
}

/// Why a URL is refused.
#[derive(PartialEq, Eq, Structural, Clone, Copy, Debug)]
pub enum UrlRefusal {
    /// Its scheme is not among the allowed schemes.
    SchemeNotAllowed,
    /// It names the local machine or an internal network.
    Internal,
    /// No pattern of the allowlist matches it.
    NotAllowed,
    /// A pattern of the blocklist matches it.
    Blocked,
}

/// The first check that refuses the URL `u` under `cfg`, in the order the guard runs
/// them; `None` where every check passes.
pub open spec fn url_refusal(cfg: SchemaSecurityConfig, u: UrlView) -> Option<UrlRefusal> {
    if !contains_text(cfg.allowed_schemes@, u.scheme) {
        Some(UrlRefusal::SchemeNotAllowed)
    } else if !cfg.allow_localhost && is_internal_host(u.host) {
        Some(UrlRefusal::Internal)
    } else if !url_allowed_by(cfg, u.text) {
        Some(UrlRefusal::NotAllowed)
    } else if url_blocked_by(cfg, u.text) {
        Some(UrlRefusal::Blocked)
    } else {
        None
    }
}

/// The reason the audit log records for a refused URL.
pub open spec fn url_refusal_reason(r: UrlRefusal) -> Seq<char> {
    match r {
        UrlRefusal::SchemeNotAllowed => "Scheme not allowed"@,
        UrlRefusal::Internal => "Localhost/internal network access blocked"@,
        UrlRefusal::NotAllowed => "URL pattern not allowed"@,
        UrlRefusal::Blocked => "URL pattern blocked"@,
    }
}

/// Some path of `bases` is a leading part of `path`, as `Path::starts_with` reads them,
/// once both are in lexical normal form: a path that climbs out of a base with `..` is
/// not under it.
pub open spec fn under_some(bases: Seq<String>, path: Seq<char>) -> bool {
    exists|i: int| 0 <= i < bases.len() && path_has_prefix(lexical_normal(path), lexical_normal(#[trigger] bases[i]@))
}

/// Why a file path is refused.
#[derive(PartialEq, Eq, Structural, Clone, Copy, Debug)]
pub enum PathRefusal {
    /// Access to files is off.
    FileSchemeNotAllowed,
    /// The path lies under a blocked path.
    Blocked,
    /// The path lies under no allowed path (or the allowlist is empty).
    NotAllowed,
}

/// The first check that refuses the file path `p` under `cfg`; `None` where every check
/// passes.
pub open spec fn path_refusal(cfg: SchemaSecurityConfig, p: Seq<char>) -> Option<PathRefusal> {
    if !cfg.allow_file_scheme {
        Some(PathRefusal::FileSchemeNotAllowed)
    } else if under_some(cfg.blocked_file_paths@, p) {
        Some(PathRefusal::Blocked)
    } else if cfg.allowed_file_paths@.len() == 0 || !under_some(cfg.allowed_file_paths@, p) {
        Some(PathRefusal::NotAllowed)
    } else {
        None
    }
}

/// The reason the audit log records for a refused file path.
pub open spec fn path_refusal_reason(r: PathRefusal) -> Seq<char> {
    match r {
        PathRefusal::FileSchemeNotAllowed => "File scheme not allowed"@,
        PathRefusal::Blocked => "Path blocked"@,
        PathRefusal::NotAllowed => "Path not explicitly allowed"@,
    }
}

/// The reason the audit log records for content over the size limit.
pub open spec fn size_reason(len: nat, limit: nat) -> Seq<char> {
    "Content size "@ + decimal(len) + " exceeds limit "@ + decimal(limit)
}

/// Security audit events.
pub enum SecurityAuditEvent {
    /// A URL passed every check.
    UrlAllowed { url: ParsedUrl, timestamp: Instant },
    /// A URL was refused.
    UrlBlocked { url: ParsedUrl, reason: String, timestamp: Instant },
    /// A file path passed every check.
    FileAccessAllowed { path: String, timestamp: Instant },
    /// A file path was refused.
    FileAccessBlocked { path: String, reason: String, timestamp: Instant },
    /// Schema content passed every check.
    ContentValidationPassed { url: ParsedUrl, timestamp: Instant },
    /// Schema content was refused.
    ContentValidationFailed { url: ParsedUrl, reason: String, timestamp: Instant },
    /// The integrity check on schema content passed.
    IntegrityCheckPassed { url: ParsedUrl, timestamp: Instant },
    /// A reference chain went deeper than the limit.
    RecursionLimitExceeded { depth: usize, limit: usize, timestamp: Instant },
}

/// Security-related errors.
#[derive(Debug)]
pub enum SecurityError {
    /// The scheme (given) is not allowed.
    SchemeNotAllowed(String),
    /// Localhost/internal network access is blocked.
    LocalhostAccessBlocked,
    /// The URL (given) matches no allowed pattern.
    UrlPatternNotAllowed(String),
    /// The URL (given) matches a blocked pattern.
    UrlPatternBlocked(String),
    /// File access is not allowed.
    FileSchemeNotAllowed,
    /// The file path (given) is blocked.
    FilePathBlocked(String),
    /// The file path (given) is not explicitly allowed.
    FilePathNotAllowed(String),
    /// The content size (first) exceeds the limit (second).
    ContentTooLarge(usize, usize),
    /// The content is not valid JSON; the parser's message is given.
    InvalidJson(String),
    /// The depth (first) exceeds the limit (second).
    RecursionDepthExceeded(usize, usize),
}

/// `after` is `before` with `k` more events at its end.
pub open spec fn appended(before: Seq<SecurityAuditEvent>, after: Seq<SecurityAuditEvent>, k: nat) -> bool {
    after.len() == before.len() + k && after.take(before.len() as int) == before
}

/// The event a URL check records: `UrlAllowed` for `url`, or `UrlBlocked` for `url` with
/// the reason of the refusal.
pub open spec fn url_event(e: SecurityAuditEvent, url: UrlView, refusal: Option<UrlRefusal>) -> bool {
    match refusal {
        None => (e matches SecurityAuditEvent::UrlAllowed { url: u, .. } && u@ == url),
        Some(r) => (e matches SecurityAuditEvent::UrlBlocked { url: u, reason, .. }
            && u@ == url && reason@ == url_refusal_reason(r)),
    }
}

/// The event a file-path check records.
pub open spec fn path_event(e: SecurityAuditEvent, path: Seq<char>, refusal: Option<PathRefusal>) -> bool {
    match refusal {
        None => (e matches SecurityAuditEvent::FileAccessAllowed { path: p, .. } && p@ == path),
        Some(r) => (e matches SecurityAuditEvent::FileAccessBlocked { path: p, reason, .. }
            && p@ == path && reason@ == path_refusal_reason(r)),
    }
}

/// The reason the audit log records for refused content: over the size limit, or else
/// not JSON.
pub open spec fn content_refusal_reason(content: Seq<u8>, limit: usize) -> Seq<char> {
    if content.len() > limit {
        size_reason(content.len(), limit as nat)
    } else {
        "Invalid JSON: "@ + json_syntax_error(content)->0
    }
}

/// `e` records refused content from `url` with `reason`.
pub open spec fn content_failed_event(e: SecurityAuditEvent, url: UrlView, reason: Seq<char>) -> bool {
    e matches SecurityAuditEvent::ContentValidationFailed { url: u, reason: r, .. } && u@ == url && r@ == reason
}

/// `e` records a passed integrity check of content from `url`.
pub open spec fn integrity_event(e: SecurityAuditEvent, url: UrlView) -> bool {
    e matches SecurityAuditEvent::IntegrityCheckPassed { url: u, .. } && u@ == url
}

/// `e` records accepted content from `url`.
pub open spec fn content_passed_event(e: SecurityAuditEvent, url: UrlView) -> bool {
    e matches SecurityAuditEvent::ContentValidationPassed { url: u, .. } && u@ == url
}

/// `e` records a refused reference depth.
pub open spec fn depth_event(e: SecurityAuditEvent, depth: usize, limit: usize) -> bool {
    e matches SecurityAuditEvent::RecursionLimitExceeded { depth: d, limit: l, .. } && d == depth && l == limit
}

/// Security guard for schema loading operations.
pub struct SchemaSecurityGuard {
    config: SchemaSecurityConfig,
    audit_log: Vec<SecurityAuditEvent>,
}

impl SchemaSecurityGuard {
    /// The configuration the guard enforces.
    pub closed spec fn spec_config(&self) -> SchemaSecurityConfig {
        self.config
    }

    /// The events recorded so far, oldest first.
    pub closed spec fn spec_log(&self) -> Seq<SecurityAuditEvent> {
        self.audit_log@
    }

    /// A guard enforcing `config`, with an empty audit log.
    pub fn new(config: SchemaSecurityConfig) -> (g: Self)
        ensures
            g.spec_config() == config,
            g.spec_log().len() == 0,
    {
        SchemaSecurityGuard { config, audit_log: Vec::new() }
    }

    /// Records `event` where audit logging is on.
    fn log_audit_event(&mut self, event: SecurityAuditEvent)
        ensures
            final(self).config == old(self).config,
            final(self).audit_log@ == if old(self).config.audit_logging {
                old(self).audit_log@.push(event)
            } else {
                old(self).audit_log@
            },
    {
        if self.config.audit_logging {
            self.audit_log.push(event);
        }
    }

    /// Checks a URL before it is fetched: its scheme must be allowed, it must not name an
    /// internal host (unless that is allowed), the allowlist must admit it and the
    /// blocklist must not refuse it. The first failing check decides the error, and the
    /// decision is recorded in the audit log.
    pub fn validate_url(&mut self, url: &ParsedUrl) -> (r: Result<(), SecurityError>)
        ensures
            final(self).spec_config() == old(self).spec_config(),
            match url_refusal(old(self).spec_config(), url@) {
                None => r is Ok,
                Some(UrlRefusal::SchemeNotAllowed) => (r matches Err(SecurityError::SchemeNotAllowed(s)) && s@ == url@.scheme),
                Some(UrlRefusal::Internal) => r matches Err(SecurityError::LocalhostAccessBlocked),
                Some(UrlRefusal::NotAllowed) => (r matches Err(SecurityError::UrlPatternNotAllowed(s)) && s@ == url@.text),
                Some(UrlRefusal::Blocked) => (r matches Err(SecurityError::UrlPatternBlocked(s)) && s@ == url@.text),
            },
            old(self).spec_config().audit_logging ==> appended(old(self).spec_log(), final(self).spec_log(), 1)
                && url_event(final(self).spec_log().last(), url@, url_refusal(old(self).spec_config(), url@)),
            !old(self).spec_config().audit_logging ==> final(self).spec_log() == old(self).spec_log(),
    {
        let start_time = instant_now();
        let ghost cfg = self.config;
        let ghost log0 = self.audit_log@;
        let scheme = url.scheme();
        if !self.scheme_allowed(scheme) {
            let ev = SecurityAuditEvent::UrlBlocked { url: url.clone(), reason: owned("Scheme not allowed"), timestamp: start_time };
            self.log_audit_event(ev);
            proof { self.lemma_log_push(log0, cfg, ev); }
            return Err(SecurityError::SchemeNotAllowed(owned(scheme)));
        }
        if !self.config.allow_localhost && is_localhost_or_internal(url) {
            let ev = SecurityAuditEvent::UrlBlocked { url: url.clone(), reason: owned("Localhost/internal network access blocked"), timestamp: start_time };
            self.log_audit_event(ev);
            proof { self.lemma_log_push(log0, cfg, ev); }
            return Err(SecurityError::LocalhostAccessBlocked);
        }
        if !self.is_url_allowed(url) {
            let ev = SecurityAuditEvent::UrlBlocked { url: url.clone(), reason: owned("URL pattern not allowed"), timestamp: start_time };
            self.log_audit_event(ev);
            proof { self.lemma_log_push(log0, cfg, ev); }
            return Err(SecurityError::UrlPatternNotAllowed(url.to_text()));
        }
        if self.is_url_blocked(url) {
            let ev = SecurityAuditEvent::UrlBlocked { url: url.clone(), reason: owned("URL pattern blocked"), timestamp: start_time };
            self.log_audit_event(ev);
            proof { self.lemma_log_push(log0, cfg, ev); }
            return Err(SecurityError::UrlPatternBlocked(url.to_text()));
        }
        let ev = SecurityAuditEvent::UrlAllowed { url: url.clone(), timestamp: start_time };
        self.log_audit_event(ev);
        proof { self.lemma_log_push(log0, cfg, ev); }
        Ok(())
    }

    /// After one recorded event, the log is the old log with that event at its end.
    proof fn lemma_log_push(&self, log0: Seq<SecurityAuditEvent>, cfg: SchemaSecurityConfig, ev: SecurityAuditEvent)
        requires
            self.config == cfg,
            self.audit_log@ == if cfg.audit_logging { log0.push(ev) } else { log0 },
        ensures
            cfg.audit_logging ==> appended(log0, self.audit_log@, 1) && self.audit_log@.last() == ev,
            !cfg.audit_logging ==> self.audit_log@ == log0,
    {
        if cfg.audit_logging {
            assert(self.audit_log@.take(log0.len() as int) =~= log0);
        }
    }

    /// Whether `scheme` is one of the allowed schemes.
    fn scheme_allowed(&self, scheme: &str) -> (r: bool)
        ensures
            r == contains_text(self.config.allowed_schemes@, scheme@),
    {
        self.config.allows_scheme(scheme)
    }

    /// Whether the allowlist admits the URL.
    fn is_url_allowed(&self, url: &ParsedUrl) -> (r: bool)
        ensures
            r == url_allowed_by(self.config, url@.text),
    {
        if self.config.allowed_urls.len() == 0 {
            return true;
        }
        any_pattern_matches(&self.config.allowed_urls, url.as_str())
    }

    /// Whether the blocklist refuses the URL.
    fn is_url_blocked(&self, url: &ParsedUrl) -> (r: bool)
        ensures
            r == url_blocked_by(self.config, url@.text),
    {
        any_pattern_matches(&self.config.blocked_urls, url.as_str())
    }

    /// Checks a file path before it is read: access to files must be on, the path must lie
    /// under no blocked path and under some allowed path, both read in lexical normal form
    /// (so a `..` step that leaves an allowed directory leaves it). The first failing check
    /// decides the error, which carries the path as given, and the decision is recorded in
    /// the audit log.
    pub fn validate_file_path(&mut self, path: &str) -> (r: Result<(), SecurityError>)
        ensures
            final(self).spec_config() == old(self).spec_config(),
            match path_refusal(old(self).spec_config(), path@) {
                None => r is Ok,
                Some(PathRefusal::FileSchemeNotAllowed) => r matches Err(SecurityError::FileSchemeNotAllowed),
                Some(PathRefusal::Blocked) => (r matches Err(SecurityError::FilePathBlocked(p)) && p@ == path@),
                Some(PathRefusal::NotAllowed) => (r matches Err(SecurityError::FilePathNotAllowed(p)) && p@ == path@),
            },
            old(self).spec_config().audit_logging ==> appended(old(self).spec_log(), final(self).spec_log(), 1)
                && path_event(final(self).spec_log().last(), path@, path_refusal(old(self).spec_config(), path@)),
            !old(self).spec_config().audit_logging ==> final(self).spec_log() == old(self).spec_log(),
    {
        let start_time = instant_now();
        let ghost cfg = self.config;
        let ghost log0 = self.audit_log@;
        if !self.config.allow_file_scheme {
            let ev = SecurityAuditEvent::FileAccessBlocked { path: owned(path), reason: owned("File scheme not allowed"), timestamp: start_time };
            self.log_audit_event(ev);
            proof { self.lemma_log_push(log0, cfg, ev); }
            return Err(SecurityError::FileSchemeNotAllowed);
        }
        if self.is_path_blocked(path) {
            let ev = SecurityAuditEvent::FileAccessBlocked { path: owned(path), reason: owned("Path blocked"), timestamp: start_time };
            self.log_audit_event(ev);
            proof { self.lemma_log_push(log0, cfg, ev); }
            return Err(SecurityError::FilePathBlocked(owned(path)));
        }
        if !self.is_path_allowed(path) {
            let ev = SecurityAuditEvent::FileAccessBlocked { path: owned(path), reason: owned("Path not explicitly allowed"), timestamp: start_time };
            self.log_audit_event(ev);
            proof { self.lemma_log_push(log0, cfg, ev); }
            return Err(SecurityError::FilePathNotAllowed(owned(path)));
        }
        let ev = SecurityAuditEvent::FileAccessAllowed { path: owned(path), timestamp: start_time };
        self.log_audit_event(ev);
        proof { self.lemma_log_push(log0, cfg, ev); }
        Ok(())
    }

    /// Whether the path lies under some allowed path; an empty allowlist admits nothing.
    fn is_path_allowed(&self, path: &str) -> (r: bool)
        ensures
            r == (self.config.allowed_file_paths@.len() > 0 && under_some(self.config.allowed_file_paths@, path@)),
    {
        if self.config.allowed_file_paths.len() == 0 {
            return false;
        }
        any_path_under(&self.config.allowed_file_paths, path)
    }

    /// Whether the path lies under some blocked path.
    fn is_path_blocked(&self, path: &str) -> (r: bool)
        ensures
            r == under_some(self.config.blocked_file_paths@, path@),
    {
        any_path_under(&self.config.blocked_file_paths, path)
    }

    /// Checks schema content after it is fetched from `url`: it must be no longer than the
    /// size limit and must parse as JSON. Refusals, the integrity check (where it is on)
    /// and the final pass are recorded in the audit log.
    pub fn validate_schema_content(&mut self, content: &[u8], url: &ParsedUrl) -> (r: Result<(), SecurityError>)
        ensures
            final(self).spec_config() == old(self).spec_config(),
            content@.len() > old(self).spec_config().max_schema_size ==> (
                r matches Err(SecurityError::ContentTooLarge(n, m)) && n == content@.len() && m == old(self).spec_config().max_schema_size),
            content@.len() <= old(self).spec_config().max_schema_size && json_syntax_error(content@) is Some ==> (
                r matches Err(SecurityError::InvalidJson(msg)) && msg@ == json_syntax_error(content@)->0),
            r is Ok <==> content@.len() <= old(self).spec_config().max_schema_size && json_syntax_error(content@) is None,
            !old(self).spec_config().audit_logging ==> final(self).spec_log() == old(self).spec_log(),
            old(self).spec_config().audit_logging && r is Err ==> appended(old(self).spec_log(), final(self).spec_log(), 1)
                && content_failed_event(final(self).spec_log().last(), url@, content_refusal_reason(content@, old(self).spec_config().max_schema_size)),
            old(self).spec_config().audit_logging && r is Ok && old(self).spec_config().validate_integrity ==>
                appended(old(self).spec_log(), final(self).spec_log(), 2)
                && integrity_event(final(self).spec_log()[final(self).spec_log().len() - 2], url@)
                && content_passed_event(final(self).spec_log().last(), url@),
            old(self).spec_config().audit_logging && r is Ok && !old(self).spec_config().validate_integrity ==>
                appended(old(self).spec_log(), final(self).spec_log(), 1)
                && content_passed_event(final(self).spec_log().last(), url@),
    {
        let start_time = instant_now();
        let ghost cfg = self.config;
        let ghost log0 = self.audit_log@;
        let len = content.len();
        if len > self.config.max_schema_size {
            let mut reason = owned("Content size ");
            reason.append(usize_to_string(len).as_str());
            reason.append(" exceeds limit ");
            reason.append(usize_to_string(self.config.max_schema_size).as_str());
            let ev = SecurityAuditEvent::ContentValidationFailed { url: url.clone(), reason, timestamp: start_time };
            self.log_audit_event(ev);
            proof { self.lemma_log_push(log0, cfg, ev); }
            return Err(SecurityError::ContentTooLarge(len, self.config.max_schema_size));
        }
        match json_check(content) {
            Some(msg) => {
                let mut reason = owned("Invalid JSON: ");
                reason.append(msg.as_str());
                let ev = SecurityAuditEvent::ContentValidationFailed { url: url.clone(), reason, timestamp: start_time };
                self.log_audit_event(ev);
                proof { self.lemma_log_push(log0, cfg, ev); }
                return Err(SecurityError::InvalidJson(msg));
            },
            None => {},
        }
        let ghost log1 = self.audit_log@;
        if self.config.validate_integrity {
            let ev = SecurityAuditEvent::IntegrityCheckPassed { url: url.clone(), timestamp: start_time };
            self.log_audit_event(ev);
            proof { self.lemma_log_push(log0, cfg, ev); }
        }
        let ghost log2 = self.audit_log@;
        let ev = SecurityAuditEvent::ContentValidationPassed { url: url.clone(), timestamp: start_time };
        self.log_audit_event(ev);
        proof {
            self.lemma_log_push(log2, cfg, ev);
            if cfg.audit_logging {
                assert(self.audit_log@.take(log0.len() as int) =~= log0);
                if cfg.validate_integrity {
                    assert(self.audit_log@[self.audit_log@.len() - 2] == log2.last());
                }
            }
        }
        Ok(())
    }

    /// Checks a reference depth against the limit; a depth over the limit is refused and
    /// recorded in the audit log.
    pub fn check_recursion_depth(&mut self, current_depth: usize) -> (r: Result<(), SecurityError>)
        ensures
            final(self).spec_config() == old(self).spec_config(),
            r is Ok <==> depth_accepted(old(self).spec_config(), current_depth as nat),
            r is Err ==> (r matches Err(SecurityError::RecursionDepthExceeded(d, l))
                && d == current_depth && l == old(self).spec_config().max_recursion_depth),
            r is Ok || !old(self).spec_config().audit_logging ==> final(self).spec_log() == old(self).spec_log(),
            r is Err && old(self).spec_config().audit_logging ==> appended(old(self).spec_log(), final(self).spec_log(), 1)
                && depth_event(final(self).spec_log().last(), current_depth, old(self).spec_config().max_recursion_depth),
    {
        if current_depth > self.config.max_recursion_depth {
            let ghost cfg = self.config;
            let ghost log0 = self.audit_log@;
            let ev = SecurityAuditEvent::RecursionLimitExceeded {
                depth: current_depth,
                limit: self.config.max_recursion_depth,
                timestamp: instant_now(),
            };
            self.log_audit_event(ev);
            proof { self.lemma_log_push(log0, cfg, ev); }
            return Err(SecurityError::RecursionDepthExceeded(current_depth, self.config.max_recursion_depth));
        }
        Ok(())
    }

    /// The maximum number of concurrent requests.
    pub fn max_concurrent_requests(&self) -> (r: usize)
        ensures
            r == self.spec_config().max_concurrent_requests,
    {
        self.config.max_concurrent_requests
    }

    /// The resolution timeout.
    pub fn resolution_timeout(&self) -> (r: Duration)
        ensures
            r == self.spec_config().resolution_timeout,
    {
        self.config.resolution_timeout
    }

    /// The audit log, oldest event first.
    pub fn audit_log(&self) -> (r: &[SecurityAuditEvent])
        ensures
            r@ == self.spec_log(),
    {
        self.audit_log.as_slice()
    }

    /// Empties the audit log.
    pub fn clear_audit_log(&mut self)
        ensures
            final(self).spec_config() == old(self).spec_config(),
            final(self).spec_log().len() == 0,
    {
        self.audit_log.clear();
    }

    /// The configuration the guard enforces.
    pub fn config(&self) -> (r: &SchemaSecurityConfig)
        ensures
            *r == self.spec_config(),
    {
        &self.config
    }

    /// A copy of the configuration the guard enforces.
    pub fn config_cloned(&self) -> (r: SchemaSecurityConfig)
        ensures
            r.same_as(self.spec_config()),
    {
        self.config.clone()
    }
}

/// Whether the URL's host is the local machine or an internal network address.
fn is_localhost_or_internal(url: &ParsedUrl) -> (r: bool)
    ensures
        r == is_internal_host(url@.host),
{
    match url.host_str() {
        Some(host) => {
            str_equal(host, "localhost") || str_equal(host, "127.0.0.1") || str_equal(host, "::1") || str_equal(host, "[::1]")
                || str_starts_with(host, "192.168.") || str_starts_with(host, "10.")
                || str_starts_with(host, "172.")
        },
        None => false,
    }
}

/// Whether some pattern of `patterns` matches `url`.
fn any_pattern_matches(patterns: &Vec<String>, url: &str) -> (r: bool)
    ensures
        r == some_pattern_matches(patterns@, url@),
{
    let mut i: usize = 0;
    while i < patterns.len()
        invariant
            0 <= i <= patterns@.len(),
            forall|j: int| 0 <= j < i ==> !pattern_matches(url@, #[trigger] patterns@[j]@),
        decreases patterns@.len() - i,
    {
        if matches_glob_pattern(url, patterns[i].as_str()) {
            return true;
        }
        i = i + 1;
    }
    false
}

/// Whether the path lies under some path of `bases`.
fn any_path_under(bases: &Vec<String>, path: &str) -> (r: bool)
    ensures
        r == under_some(bases@, path@),
{
    let p = normal_form(path);
    let mut i: usize = 0;
    while i < bases.len()
        invariant
            0 <= i <= bases@.len(),
            p@ == lexical_normal(path@),
            forall|j: int| 0 <= j < i ==> !path_has_prefix(lexical_normal(path@), lexical_normal(#[trigger] bases@[j]@)),
        decreases bases@.len() - i,
    {
        let b = normal_form(bases[i].as_str());
        if path_starts_with(p.as_slice(), b.as_slice()) {
            return true;
        }
        i = i + 1;
    }
    false
}

/// Whether `url` matches the simple glob `pattern` (see `pattern_matches`).
pub fn matches_glob_pattern(url: &str, pattern: &str) -> (r: bool)
    ensures
        r == pattern_matches(url@, pattern@),
{
    let p = chars_of(pattern);
    let u = chars_of(url);
    let n = p.len();
    if n >= 3 && p[n - 3] == '/' && p[n - 2] == '*' && p[n - 1] == '*' {
        let prefix = take_chars(&p, n - 2);
        crate::text::chars_start_with(&u, &prefix)
    } else if n >= 1 && p[n - 1] == '*' {
        let prefix = take_chars(&p, n - 1);
        crate::text::chars_start_with(&u, &prefix)
    } else {
        crate::text::chars_equal(&u, &p)
    }
}

/// The first `k` characters of `v`.
fn take_chars(v: &Vec<char>, k: usize) -> (r: Vec<char>)
    requires
        k <= v@.len(),
    ensures
        r@ == v@.take(k as int),
{
    let mut r: Vec<char> = Vec::new();
    let mut i: usize = 0;
    while i < k
        invariant
            k <= v@.len(),
            0 <= i <= k,
            r@ == v@.take(i as int),
        decreases k - i,
    {
        r.push(v[i]);
        proof {
            assert(v@.take(i + 1) =~= v@.take(i as int).push(v@[i as int]));
        }
        i = i + 1;
    }
    r
}

impl SchemaSecurityConfig {
    /// The fields of `self` and `other` hold the same values (the lists by their texts).
    pub open spec fn same_as(self, other: SchemaSecurityConfig) -> bool {
        &&& self.max_schema_size == other.max_schema_size
        &&& self.max_recursion_depth == other.max_recursion_depth
        &&& self.resolution_timeout == other.resolution_timeout
        &&& self.max_concurrent_requests == other.max_concurrent_requests
        &&& texts(self.allowed_schemes@) == texts(other.allowed_schemes@)
        &&& texts(self.allowed_urls@) == texts(other.allowed_urls@)
        &&& texts(self.blocked_urls@) == texts(other.blocked_urls@)
        &&& texts(self.allowed_file_paths@) == texts(other.allowed_file_paths@)
        &&& texts(self.blocked_file_paths@) == texts(other.blocked_file_paths@)
        &&& self.allow_localhost == other.allow_localhost
        &&& self.allow_file_scheme == other.allow_file_scheme
        &&& self.validate_integrity == other.validate_integrity
        &&& self.audit_logging == other.audit_logging
    }

    /// Whether `scheme` is one of the allowed schemes.
    pub fn allows_scheme(&self, scheme: &str) -> (r: bool)
        ensures
            r == contains_text(self.allowed_schemes@, scheme@),
    {
        let mut i: usize = 0;
        while i < self.allowed_schemes.len()
            invariant
                0 <= i <= self.allowed_schemes@.len(),
                forall|j: int| 0 <= j < i ==> #[trigger] self.allowed_schemes@[j]@ != scheme@,
            decreases self.allowed_schemes@.len() - i,
        {
            if str_equal(self.allowed_schemes[i].as_str(), scheme) {
                return true;
            }
            i = i + 1;
        }
        false
    }
}

impl Clone for SchemaSecurityConfig {
    fn clone(&self) -> (r: Self)
        ensures
            r.same_as(*self),
    {
        SchemaSecurityConfig {
            max_schema_size: self.max_schema_size,
            max_recursion_depth: self.max_recursion_depth,
            resolution_timeout: self.resolution_timeout,
            max_concurrent_requests: self.max_concurrent_requests,
            allowed_schemes: clone_all(&self.allowed_schemes),
            allowed_urls: clone_all(&self.allowed_urls),
            blocked_urls: clone_all(&self.blocked_urls),
            allowed_file_paths: clone_all(&self.allowed_file_paths),
            blocked_file_paths: clone_all(&self.blocked_file_paths),
            allow_localhost: self.allow_localhost,
            allow_file_scheme: self.allow_file_scheme,
            validate_integrity: self.validate_integrity,
            audit_logging: self.audit_logging,
        }
    }
}


/// A list of strings holding exactly the given texts, in order.
fn strings_of(items: &[&str]) -> (r: Vec<String>)
    ensures
        r@.len() == items@.len(),
        forall|i: int| 0 <= i < items@.len() ==> #[trigger] r@[i]@ == items@[i]@,
{
    let mut r: Vec<String> = Vec::new();
    let mut i: usize = 0;
    while i < items.len()
        invariant
            0 <= i <= items@.len(),
            r@.len() == i,
            forall|j: int| 0 <= j < i ==> #[trigger] r@[j]@ == items@[j]@,
        decreases items@.len() - i,
    {
        r.push(owned(items[i]));
        i = i + 1;
    }
    r
}

/// The default size limit: one mebibyte.
pub fn default_max_schema_size() -> (r: usize)
    ensures
        r == 1024 * 1024,
{
    1024 * 1024
}

/// The default reference depth limit.
pub fn default_max_recursion_depth() -> (r: usize)
    ensures
        r == 10,
{
    10
}

/// The default resolution timeout: thirty seconds.
pub fn default_resolution_timeout() -> (r: Duration)
    ensures
        r == duration_of_secs(30),
{
    duration_from_secs(30)
}

/// The default limit on concurrent requests.
pub fn default_max_concurrent_requests() -> (r: usize)
    ensures
        r == 5,
{
    5
}

/// The schemes allowed by default: `https` alone.
pub fn default_allowed_schemes() -> (r: Vec<String>)
    ensures
        texts(r@) == seq!["https"@],
{
    let r = strings_of(&["https"]);
    assert(texts(r@) =~= seq!["https"@]);
    r
}

/// The URL patterns allowed by default.
pub fn default_allowed_urls() -> (r: Vec<String>)
    ensures
        texts(r@) == seq!["https://**"@, "https://json.schemastore.org/**"@, "https://raw.githubusercontent.com/**"@],
{
    let r = strings_of(&["https://**", "https://json.schemastore.org/**", "https://raw.githubusercontent.com/**"]);
    assert(texts(r@) =~= seq!["https://**"@, "https://json.schemastore.org/**"@, "https://raw.githubusercontent.com/**"@]);
    r
}

/// The URL patterns blocked by default.
pub fn default_blocked_urls() -> (r: Vec<String>)
    ensures
        texts(r@) == seq!["http://**"@, "ftp://**"@, "file://**"@],
{
    let r = strings_of(&["http://**", "ftp://**", "file://**"]);
    assert(texts(r@) =~= seq!["http://**"@, "ftp://**"@, "file://**"@]);
    r
}

/// The file paths allowed by default.
pub fn default_allowed_file_paths() -> (r: Vec<String>)
    ensures
        texts(r@) == seq!["schemas/"@, ".schemas/"@],
{
    let r = strings_of(&["schemas/", ".schemas/"]);
    assert(texts(r@) =~= seq!["schemas/"@, ".schemas/"@]);
    r
}

/// The file paths blocked by default.
pub fn default_blocked_file_paths() -> (r: Vec<String>)
    ensures
        texts(r@) == seq!["/"@, "/etc"@, "/var"@, "/tmp"@, "/home"@],
{
    let r = strings_of(&["/", "/etc", "/var", "/tmp", "/home"]);
    assert(texts(r@) =~= seq!["/"@, "/etc"@, "/var"@, "/tmp"@, "/home"@]);
    r
}

/// By default, local and internal hosts are refused.
pub fn default_allow_localhost() -> (r: bool)
    ensures
        r == false,
{
    false
}

/// By default, access to files is off.
pub fn default_allow_file_scheme() -> (r: bool)
    ensures
        r == false,
{
    false
}

/// By default, the integrity check runs.
pub fn default_validate_integrity() -> (r: bool)
    ensures
        r == true,
{
    true
}

/// By default, security events are recorded.
pub fn default_audit_logging() -> (r: bool)
    ensures
        r == true,
{
    true
}

/// `c` holds the default security configuration.
pub open spec fn is_default_config(c: SchemaSecurityConfig) -> bool {
    &&& c.max_schema_size == 1024 * 1024
    &&& c.max_recursion_depth == 10
    &&& c.resolution_timeout == duration_of_secs(30)
    &&& c.max_concurrent_requests == 5
    &&& texts(c.allowed_schemes@) == seq!["https"@]
    &&& texts(c.allowed_urls@) == seq!["https://**"@, "https://json.schemastore.org/**"@, "https://raw.githubusercontent.com/**"@]
    &&& texts(c.blocked_urls@) == seq!["http://**"@, "ftp://**"@, "file://**"@]
    &&& texts(c.allowed_file_paths@) == seq!["schemas/"@, ".schemas/"@]
    &&& texts(c.blocked_file_paths@) == seq!["/"@, "/etc"@, "/var"@, "/tmp"@, "/home"@]
    &&& !c.allow_localhost
    &&& !c.allow_file_scheme
    &&& c.validate_integrity
    &&& c.audit_logging
}

impl Default for SchemaSecurityConfig {
    fn default() -> (r: Self)
        ensures
            is_default_config(r),
    {
        SchemaSecurityConfig {
            max_schema_size: default_max_schema_size(),
            max_recursion_depth: default_max_recursion_depth(),
            resolution_timeout: default_resolution_timeout(),
            max_concurrent_requests: default_max_concurrent_requests(),
            allowed_schemes: default_allowed_schemes(),
            allowed_urls: default_allowed_urls(),
            blocked_urls: default_blocked_urls(),
            allowed_file_paths: default_allowed_file_paths(),
            blocked_file_paths: default_blocked_file_paths(),
            allow_localhost: default_allow_localhost(),
            allow_file_scheme: default_allow_file_scheme(),
            validate_integrity: default_validate_integrity(),
            audit_logging: default_audit_logging(),
        }
    }
}


/// The reference depth `depth` is within the limit of `cfg`.
pub open spec fn depth_accepted(cfg: SchemaSecurityConfig, depth: nat) -> bool {
    depth <= cfg.max_recursion_depth
}

/// Under the default configuration, a URL whose scheme is not `https` is refused for its
/// scheme.
pub proof fn law_default_refuses_other_schemes(cfg: SchemaSecurityConfig, u: UrlView)
    requires
        is_default_config(cfg),
        u.scheme != "https"@,
    ensures
        url_refusal(cfg, u) == Some(UrlRefusal::SchemeNotAllowed),
{
    lemma_texts(cfg.allowed_schemes@);
    assert(texts(cfg.allowed_schemes@)[0] == cfg.allowed_schemes@[0]@);
}

/// Under the default configuration, an `https` URL that names the local machine or an
/// internal network is refused as internal.
pub proof fn law_default_refuses_internal_hosts(cfg: SchemaSecurityConfig, u: UrlView)
    requires
        is_default_config(cfg),
        u.scheme == "https"@,
        is_internal_host(u.host),
    ensures
        url_refusal(cfg, u) == Some(UrlRefusal::Internal),
{
    lemma_texts(cfg.allowed_schemes@);
    assert(texts(cfg.allowed_schemes@)[0] == cfg.allowed_schemes@[0]@);
}

/// Under the default configuration, an `https://` URL of any other host passes every
/// check.
pub proof fn law_default_accepts_public_https(cfg: SchemaSecurityConfig, u: UrlView)
    requires
        is_default_config(cfg),
        u.scheme == "https"@,
        is_prefix_of("https://"@, u.text),
        !is_internal_host(u.host),
    ensures
        url_refusal(cfg, u) is None,
{
    reveal_strlit("https");
    reveal_strlit("https://");
    reveal_strlit("https://**");
    reveal_strlit("http://**");
    reveal_strlit("ftp://**");
    reveal_strlit("file://**");
    lemma_texts(cfg.allowed_schemes@);
    assert(texts(cfg.allowed_schemes@)[0] == cfg.allowed_schemes@[0]@);
    let a = cfg.allowed_urls@;
    lemma_texts(a);
    assert(texts(a)[0] == a[0]@);
    assert(a[0]@ == "https://**"@);
    assert(a[0]@.take(8) =~= u.text.take(8));
    assert(pattern_matches(u.text, a[0]@));
    let b = cfg.blocked_urls@;
    lemma_texts(b);
    assert forall|i: int| 0 <= i < b.len() implies !pattern_matches(u.text, #[trigger] b[i]@) by {
        assert(texts(b)[i] == b[i]@);
        if i == 0 {
            assert(b[i]@.take(7)[4] != u.text.take(7)[4]);
        } else if i == 1 {
            assert(b[i]@.take(6)[0] != u.text.take(6)[0]);
        } else {
            assert(b[i]@.take(7)[0] != u.text.take(7)[0]);
        }
    }
}

/// A URL that some blocked pattern matches is never accepted.
pub proof fn law_blocked_urls_are_refused(cfg: SchemaSecurityConfig, u: UrlView)
    requires
        url_blocked_by(cfg, u.text),
    ensures
        url_refusal(cfg, u) is Some,
{
}

/// With an empty allowlist of file paths, no file path is accepted.
pub proof fn law_empty_file_allowlist_refuses_all(cfg: SchemaSecurityConfig, p: Seq<char>)
    requires
        cfg.allowed_file_paths@.len() == 0,
    ensures
        path_refusal(cfg, p) is Some,
{
}

/// A file path under some blocked path is never accepted.
pub proof fn law_blocked_paths_are_refused(cfg: SchemaSecurityConfig, p: Seq<char>)
    requires
        under_some(cfg.blocked_file_paths@, p),
    ensures
        path_refusal(cfg, p) is Some,
{
}

/// Under the default configuration, every file path is refused because access to files is
/// off.
pub proof fn law_default_refuses_files(cfg: SchemaSecurityConfig, p: Seq<char>)
    requires
        is_default_config(cfg),
    ensures
        path_refusal(cfg, p) == Some(PathRefusal::FileSchemeNotAllowed),
{
}

/// A pattern that ends in `/**` matches exactly the URLs that start with the rest of the
/// pattern followed by `/`: it never matches a longer host name.
pub proof fn law_recursive_pattern_is_prefix(url: Seq<char>, base: Seq<char>)
    ensures
        pattern_matches(url, base + seq!['/', '*', '*']) == is_prefix_of(base.push('/'), url),
{
    let p = base + seq!['/', '*', '*'];
    assert(p.take(p.len() - 2) =~= base.push('/'));
}

/// Two paths with the same lexical normal form get the same decision.
pub proof fn law_same_normal_form_same_decision(cfg: SchemaSecurityConfig, p: Seq<char>, q: Seq<char>)
    requires
        lexical_normal(p) == lexical_normal(q),
    ensures
        path_refusal(cfg, p) == path_refusal(cfg, q),
{
    assert(under_some(cfg.blocked_file_paths@, p) == under_some(cfg.blocked_file_paths@, q));
    assert(under_some(cfg.allowed_file_paths@, p) == under_some(cfg.allowed_file_paths@, q));
}

/// The accepted reference depths are closed downwards: a depth below an accepted one is
/// accepted too.
pub proof fn law_depth_limit_downward_closed(cfg: SchemaSecurityConfig, shallow: nat, deep: nat)
    requires
        shallow <= deep,
        depth_accepted(cfg, deep),
    ensures
        depth_accepted(cfg, shallow),
{
}

} // verus!
