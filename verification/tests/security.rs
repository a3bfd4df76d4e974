use std::time::Duration;

use taplo_core::location::ParsedUrl;
use taplo_core::paths::normal_form;
use taplo_core::text::usize_to_string;
use taplo_core::security::{
    matches_glob_pattern, SchemaSecurityConfig, SchemaSecurityGuard, SecurityAuditEvent, SecurityError,
};

fn url(s: &str) -> ParsedUrl {
    ParsedUrl::parse(s).ok().expect("a valid URL")
}

fn has_scheme(config: &SchemaSecurityConfig, scheme: &str) -> bool {
    config.allowed_schemes.iter().any(|s| s == scheme)
}

#[test]
fn test_default_config() {
    let config = SchemaSecurityConfig::default();
    assert_eq!(config.max_schema_size, 1024 * 1024);
    assert_eq!(config.max_recursion_depth, 10);
    assert_eq!(config.resolution_timeout, Duration::from_secs(30));
    assert_eq!(config.max_concurrent_requests, 5);
    assert!(has_scheme(&config, "https"));
    assert!(!has_scheme(&config, "http"));
    assert!(!config.allow_localhost);
    assert!(!config.allow_file_scheme);
}

#[test]
fn test_url_validation() {
    let mut guard = SchemaSecurityGuard::new(SchemaSecurityConfig::default());

    let https_url = url("https://example.com/schema.json");
    assert!(guard.validate_url(&https_url).is_ok());

    let http_url = url("http://example.com/schema.json");
    assert!(guard.validate_url(&http_url).is_err());

    let file_url = url("file:///etc/passwd");
    assert!(guard.validate_url(&file_url).is_err());
}

#[test]
fn test_localhost_blocking() {
    let mut guard = SchemaSecurityGuard::new(SchemaSecurityConfig::default());

    let localhost_url = url("https://localhost/schema.json");
    assert!(guard.validate_url(&localhost_url).is_err());

    let internal_url = url("https://192.168.1.1/schema.json");
    assert!(guard.validate_url(&internal_url).is_err());
}

#[test]
fn test_content_validation() {
    let mut guard = SchemaSecurityGuard::new(SchemaSecurityConfig::default());
    let url = url("https://example.com/schema.json");

    let valid_json = r#"{"type": "object"}"#.as_bytes();
    assert!(guard.validate_schema_content(valid_json, &url).is_ok());

    let invalid_json = r#"{"type": "object"#.as_bytes();
    assert!(guard.validate_schema_content(invalid_json, &url).is_err());

    let large_content = vec![0u8; 2 * 1024 * 1024];
    assert!(guard.validate_schema_content(&large_content, &url).is_err());
}

#[test]
fn test_recursion_depth() {
    let mut guard = SchemaSecurityGuard::new(SchemaSecurityConfig::default());

    assert!(guard.check_recursion_depth(5).is_ok());
    assert!(guard.check_recursion_depth(10).is_ok());
    assert!(guard.check_recursion_depth(11).is_err());
}

#[test]
fn scheme_refusal_names_the_scheme() {
    let mut guard = SchemaSecurityGuard::new(SchemaSecurityConfig::default());
    match guard.validate_url(&url("http://example.com/schema.json")) {
        Err(SecurityError::SchemeNotAllowed(s)) => assert_eq!(s, "http"),
        other => panic!("unexpected answer {:?}", other),
    }
    match guard.validate_url(&url("ftp://example.com/schema.json")) {
        Err(SecurityError::SchemeNotAllowed(s)) => assert_eq!(s, "ftp"),
        other => panic!("unexpected answer {:?}", other),
    }
}

#[test]
fn internal_hosts_are_refused_by_default() {
    let mut guard = SchemaSecurityGuard::new(SchemaSecurityConfig::default());
    for u in [
        "https://127.0.0.1/s.json",
        "https://10.1.2.3/s.json",
        "https://172.16.0.1/s.json",
        "https://localhost:8443/s.json",
    ] {
        assert!(matches!(guard.validate_url(&url(u)), Err(SecurityError::LocalhostAccessBlocked)), "{}", u);
    }
    let mut config = SchemaSecurityConfig::default();
    config.allow_localhost = true;
    let mut open = SchemaSecurityGuard::new(config);
    assert!(open.validate_url(&url("https://localhost/schema.json")).is_ok());
}

#[test]
fn url_outside_the_allowlist_is_refused() {
    let mut config = SchemaSecurityConfig::default();
    config.allowed_urls = vec!["https://json.schemastore.org/**".to_string()];
    let mut guard = SchemaSecurityGuard::new(config);
    assert!(guard.validate_url(&url("https://json.schemastore.org/cargo.json")).is_ok());
    match guard.validate_url(&url("https://example.com/schema.json")) {
        Err(SecurityError::UrlPatternNotAllowed(u)) => assert_eq!(u, "https://example.com/schema.json"),
        other => panic!("unexpected answer {:?}", other),
    }
}

#[test]
fn blocked_url_is_refused_even_when_allowed() {
    let mut config = SchemaSecurityConfig::default();
    config.allowed_schemes.push("http".to_string());
    config.allowed_urls = Vec::new();
    let mut guard = SchemaSecurityGuard::new(config);
    match guard.validate_url(&url("http://example.com/schema.json")) {
        Err(SecurityError::UrlPatternBlocked(u)) => assert_eq!(u, "http://example.com/schema.json"),
        other => panic!("unexpected answer {:?}", other),
    }
}

#[test]
fn audit_log_records_each_check() {
    let mut guard = SchemaSecurityGuard::new(SchemaSecurityConfig::default());
    assert!(guard.validate_url(&url("https://example.com/a.json")).is_ok());
    assert!(guard.validate_url(&url("http://example.com/a.json")).is_err());
    assert!(guard.check_recursion_depth(12).is_err());
    let log = guard.audit_log();
    assert_eq!(log.len(), 3);
    match &log[0] {
        SecurityAuditEvent::UrlAllowed { url, .. } => assert_eq!(url.as_str(), "https://example.com/a.json"),
        _ => panic!("expected an allowed URL"),
    }
    match &log[1] {
        SecurityAuditEvent::UrlBlocked { url, reason, .. } => {
            assert_eq!(url.as_str(), "http://example.com/a.json");
            assert_eq!(reason, "Scheme not allowed");
        },
        _ => panic!("expected a blocked URL"),
    }
    match &log[2] {
        SecurityAuditEvent::RecursionLimitExceeded { depth, limit, .. } => {
            assert_eq!(*depth, 12);
            assert_eq!(*limit, 10);
        },
        _ => panic!("expected an exceeded depth"),
    }
    guard.clear_audit_log();
    assert_eq!(guard.audit_log().len(), 0);
}

#[test]
fn audit_log_stays_empty_when_logging_is_off() {
    let mut config = SchemaSecurityConfig::default();
    config.audit_logging = false;
    let mut guard = SchemaSecurityGuard::new(config);
    assert!(guard.validate_url(&url("https://example.com/a.json")).is_ok());
    assert!(guard.validate_url(&url("http://example.com/a.json")).is_err());
    assert_eq!(guard.audit_log().len(), 0);
}

#[test]
fn file_paths_are_refused_unless_files_are_allowed() {
    let mut guard = SchemaSecurityGuard::new(SchemaSecurityConfig::default());
    assert!(matches!(guard.validate_file_path("schemas/a.json"), Err(SecurityError::FileSchemeNotAllowed)));
    match &guard.audit_log()[0] {
        SecurityAuditEvent::FileAccessBlocked { path, reason, .. } => {
            assert_eq!(path, "schemas/a.json");
            assert_eq!(reason, "File scheme not allowed");
        },
        _ => panic!("expected a blocked path"),
    }
}

#[test]
fn file_paths_follow_the_block_and_allow_lists() {
    let mut config = SchemaSecurityConfig::default();
    config.allow_file_scheme = true;
    let mut guard = SchemaSecurityGuard::new(config);
    assert!(guard.validate_file_path("schemas/a.json").is_ok());
    assert!(guard.validate_file_path(".schemas/b.json").is_ok());
    match guard.validate_file_path("/etc/passwd") {
        Err(SecurityError::FilePathBlocked(p)) => assert_eq!(p, "/etc/passwd"),
        other => panic!("unexpected answer {:?}", other),
    }
    match guard.validate_file_path("other/a.json") {
        Err(SecurityError::FilePathNotAllowed(p)) => assert_eq!(p, "other/a.json"),
        other => panic!("unexpected answer {:?}", other),
    }
    let mut empty = SchemaSecurityConfig::default();
    empty.allow_file_scheme = true;
    empty.allowed_file_paths = Vec::new();
    let mut closed = SchemaSecurityGuard::new(empty);
    assert!(matches!(closed.validate_file_path("schemas/a.json"), Err(SecurityError::FilePathNotAllowed(_))));
}

#[test]
fn content_errors_carry_sizes_and_messages() {
    let mut guard = SchemaSecurityGuard::new(SchemaSecurityConfig::default());
    let u = url("https://example.com/schema.json");
    let large = vec![b' '; 1024 * 1024 + 1];
    match guard.validate_schema_content(&large, &u) {
        Err(SecurityError::ContentTooLarge(n, limit)) => {
            assert_eq!(n, 1024 * 1024 + 1);
            assert_eq!(limit, 1024 * 1024);
        },
        other => panic!("unexpected answer {:?}", other),
    }
    match &guard.audit_log()[0] {
        SecurityAuditEvent::ContentValidationFailed { reason, .. } => {
            assert_eq!(reason, "Content size 1048577 exceeds limit 1048576");
        },
        _ => panic!("expected failed content"),
    }
    let bad = br#"{"type": "object"#;
    let expected = serde_json::from_slice::<serde_json::Value>(bad).unwrap_err().to_string();
    match guard.validate_schema_content(bad, &u) {
        Err(SecurityError::InvalidJson(m)) => assert_eq!(m, expected),
        other => panic!("unexpected answer {:?}", other),
    }
    match &guard.audit_log()[1] {
        SecurityAuditEvent::ContentValidationFailed { reason, .. } => {
            assert_eq!(*reason, format!("Invalid JSON: {}", expected));
        },
        _ => panic!("expected failed content"),
    }
}

#[test]
fn integrity_check_is_logged_when_enabled() {
    let mut config = SchemaSecurityConfig::default();
    config.validate_integrity = true;
    let mut guard = SchemaSecurityGuard::new(config);
    let u = url("https://example.com/schema.json");
    assert!(guard.validate_schema_content(b"{}", &u).is_ok());
    let log = guard.audit_log();
    assert_eq!(log.len(), 2);
    assert!(matches!(&log[0], SecurityAuditEvent::IntegrityCheckPassed { .. }));
    assert!(matches!(&log[1], SecurityAuditEvent::ContentValidationPassed { .. }));
}

#[test]
fn recursion_error_names_depth_and_limit() {
    let mut guard = SchemaSecurityGuard::new(SchemaSecurityConfig::default());
    match guard.check_recursion_depth(11) {
        Err(SecurityError::RecursionDepthExceeded(d, l)) => {
            assert_eq!(d, 11);
            assert_eq!(l, 10);
        },
        other => panic!("unexpected answer {:?}", other),
    }
    assert!(guard.check_recursion_depth(0).is_ok());
}

#[test]
fn glob_patterns_match_prefixes_or_whole_urls() {
    assert!(matches_glob_pattern("https://example.com/a.json", "https://**"));
    assert!(matches_glob_pattern("https://json.schemastore.org/x.json", "https://json.schemastore.org/**"));
    assert!(!matches_glob_pattern("http://json.schemastore.org/x.json", "https://json.schemastore.org/**"));
    assert!(matches_glob_pattern("https://example.com/abc", "https://example.com/a*"));
    assert!(matches_glob_pattern("https://example.com/a", "https://example.com/a"));
    assert!(!matches_glob_pattern("https://example.com/ab", "https://example.com/a"));
}

#[test]
fn guard_getters_report_the_configuration() {
    let guard = SchemaSecurityGuard::new(SchemaSecurityConfig::default());
    assert_eq!(guard.max_concurrent_requests(), 5);
    assert_eq!(guard.resolution_timeout(), Duration::from_secs(30));
    assert_eq!(guard.config().max_schema_size, 1024 * 1024);
    let copy = guard.config_cloned();
    assert_eq!(copy.max_recursion_depth, 10);
    assert_eq!(copy.allowed_urls, guard.config().allowed_urls);
    assert_eq!(copy.blocked_file_paths, vec!["/", "/etc", "/var", "/tmp", "/home"]);
}

#[test]
fn bracketed_ipv6_loopback_is_refused() {
    let mut guard = SchemaSecurityGuard::new(SchemaSecurityConfig::default());
    assert!(matches!(guard.validate_url(&url("https://[::1]/schema.json")), Err(SecurityError::LocalhostAccessBlocked)));
}

#[test]
fn host_allowlist_does_not_admit_longer_hosts() {
    let mut config = SchemaSecurityConfig::default();
    config.allowed_urls = vec!["https://json.schemastore.org/**".to_string()];
    let mut guard = SchemaSecurityGuard::new(config);
    match guard.validate_url(&url("https://json.schemastore.org.evil.com/s.json")) {
        Err(SecurityError::UrlPatternNotAllowed(u)) => assert_eq!(u, "https://json.schemastore.org.evil.com/s.json"),
        other => panic!("unexpected answer {:?}", other),
    }
    assert!(!matches_glob_pattern("https://json.schemastore.org", "https://json.schemastore.org/**"));
}

#[test]
fn climbing_paths_are_refused() {
    let mut config = SchemaSecurityConfig::default();
    config.allow_file_scheme = true;
    let mut guard = SchemaSecurityGuard::new(config);
    assert!(matches!(guard.validate_file_path("schemas/../../etc/passwd"), Err(SecurityError::FilePathNotAllowed(_))));
    assert!(matches!(guard.validate_file_path("schemas/../other/a.json"), Err(SecurityError::FilePathNotAllowed(_))));
    assert!(matches!(guard.validate_file_path(".."), Err(SecurityError::FilePathNotAllowed(_))));
    assert!(guard.validate_file_path("schemas/..a/b.json").is_ok());
    assert!(guard.validate_file_path("schemas/sub/../b.json").is_ok());
    assert!(guard.validate_file_path("./schemas/a.json").is_ok());
}

#[test]
fn shared_schema_directory_above_the_workspace_is_allowed() {
    let mut config = SchemaSecurityConfig::default();
    config.allow_file_scheme = true;
    config.allowed_file_paths = vec!["schemas/".to_string(), ".schemas/".to_string(), "../shared-schemas/".to_string()];
    let mut guard = SchemaSecurityGuard::new(config);
    assert!(guard.validate_file_path("../shared-schemas/a.json").is_ok());
    assert!(matches!(guard.validate_file_path("../other/a.json"), Err(SecurityError::FilePathNotAllowed(_))));
    assert!(matches!(guard.validate_file_path("schemas/../../etc/passwd"), Err(SecurityError::FilePathNotAllowed(_))));
}

#[test]
fn blocked_path_reached_through_parent_steps_is_blocked() {
    let mut config = SchemaSecurityConfig::default();
    config.allow_file_scheme = true;
    config.allowed_file_paths = vec!["/".to_string()];
    config.blocked_file_paths = vec!["/etc".to_string()];
    let mut guard = SchemaSecurityGuard::new(config);
    match guard.validate_file_path("/tmp/../etc/passwd") {
        Err(SecurityError::FilePathBlocked(p)) => assert_eq!(p, "/tmp/../etc/passwd"),
        other => panic!("unexpected {:?}", other),
    }
    assert!(guard.validate_file_path("/tmp/../home/a.json").is_ok());
    assert!(matches!(guard.validate_file_path("/../../etc/hosts"), Err(SecurityError::FilePathBlocked(_))));
}

#[test]
fn normal_forms_of_paths() {
    let s = |p: &str| normal_form(p).into_iter().collect::<String>();
    assert_eq!(s("a/./b/../c"), "a/c");
    assert_eq!(s("/../x"), "/x");
    assert_eq!(s("../a/../../b"), "../../b");
    assert_eq!(s("a//b/"), "a/b");
    assert_eq!(s("a/.."), "");
    assert_eq!(s(""), "");
    assert_eq!(s("/"), "/");
}

#[test]
fn numbers_are_written_in_decimal() {
    assert_eq!(usize_to_string(0), "0");
    assert_eq!(usize_to_string(7), "7");
    assert_eq!(usize_to_string(10), "10");
    assert_eq!(usize_to_string(1048576), "1048576");
    assert_eq!(usize_to_string(usize::MAX), usize::MAX.to_string());
}
