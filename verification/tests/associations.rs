use std::time::Instant;

use taplo_core::associations::{resolve_reference, HeaderComment, NativeEnvironment, SchemaAssociations};
use taplo_core::catalog::{
    SchemaCatalog, SchemaStoreCatalog, SchemaStoreCatalogSchema, SchemaStoreSchemaMeta, TaploSchemaCatalog,
    TaploSchemaExtraInfo, TaploSchemaMeta,
};
use taplo_core::config::{Config, Options, Rule, SchemaOptions};
use taplo_core::keys::Key;
use taplo_core::location::ParsedUrl;
use taplo_core::node::Node;
use taplo_core::rules::{normalize_str, AssociationMeta, AssociationRule, GlobRule, SchemaAssociation};
use taplo_core::{priority, source};

fn url(s: &str) -> ParsedUrl {
    ParsedUrl::parse(s).ok().expect("a valid URL")
}

fn meta(name: &str, src: &str) -> AssociationMeta {
    AssociationMeta { name: Some(name.to_string()), description: None, source: Some(src.to_string()), catalog_url: None }
}

fn assoc(schema: &str, name: &str, prio: usize) -> SchemaAssociation {
    SchemaAssociation { url: url(schema), meta: meta(name, "test"), priority: prio }
}

fn glob(p: &str) -> AssociationRule {
    AssociationRule::glob(p).ok().expect("a valid glob")
}

fn regex(p: &str) -> AssociationRule {
    AssociationRule::regex(p).ok().expect("a valid regex")
}

fn found(a: &SchemaAssociations<NativeEnvironment>, file: &str) -> Option<String> {
    a.association_for(&url(file)).map(|s| s.url.as_str().to_string())
}

fn empty_associations() -> SchemaAssociations<NativeEnvironment> {
    let mut a = SchemaAssociations::new(NativeEnvironment);
    a.clear();
    a
}

#[test]
fn test_optimized_lookup_performance() {
    let mut associations = SchemaAssociations::new(NativeEnvironment);

    for i in 0..1000usize {
        let pattern = format!("**/*{}.toml", i);
        if let Ok(rule) = AssociationRule::glob(&pattern) {
            let assoc = SchemaAssociation {
                url: url(&format!("https://example.com/schema{}.json", i)),
                meta: meta(&format!("Test Schema {}", i), "test"),
                priority: i % 100,
            };
            associations.add(rule, assoc);
        }
    }

    for i in 0..100usize {
        let file = url(&format!("https://example.com/file{}.toml", i));
        let assoc = SchemaAssociation {
            url: url(&format!("https://example.com/schema{}.json", i)),
            meta: meta(&format!("Exact Schema {}", i), "test"),
            priority: 100 + i,
        };
        associations.add(AssociationRule::Url(file), assoc);
    }

    let test_url = url("https://example.com/file50.toml");

    for _ in 0..100 {
        let _ = associations.association_for(&test_url);
    }

    let start = Instant::now();
    for _ in 0..1000 {
        let _ = associations.association_for(&test_url);
    }
    let duration = start.elapsed();

    println!("Optimized lookup performance: {:?} for 1000 lookups", duration);
    println!("Stats: {}", associations.get_stats().to_text());

    let result = associations.association_for(&test_url);
    assert!(result.is_some());
    assert_eq!(result.unwrap().priority, 150);
}

#[test]
fn test_backward_compatibility() {
    let associations = SchemaAssociations::new(NativeEnvironment);

    let associations_vec = associations.read();
    assert!(!associations_vec.is_empty());

    let count = associations_vec.len();
    assert!(count > 0);

    let test_url = url("https://example.com/taplo.toml");
    let result = associations.association_for(&test_url);
    assert!(result.is_some());
}

#[test]
fn builtin_association_is_taplo_config() {
    let a = SchemaAssociations::new(NativeEnvironment);
    assert_eq!(a.read().len(), 1);
    let (rule, builtin) = &a.read()[0];
    assert!(matches!(rule, AssociationRule::Regex(_)));
    assert_eq!(builtin.url.as_str(), "taplo://taplo.toml");
    assert_eq!(builtin.priority, priority::BUILTIN);
    assert_eq!(builtin.meta.source.as_deref(), Some(source::BUILTIN));
    assert_eq!(builtin.meta.name.as_deref(), Some("Taplo"));
    assert_eq!(found(&a, "file:///work/.taplo.toml").as_deref(), Some("taplo://taplo.toml"));
    assert_eq!(found(&a, "file:///work/Cargo.toml"), None);
}

#[test]
fn add_builtins_keeps_a_single_builtin() {
    let mut a = SchemaAssociations::new(NativeEnvironment);
    a.add(glob("**/*.toml"), assoc("https://example.com/any.json", "any", 5));
    a.add_builtins();
    a.add_builtins();
    let builtins = a.read().iter().filter(|(_, s)| s.meta.source.as_deref() == Some(source::BUILTIN)).count();
    assert_eq!(builtins, 1);
    assert_eq!(a.read().len(), 2);
    assert_eq!(a.read()[1].1.meta.source.as_deref(), Some(source::BUILTIN));
}

#[test]
fn exact_url_wins_over_patterns() {
    let mut a = empty_associations();
    a.add(glob("**/*.toml"), assoc("https://example.com/glob.json", "glob", 99));
    a.add(regex(".*"), assoc("https://example.com/regex.json", "regex", 99));
    a.add(AssociationRule::Url(url("file:///w/a.toml")), assoc("https://example.com/exact.json", "exact", 1));
    assert_eq!(found(&a, "file:///w/a.toml").as_deref(), Some("https://example.com/exact.json"));
    assert_eq!(found(&a, "file:///w/b.toml").as_deref(), Some("https://example.com/glob.json"));
    assert_eq!(found(&a, "file:///w/b.json").as_deref(), Some("https://example.com/regex.json"));
}

#[test]
fn later_url_rule_replaces_earlier_one() {
    let mut a = empty_associations();
    a.add(AssociationRule::Url(url("file:///w/a.toml")), assoc("https://example.com/first.json", "first", 1));
    a.add(AssociationRule::Url(url("file:///w/a.toml")), assoc("https://example.com/second.json", "second", 1));
    assert_eq!(found(&a, "file:///w/a.toml").as_deref(), Some("https://example.com/second.json"));
    a.add(AssociationRule::Url(url("file:///w/a.toml")), assoc("https://example.com/third.json", "third", 0));
    assert_eq!(found(&a, "file:///w/a.toml").as_deref(), Some("https://example.com/second.json"));
    assert_eq!(a.get_stats().url_index_size, 1);
    assert_eq!(a.get_stats().total_associations, 3);
}

#[test]
fn highest_glob_priority_wins_and_ties_keep_the_first() {
    let mut a = empty_associations();
    a.add(glob("**/*.toml"), assoc("https://example.com/low.json", "low", 5));
    a.add(glob("**/a.toml"), assoc("https://example.com/high.json", "high", 9));
    a.add(glob("**/a.*"), assoc("https://example.com/tie.json", "tie", 9));
    assert_eq!(found(&a, "file:///w/a.toml").as_deref(), Some("https://example.com/high.json"));
    assert_eq!(found(&a, "file:///w/b.toml").as_deref(), Some("https://example.com/low.json"));
}

#[test]
fn glob_match_beats_a_higher_regex() {
    let mut a = empty_associations();
    a.add(regex("a\\.toml$"), assoc("https://example.com/regex.json", "regex", 90));
    a.add(glob("**/a.toml"), assoc("https://example.com/glob.json", "glob", 1));
    assert_eq!(found(&a, "file:///w/a.toml").as_deref(), Some("https://example.com/glob.json"));
}

#[test]
fn regexes_see_the_percent_decoded_url() {
    let mut a = empty_associations();
    a.add(regex("my file\\.toml$"), assoc("https://example.com/spaced.json", "spaced", 1));
    assert_eq!(found(&a, "file:///w/my%20file.toml").as_deref(), Some("https://example.com/spaced.json"));
}

#[test]
fn clear_removes_everything() {
    let mut a = SchemaAssociations::new(NativeEnvironment);
    a.add(glob("**/*.toml"), assoc("https://example.com/any.json", "any", 5));
    a.clear();
    assert_eq!(a.read().len(), 0);
    assert_eq!(found(&a, "https://example.com/taplo.toml"), None);
    let stats = a.get_stats();
    assert_eq!(stats.total_associations, 0);
    assert_eq!(stats.priority_levels, 0);
}

#[test]
fn retain_takes_url_and_regex_rules_out_of_the_index() {
    let mut a = empty_associations();
    a.add(AssociationRule::Url(url("file:///w/a.toml")), assoc("https://example.com/exact.json", "exact", 1));
    a.add(regex("b\\.toml$"), assoc("https://example.com/regex.json", "regex", 2));
    a.retain(|(rule, _)| !matches!(rule, AssociationRule::Url(_)));
    assert_eq!(a.read().len(), 1);
    assert_eq!(found(&a, "file:///w/a.toml"), None);
    a.retain(|_| false);
    assert_eq!(found(&a, "file:///w/b.toml"), None);
    assert_eq!(a.get_stats().priority_levels, 0);
}

#[test]
fn dropped_glob_rules_leave_the_index() {
    let mut a = empty_associations();
    a.add(glob("**/*.toml"), assoc("https://example.com/glob.json", "glob", 9));
    a.add(glob("**/*.json"), assoc("https://example.com/keep.json", "keep", 2));
    a.retain(|(_, s)| s.priority != 9);
    assert_eq!(a.read().len(), 1);
    assert_eq!(a.get_stats().glob_index_size, 1);
    assert_eq!(found(&a, "file:///w/a.toml"), None);
    assert_eq!(found(&a, "file:///w/a.json").as_deref(), Some("https://example.com/keep.json"));
    a.add(glob("**/*.toml"), assoc("https://example.com/new.json", "new", 3));
    assert_eq!(found(&a, "file:///w/a.toml").as_deref(), Some("https://example.com/new.json"));
}

#[test]
fn dropping_one_association_of_a_glob_keeps_the_other() {
    let mut a = empty_associations();
    a.add(glob("**/*.toml"), assoc("https://example.com/first.json", "first", 5));
    a.add(glob("**/*.toml"), assoc("https://example.com/second.json", "second", 4));
    a.retain(|(_, s)| s.priority != 5);
    assert_eq!(a.get_stats().glob_index_size, 1);
    assert_eq!(found(&a, "file:///w/a.toml").as_deref(), Some("https://example.com/second.json"));
    a.retain(|_| false);
    assert_eq!(a.get_stats().glob_index_size, 0);
    assert_eq!(found(&a, "file:///w/a.toml"), None);
}

#[test]
fn optimizing_keeps_every_lookup() {
    let mut a = empty_associations();
    a.add(regex("\\.toml$"), assoc("https://example.com/r1.json", "r1", 1));
    a.add(regex("a\\.toml$"), assoc("https://example.com/r2.json", "r2", 7));
    a.add(regex("toml$"), assoc("https://example.com/r3.json", "r3", 7));
    a.add(regex("b\\.toml$"), assoc("https://example.com/r4.json", "r4", 4));
    let files = ["file:///w/a.toml", "file:///w/b.toml", "file:///w/c.toml", "file:///w/c.json"];
    let before: Vec<_> = files.iter().map(|f| found(&a, f)).collect();
    a.optimize_indexes();
    let after: Vec<_> = files.iter().map(|f| found(&a, f)).collect();
    assert_eq!(before, after);
    assert_eq!(before[0].as_deref(), Some("https://example.com/r2.json"));
    assert_eq!(before[1].as_deref(), Some("https://example.com/r3.json"));
}

#[test]
fn stats_report_counts() {
    let mut a = empty_associations();
    a.add(glob("**/*.toml"), assoc("https://example.com/g.json", "g", 5));
    a.add(glob("**/*.json"), assoc("https://example.com/h.json", "h", 5));
    a.add(regex("x"), assoc("https://example.com/r.json", "r", 6));
    a.add(AssociationRule::Url(url("file:///w/a.toml")), assoc("https://example.com/u.json", "u", 7));
    let stats = a.get_stats();
    assert_eq!(stats.total_associations, 4);
    assert_eq!(stats.url_index_size, 1);
    assert_eq!(stats.glob_index_size, 2);
    assert_eq!(stats.regex_patterns_size, 1);
    assert_eq!(stats.priority_levels, 3);
    assert_eq!(stats.glob_cache_size, 2);
    assert_eq!(
        stats.to_text(),
        "Schema Associations Stats:\n- Total associations: 4\n- URL index entries: 1\n- Glob pattern entries: 2\n- Regex patterns: 1\n- Priority levels: 3\n- Glob cache entries: 2"
    );
}

#[test]
fn rules_match_their_documents() {
    let file = url("file:///w/dir/a.toml");
    assert!(glob("/w/**/*.toml").is_match(&file));
    assert!(!glob("/x/**").is_match(&file));
    assert!(regex("dir/a").is_match(&file));
    assert!(!regex("^dir").is_match(&file));
    assert!(AssociationRule::Url(url("file:///w/dir/a.toml")).is_match(&file));
    assert!(!AssociationRule::Url(url("file:///w/dir/b.toml")).is_match(&file));
}

#[test]
fn invalid_patterns_are_refused() {
    assert!(AssociationRule::glob("a[").is_err());
    assert!(AssociationRule::regex("(").is_err());
    let excluded = GlobRule::new(&["**/*.toml".to_string()], &["**/skip.toml".to_string()]).ok().expect("valid globs");
    assert!(excluded.is_match("w/a.toml"));
    assert!(!excluded.is_match("w/skip.toml"));
}

#[test]
fn normalizing_decodes_percent_escapes() {
    assert_eq!(normalize_str("a%20b"), "a b");
    assert_eq!(normalize_str("plain"), "plain");
    assert_eq!(normalize_str("%FF"), "%FF");
}

#[test]
fn references_resolve_as_urls_paths_or_relative() {
    let doc = url("file:///w/dir/doc.toml");
    let abs = resolve_reference(&doc, "https://example.com/s.json", false).expect("a URL");
    assert_eq!(abs.as_str(), "https://example.com/s.json");
    let file = resolve_reference(&doc, "/schemas/s.json", true).expect("a path");
    assert_eq!(file.as_str(), "file:///schemas/s.json");
    let rel = resolve_reference(&doc, "../s.json", false).expect("a relative reference");
    assert_eq!(rel.as_str(), "file:///w/s.json");
}

fn directive(name: &str, value: &str) -> HeaderComment {
    HeaderComment { directive: Some(name.to_string()), value: value.to_string() }
}

#[test]
fn document_directives_and_schema_field_are_added() {
    let mut a = empty_associations();
    let doc = url("file:///w/doc.toml");
    let comments = vec![
        directive("schema", "https://example.com/s.json"),
        directive("schema", ""),
        directive("other", "https://example.com/o.json"),
        HeaderComment { directive: None, value: "plain comment".to_string() },
        directive("schema", "./local.json"),
    ];
    let root = Node::table(
        vec![(Key::new("$schema"), Node::string("/abs/field.json".to_string(), Vec::new(), None))],
        Vec::new(),
        None,
    );
    a.add_from_document(&doc, &comments, &root);
    let entries = a.read();
    assert_eq!(entries.len(), 3);
    let urls: Vec<_> = entries.iter().map(|(_, s)| s.url.as_str().to_string()).collect();
    assert_eq!(urls, vec!["https://example.com/s.json", "file:///w/local.json", "file:///abs/field.json"]);
    assert_eq!(entries[0].1.priority, priority::DIRECTIVE);
    assert_eq!(entries[0].1.meta.source.as_deref(), Some(source::DIRECTIVE));
    assert_eq!(entries[2].1.priority, priority::SCHEMA_FIELD);
    assert_eq!(entries[2].1.meta.source.as_deref(), Some(source::SCHEMA_FIELD));
    for (rule, _) in entries.iter() {
        match rule {
            AssociationRule::Url(u) => assert_eq!(u.as_str(), "file:///w/doc.toml"),
            _ => panic!("a URL rule expected"),
        }
    }
    assert_eq!(found(&a, "file:///w/doc.toml").as_deref(), Some("file:///w/local.json"));
    assert_eq!(found(&a, "https://example.com/s.json"), None);
}

#[test]
fn directive_wins_over_schema_field_and_rereading_changes_nothing() {
    let mut a = SchemaAssociations::new(NativeEnvironment);
    let doc = url("file:///proj/a.toml");
    let comments = vec![directive("schema", "https://example.com/d.json")];
    let root = Node::table(
        vec![(Key::new("$schema"), Node::string("https://example.com/s.json".to_string(), Vec::new(), None))],
        Vec::new(),
        None,
    );
    a.add_from_document(&doc, &comments, &root);
    let first: Vec<(String, usize, Option<String>)> =
        a.read().iter().map(|(_, s)| (s.url.as_str().to_string(), s.priority, s.meta.source.clone())).collect();
    assert_eq!(first.len(), 3);
    assert_eq!(first[1], ("https://example.com/d.json".to_string(), 75, Some("directive".to_string())));
    assert_eq!(first[2], ("https://example.com/s.json".to_string(), 70, Some("$schema".to_string())));
    assert_eq!(found(&a, "file:///proj/a.toml").as_deref(), Some("https://example.com/d.json"));
    a.add_from_document(&doc, &comments, &root);
    let second: Vec<(String, usize, Option<String>)> =
        a.read().iter().map(|(_, s)| (s.url.as_str().to_string(), s.priority, s.meta.source.clone())).collect();
    assert_eq!(first, second);
    assert_eq!(found(&a, "file:///proj/a.toml").as_deref(), Some("https://example.com/d.json"));
}

#[test]
fn schema_field_alone_associates_the_document() {
    let mut a = SchemaAssociations::new(NativeEnvironment);
    let doc = url("file:///proj/a.toml");
    let root = Node::table(
        vec![(Key::new("$schema"), Node::string("https://example.com/s.json".to_string(), Vec::new(), None))],
        Vec::new(),
        None,
    );
    a.add_from_document(&doc, &[], &root);
    let found_assoc = a.association_for(&doc).expect("an association");
    assert_eq!(found_assoc.url.as_str(), "https://example.com/s.json");
    assert_eq!(found_assoc.priority, 70);
    assert_eq!(found_assoc.meta.source.as_deref(), Some("$schema"));
}

#[test]
fn rereading_a_document_drops_its_own_url_rules() {
    let mut a = empty_associations();
    let doc = url("file:///w/doc.toml");
    a.add(AssociationRule::Url(doc.clone()), SchemaAssociation {
        url: url("https://example.com/old.json"),
        meta: meta("old", source::DIRECTIVE),
        priority: priority::DIRECTIVE,
    });
    a.add(AssociationRule::Url(doc.clone()), SchemaAssociation {
        url: url("https://example.com/kept.json"),
        meta: meta("kept", source::CONFIG),
        priority: priority::CONFIG,
    });
    let root = Node::table(Vec::new(), Vec::new(), None);
    a.add_from_document(&doc, &[], &root);
    assert_eq!(a.read().len(), 1);
    assert_eq!(a.read()[0].1.url.as_str(), "https://example.com/kept.json");
}

fn store_schema(name: &str, schema: &str, patterns: &[&str]) -> SchemaStoreSchemaMeta {
    SchemaStoreSchemaMeta {
        name: name.to_string(),
        description: format!("{} schema", name),
        url: url(schema),
        file_match: patterns.iter().map(|p| p.to_string()).collect(),
        versions: Vec::new(),
    }
}

#[test]
fn schemastore_catalogs_add_glob_rules() {
    let mut catalog = SchemaCatalog::SchemaStore(SchemaStoreCatalog {
        schema: SchemaStoreCatalogSchema,
        schemas: vec![
            store_schema("cargo", "https://json.schemastore.org/cargo.json", &["Cargo.toml"]),
            store_schema("broken", "https://json.schemastore.org/broken.json", &["a[", "b.toml"]),
            store_schema("pyproject", "https://json.schemastore.org/pyproject.json", &["**/pyproject.toml"]),
        ],
    });
    catalog.transform_paths();
    match &catalog {
        SchemaCatalog::SchemaStore(store) => {
            assert_eq!(store.schemas[0].file_match, vec!["**/Cargo.toml"]);
            assert_eq!(store.schemas[1].file_match, vec!["**/a[", "**/b.toml"]);
            assert_eq!(store.schemas[2].file_match, vec!["**/pyproject.toml"]);
        },
        _ => panic!("a SchemaStore catalog expected"),
    }
    let mut a = empty_associations();
    let from = url("https://json.schemastore.org/api/json/catalog.json");
    a.add_from_catalog(&from, &catalog);
    assert_eq!(a.read().len(), 2);
    let cargo = &a.read()[0].1;
    assert_eq!(cargo.priority, priority::CATALOG);
    assert_eq!(cargo.meta.name.as_deref(), Some("cargo"));
    assert_eq!(cargo.meta.description.as_deref(), Some("cargo schema"));
    assert_eq!(cargo.meta.source.as_deref(), Some(source::CATALOG));
    assert_eq!(cargo.meta.catalog_url.as_deref(), Some("https://json.schemastore.org/api/json/catalog.json"));
    assert_eq!(found(&a, "file:///w/x/Cargo.toml").as_deref(), Some("https://json.schemastore.org/cargo.json"));
    assert_eq!(found(&a, "file:///w/pyproject.toml").as_deref(), Some("https://json.schemastore.org/pyproject.json"));
}

#[test]
fn taplo_catalogs_add_regex_rules() {
    let schema = TaploSchemaMeta {
        title: "Example".to_string(),
        description: "An example".to_string(),
        url: url("https://example.com/example.json"),
        url_hash: "abc".to_string(),
        extra: TaploSchemaExtraInfo {
            authors: vec!["someone".to_string()],
            version: None,
            patterns: vec!["example\\.toml$".to_string(), "(".to_string(), "sample\\.toml$".to_string()],
        },
    };
    let catalog = SchemaCatalog::Taplo(TaploSchemaCatalog { schemas: vec![schema] });
    let mut a = empty_associations();
    a.add_from_catalog(&url("https://example.com/catalog.json"), &catalog);
    assert_eq!(a.read().len(), 2);
    assert_eq!(a.read()[0].1.meta.name.as_deref(), Some("Example"));
    assert_eq!(found(&a, "file:///w/sample.toml").as_deref(), Some("https://example.com/example.json"));
    let defaults = TaploSchemaCatalog::default();
    assert!(defaults.schemas.is_empty());
    let extra = TaploSchemaExtraInfo::default();
    assert!(extra.authors.is_empty() && extra.version.is_none() && extra.patterns.is_empty());
}

#[test]
fn schema_marker_accepts_only_the_catalog_schema() {
    let marker = SchemaStoreCatalogSchema::parse("https://json.schemastore.org/schema-catalog.json").ok().expect("accepted");
    assert_eq!(marker.as_str(), "https://json.schemastore.org/schema-catalog.json");
    assert!(SchemaStoreCatalogSchema::parse(marker.as_str()).is_ok());
    match SchemaStoreCatalogSchema::parse("https://example.com/other.json") {
        Err(m) => assert_eq!(m, "expected $schema to be https://json.schemastore.org/schema-catalog.json"),
        Ok(_) => panic!("refusal expected"),
    }
}

fn files(patterns: &[&str]) -> Option<GlobRule> {
    Some(GlobRule::new(&patterns.iter().map(|p| p.to_string()).collect::<Vec<_>>(), &[]).ok().expect("valid globs"))
}

fn schema_opts(enabled: Option<bool>, schema: &str) -> Options {
    Options { schema: Some(SchemaOptions { enabled, url: Some(url(schema)) }) }
}

#[test]
fn configuration_rules_add_glob_rules() {
    let config = Config {
        rule: vec![
            Rule { file_rule: files(&["/w/a/**"]), options: schema_opts(None, "https://example.com/a.json") },
            Rule { file_rule: files(&["/w/b/**"]), options: schema_opts(Some(false), "https://example.com/b.json") },
            Rule { file_rule: None, options: schema_opts(Some(true), "https://example.com/c.json") },
            Rule { file_rule: files(&["/w/d/**"]), options: Options { schema: None } },
        ],
        file_rule: files(&["/w/**"]),
        global_options: schema_opts(Some(true), "https://example.com/global.json"),
    };
    let mut a = empty_associations();
    a.add_from_config(&config);
    assert_eq!(a.read().len(), 2);
    assert_eq!(a.read()[0].1.priority, priority::CONFIG_RULE);
    assert_eq!(a.read()[1].1.priority, priority::CONFIG);
    assert_eq!(a.read()[1].1.meta.source.as_deref(), Some(source::CONFIG));
    assert_eq!(found(&a, "file:///w/a/x.toml").as_deref(), Some("https://example.com/a.json"));
    assert_eq!(found(&a, "file:///w/b/x.toml").as_deref(), Some("https://example.com/global.json"));
}

#[test]
fn urls_are_parsed_and_normalized() {
    let u = url("HTTPS://Example.COM/a/../b");
    assert_eq!(u.as_str(), "https://example.com/b");
    assert_eq!(u.scheme(), "https");
    assert_eq!(u.host_str(), Some("example.com"));
    assert!(ParsedUrl::parse("not a url").is_err());
    let joined = u.join("c/d.json").ok().expect("a relative reference");
    assert_eq!(joined.as_str(), "https://example.com/c/d.json");
    assert!(u.same_as(&url("https://example.com/b")));
    assert_eq!(u.to_text(), "https://example.com/b");
}

#[test]
fn url_index_counts_each_url_once() {
    let mut a = empty_associations();
    a.add(AssociationRule::Url(url("file:///w/a.toml")), assoc("https://example.com/u1.json", "u1", 3));
    a.add(AssociationRule::Url(url("file:///w/a.toml")), assoc("https://example.com/u2.json", "u2", 4));
    a.add(AssociationRule::Url(url("file:///w/b.toml")), assoc("https://example.com/u3.json", "u3", 4));
    let stats = a.get_stats();
    assert_eq!(stats.total_associations, 3);
    assert_eq!(stats.url_index_size, 2);
    assert_eq!(found(&a, "file:///w/a.toml").as_deref(), Some("https://example.com/u2.json"));
}
