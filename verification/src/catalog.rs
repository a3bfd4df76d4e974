//! Schema catalogs: lists of schemas, each with the files it applies to. SchemaStore
//! catalogs select files by glob patterns, Taplo catalogs by regular expressions.
use vstd::prelude::*;
use crate::location::ParsedUrl;
use crate::text::{is_prefix_of, owned, str_equal, str_starts_with};

verus! {

/// The URL of the schema that SchemaStore catalogs name in their `$schema` field.
pub const SCHEMA_STORE_CATALOG_SCHEMA_URL: &'static str = "https://json.schemastore.org/schema-catalog.json";

/// The text a SchemaStore catalog's `$schema` field is read from.
pub open spec fn marker_accepted(text: Seq<char>) -> bool {
    text == SCHEMA_STORE_CATALOG_SCHEMA_URL@
}

/// The text a SchemaStore catalog's `$schema` field is written as.
pub open spec fn marker_text() -> Seq<char> {
    SCHEMA_STORE_CATALOG_SCHEMA_URL@
}

/// The `$schema` field of a SchemaStore catalog, which names SchemaStore's catalog schema.
#[derive(Clone, Copy, Debug)]
pub struct SchemaStoreCatalogSchema;

impl SchemaStoreCatalogSchema {
    /// Reads the `$schema` field from its text; fails unless the text is
    /// `SCHEMA_STORE_CATALOG_SCHEMA_URL`, with a message that names it.
    pub fn parse(text: &str) -> (r: Result<SchemaStoreCatalogSchema, String>)
        ensures
            r is Ok <==> marker_accepted(text@),
            r matches Err(m) ==> m@ == "expected $schema to be "@ + SCHEMA_STORE_CATALOG_SCHEMA_URL@,
    {
        if str_equal(text, SCHEMA_STORE_CATALOG_SCHEMA_URL) {
            Ok(SchemaStoreCatalogSchema)
        } else {
            let mut m = owned("expected $schema to be ");
            m.append(SCHEMA_STORE_CATALOG_SCHEMA_URL);
            Err(m)
        }
    }

    /// The text of the `$schema` field.
    pub fn as_str(&self) -> (r: &'static str)
        ensures
            r@ == marker_text(),
    {
        SCHEMA_STORE_CATALOG_SCHEMA_URL
    }
}

/// A schema of a SchemaStore catalog.
pub struct SchemaStoreSchemaMeta {
    /// The schema's name.
    pub name: String,
    /// The schema's description.
    pub description: String,
    /// Where the schema is.
    pub url: ParsedUrl,
    /// Glob patterns of the files the schema applies to.
    pub file_match: Vec<String>,
    /// Other versions of the schema, by version name, in the catalog's order.
    pub versions: Vec<(String, ParsedUrl)>,
}

/// A SchemaStore catalog.
pub struct SchemaStoreCatalog {
    /// The catalog's `$schema` field.
    pub schema: SchemaStoreCatalogSchema,
    /// The schemas.
    pub schemas: Vec<SchemaStoreSchemaMeta>,
}

/// What a Taplo catalog records of a schema besides where it is.
pub struct TaploSchemaExtraInfo {
    /// The schema's authors.
    pub authors: Vec<String>,
    /// The schema's version.
    pub version: Option<semver::Version>,
    /// Regular expressions over the URLs of the files the schema applies to.
    pub patterns: Vec<String>,
}

/// A schema of a Taplo catalog.
pub struct TaploSchemaMeta {
    /// The schema's title.
    pub title: String,
    /// The schema's description.
    pub description: String,
    /// Where the schema is.
    pub url: ParsedUrl,
    /// A hash of the schema's URL.
    pub url_hash: String,
    /// What else the catalog records.
    pub extra: TaploSchemaExtraInfo,
}

/// A Taplo catalog.
pub struct TaploSchemaCatalog {
    /// The schemas.
    pub schemas: Vec<TaploSchemaMeta>,
}

/// A schema catalog of either kind.
pub enum SchemaCatalog {
    /// A SchemaStore catalog.
    SchemaStore(SchemaStoreCatalog),
    /// A Taplo catalog.
    Taplo(TaploSchemaCatalog),
}

impl Default for TaploSchemaExtraInfo {
    fn default() -> (r: Self)
        ensures
            r.authors@.len() == 0,
            r.version is None,
            r.patterns@.len() == 0,
    {
        TaploSchemaExtraInfo { authors: Vec::new(), version: None, patterns: Vec::new() }
    }
}

impl Default for TaploSchemaCatalog {
    fn default() -> (r: Self)
        ensures
            r.schemas@.len() == 0,
    {
        TaploSchemaCatalog { schemas: Vec::new() }
    }
}

/// The pattern `fm`, made to match at any depth: with `**/` in front unless it starts with
/// it.
pub open spec fn anywhere_pattern(fm: Seq<char>) -> Seq<char> {
    if is_prefix_of("**/"@, fm) {
        fm
    } else {
        "**/"@ + fm
    }
}

/// Each pattern of `v`, made to match at any depth.
fn anywhere_patterns(v: &Vec<String>) -> (r: Vec<String>)
    ensures
        r@.len() == v@.len(),
        forall|i: int| 0 <= i < v@.len() ==> (#[trigger] r@[i])@ == anywhere_pattern(v@[i]@),
{
    let mut r: Vec<String> = Vec::new();
    let mut i: usize = 0;
    while i < v.len()
        invariant
            0 <= i <= v@.len(),
            r@.len() == i,
            forall|k: int| 0 <= k < i ==> (#[trigger] r@[k])@ == anywhere_pattern(v@[k]@),
        decreases v@.len() - i,
    {
        if str_starts_with(v[i].as_str(), "**/") {
            r.push(v[i].clone());
        } else {
            let mut p = owned("**/");
            p.append(v[i].as_str());
            r.push(p);
        }
        i = i + 1;
    }
    r
}

/// `n` is the schema `o` with each file pattern made to match at any depth.
pub open spec fn anywhere_schema(o: SchemaStoreSchemaMeta, n: SchemaStoreSchemaMeta) -> bool {
    &&& n.name == o.name
    &&& n.description == o.description
    &&& n.url == o.url
    &&& n.versions == o.versions
    &&& n.file_match@.len() == o.file_match@.len()
    &&& forall|i: int| 0 <= i < o.file_match@.len() ==> (#[trigger] n.file_match@[i])@ == anywhere_pattern(o.file_match@[i]@)
}

impl SchemaCatalog {
    /// Makes each file pattern of a SchemaStore catalog match at any depth, as SchemaStore
    /// patterns name files by their name alone. A Taplo catalog stays as it is.
    pub fn transform_paths(&mut self)
        ensures
            *old(self) is Taplo ==> *final(self) == *old(self),
            *old(self) matches SchemaCatalog::SchemaStore(o) ==> (*final(self) matches SchemaCatalog::SchemaStore(n)
                && n.schema == o.schema
                && n.schemas@.len() == o.schemas@.len()
                && forall|i: int| 0 <= i < o.schemas@.len() ==> anywhere_schema(o.schemas@[i], #[trigger] n.schemas@[i])),
    {
        let mut taken = SchemaCatalog::Taplo(TaploSchemaCatalog { schemas: Vec::new() });
        std::mem::swap(self, &mut taken);
        let result = match taken {
            SchemaCatalog::SchemaStore(index) => {
                let ghost old_schemas = index.schemas@;
                let schema = index.schema;
                let mut rest = index.schemas;
                let mut out: Vec<SchemaStoreSchemaMeta> = Vec::new();
                while rest.len() > 0
                    invariant
                        out@.len() + rest@.len() == old_schemas.len(),
                        rest@ == old_schemas.skip(out@.len() as int),
                        forall|k: int| 0 <= k < out@.len() ==> anywhere_schema(old_schemas[k], #[trigger] out@[k]),
                    decreases rest@.len(),
                {
                    let ghost at = out@.len() as int;
                    assert(rest@[0] == old_schemas[at]);
                    let s = rest.remove(0);
                    let file_match = anywhere_patterns(&s.file_match);
                    out.push(SchemaStoreSchemaMeta {
                        name: s.name,
                        description: s.description,
                        url: s.url,
                        file_match,
                        versions: s.versions,
                    });
                    assert(rest@ =~= old_schemas.skip(out@.len() as int));
                }
                SchemaCatalog::SchemaStore(SchemaStoreCatalog { schema, schemas: out })
            },
            other => other,
        };
        *self = result;
    }
}

/// Making a pattern match at any depth twice is making it so once.
pub proof fn law_anywhere_pattern_idempotent(fm: Seq<char>)
    ensures
        anywhere_pattern(anywhere_pattern(fm)) == anywhere_pattern(fm),
{
    if !is_prefix_of("**/"@, fm) {
        reveal_strlit("**/");
        let p = "**/"@ + fm;
        assert(p.take(3) =~= "**/"@);
    }
}

/// The text that a SchemaStore catalog's `$schema` field is written as is the one text it
/// is read from.
pub proof fn law_schema_marker_round_trip()
    ensures
        marker_accepted(marker_text()),
{
}

} // verus!
