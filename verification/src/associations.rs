//! The schema associations of a workspace: the rules that select documents, the schema
//! each selects, and the lookup of the schema for a document.
use vstd::prelude::*;
use crate::bindings::{CompiledRegex, glob_set_accepts, opt_view, regex_accepts, string_views, url_join, url_parse};
use crate::catalog::{SchemaCatalog, SchemaStoreSchemaMeta, TaploSchemaMeta};
use crate::config::{Config, Rule, enabled_schema, schema_url_of};
use crate::index::{
    AssociationIndexes, IndexModel, empty_model, index_sound, law_lookups_come_from_held_entries, lemma_empty_sound,
    lemma_sound_add, lemma_sound_remove, lemma_sound_sorted, lemma_url_entries_bounded, model_add, model_find, model_remove,
    model_wf, priority_sorted, rule_selects, url_rule_count,
};
use crate::keys::{Key, KeyOrIndex};
use crate::location::{ParsedUrl, UrlView, joined_view, parsed_view};
use crate::node::{Node, find_entry};
use crate::platform::{path_absolute, path_is_absolute};
use crate::priority;
use crate::rules::{
    AssociationMeta, AssociationRule, GlobRule, MetaView, SchemaAssociation,
};
use crate::source;
use crate::text::{decimal, owned, push_labelled};

verus! {

/// What the library needs to know of the platform it runs on.
pub trait Environment {
    /// Whether `path` is an absolute path on this platform.
    spec fn spec_is_absolute(&self, path: Seq<char>) -> bool;

    /// Whether `path` is an absolute path on this platform.
    fn is_absolute(&self, path: &str) -> (r: bool)
        ensures
            r == self.spec_is_absolute(path@),
    ;
}

/// The platform the library is built for.
#[derive(Clone, Copy, Debug)]
pub struct NativeEnvironment;

impl Environment for NativeEnvironment {
    open spec fn spec_is_absolute(&self, path: Seq<char>) -> bool {
        path_is_absolute(path)
    }

    fn is_absolute(&self, path: &str) -> (r: bool) {
        path_absolute(path)
    }
}

/// The URL of the schema of Taplo's own configuration file.
pub const TAPLO_CONFIG_URL: &'static str = "taplo://taplo.toml";

/// The pattern of the URLs of Taplo's configuration files.
pub const TAPLO_CONFIG_PATTERN: &'static str = ".*\\.?taplo\\.toml$";

/// The metadata of the built-in association.
pub open spec fn builtin_meta() -> MetaView {
    MetaView {
        name: Some("Taplo"@),
        description: Some("Taplo configuration file."@),
        source: Some(source::BUILTIN@),
        catalog_url: None,
    }
}

/// The built-in association can be made: its pattern compiles and its URL parses.
pub open spec fn builtin_available() -> bool {
    regex_accepts(TAPLO_CONFIG_PATTERN@) && url_parse(TAPLO_CONFIG_URL@) is Some
}

/// `e` is the built-in association: Taplo's configuration files, by their URLs, with the
/// schema of Taplo's configuration.
pub open spec fn is_builtin_entry(e: (AssociationRule, SchemaAssociation)) -> bool {
    &&& e.0 matches AssociationRule::Regex(x) && x.pattern_view() == TAPLO_CONFIG_PATTERN@
    &&& e.1.url@ == parsed_view(TAPLO_CONFIG_URL@)
    &&& e.1.meta@ == builtin_meta()
    &&& e.1.priority == priority::BUILTIN
}

/// The entries among the first `n` of `es` that `keep` marks, in order.
pub open spec fn kept_upto(es: Seq<(AssociationRule, SchemaAssociation)>, keep: Seq<bool>, n: nat) -> Seq<(AssociationRule, SchemaAssociation)>
    decreases n,
{
    if n == 0 {
        Seq::empty()
    } else {
        let rest = kept_upto(es, keep, (n - 1) as nat);
        if keep[n - 1] {
            rest.push(es[n - 1])
        } else {
            rest
        }
    }
}

/// The indexes after the entries among the first `n` of `es` that `keep` does not mark are
/// taken out, in order.
pub open spec fn pruned_upto(m: IndexModel, es: Seq<(AssociationRule, SchemaAssociation)>, keep: Seq<bool>, n: nat) -> IndexModel
    decreases n,
{
    if n == 0 {
        m
    } else {
        let prev = pruned_upto(m, es, keep, (n - 1) as nat);
        if keep[n - 1] {
            prev
        } else {
            model_remove(prev, es[n - 1].0, es[n - 1].1).0
        }
    }
}

/// The indexes after each entry of `es` is added, in order.
pub open spec fn add_all(m: IndexModel, es: Seq<(AssociationRule, SchemaAssociation)>) -> IndexModel
    decreases es.len(),
{
    if es.len() == 0 {
        m
    } else {
        model_add(add_all(m, es.drop_last()), es.last().0, es.last().1)
    }
}

/// The entries whose source is not the built-in one are marked.
pub open spec fn non_builtin_marks(es: Seq<(AssociationRule, SchemaAssociation)>) -> Seq<bool> {
    Seq::new(es.len(), |i: int| es[i].1.meta@.source != Some(source::BUILTIN@))
}

/// The URL that the schema reference `value` in the document at `doc` stands for: the URL
/// it parses as; else, where it is an absolute path, the `file://` URL of that path; else
/// the reference resolved against the document's URL. `None` where that fails.
pub open spec fn reference_target(doc: Seq<char>, value: Seq<char>, absolute: bool) -> Option<UrlView> {
    if url_parse(value) is Some {
        Some(parsed_view(value))
    } else if absolute {
        if url_parse("file://"@ + value) is Some {
            Some(parsed_view("file://"@ + value))
        } else {
            None
        }
    } else if url_join(doc, value) is Some {
        Some(joined_view(doc, value))
    } else {
        None
    }
}

/// The view of an optional URL.
pub open spec fn url_views(o: Option<ParsedUrl>) -> Option<UrlView> {
    match o {
        Some(u) => Some(u@),
        None => None,
    }
}

/// Resolves the schema reference `value` in the document at `doc_url`; `absolute` says
/// whether `value` is an absolute path, which counts only where it does not parse as a URL.
pub fn resolve_reference(doc_url: &ParsedUrl, value: &str, absolute: bool) -> (r: Option<ParsedUrl>)
    ensures
        url_views(r) == reference_target(doc_url@.text, value@, absolute),
{
    match ParsedUrl::parse(value) {
        Ok(u) => Some(u),
        Err(_) => {
            if absolute {
                let mut text = owned("file://");
                text.append(value);
                match ParsedUrl::parse(text.as_str()) {
                    Ok(u) => Some(u),
                    Err(_) => None,
                }
            } else {
                match doc_url.join(value) {
                    Ok(u) => Some(u),
                    Err(_) => None,
                }
            }
        },
    }
}

/// A comment at the head of a document: the name of its directive, where it is one (as in
/// `#:schema ./schema.json`), and its value.
pub struct HeaderComment {
    /// The directive's name.
    pub directive: Option<String>,
    /// The comment's value: for a directive, the text after its name.
    pub value: String,
}

/// The comment is a `schema` directive with a value.
pub open spec fn is_schema_directive(c: HeaderComment) -> bool {
    opt_view(c.directive) == Some("schema"@) && c.value@.len() > 0
}

/// The URLs that the schema directives among `comments` stand for, in order, where `env`
/// says which values are absolute paths; directives that resolve to no URL are left out.
pub open spec fn directive_targets<E: Environment>(env: E, doc: Seq<char>, comments: Seq<HeaderComment>) -> Seq<UrlView>
    decreases comments.len(),
{
    if comments.len() == 0 {
        Seq::empty()
    } else {
        let rest = directive_targets(env, doc, comments.drop_last());
        let c = comments.last();
        if is_schema_directive(c) {
            match reference_target(doc, c.value@, env.spec_is_absolute(c.value@)) {
                Some(t) => rest.push(t),
                None => rest,
            }
        } else {
            rest
        }
    }
}

/// The string at the key `$schema` of the root table of a document.
pub open spec fn schema_field(root: Node) -> Option<Seq<char>> {
    match root {
        Node::Table(t) => match find_entry(t.0.entries@, "$schema"@) {
            Some(Node::Str(v)) => Some(v.0.value@),
            _ => None,
        },
        _ => None,
    }
}

/// The URL the `$schema` field of the document stands for, as a sequence of at most one.
pub open spec fn field_targets<E: Environment>(env: E, doc: Seq<char>, root: Node) -> Seq<UrlView> {
    match schema_field(root) {
        Some(v) => match reference_target(doc, v, env.spec_is_absolute(v)) {
            Some(t) => seq![t],
            None => Seq::empty(),
        },
        None => Seq::empty(),
    }
}

/// Metadata that records only the source `src`.
pub open spec fn source_only(src: Seq<char>) -> MetaView {
    MetaView { name: None, description: None, source: Some(src), catalog_url: None }
}

/// `e` associates the document at exactly `doc` with the schema at `t`, from the source
/// `src`, with priority `prio`.
pub open spec fn is_url_entry(e: (AssociationRule, SchemaAssociation), doc: UrlView, t: UrlView, src: Seq<char>, prio: usize) -> bool {
    &&& e.0 matches AssociationRule::Url(u) && u@ == doc
    &&& e.1.url@ == t
    &&& e.1.meta@ == source_only(src)
    &&& e.1.priority == prio
}

/// `e` is a URL rule for the document at `doc` that came from a schema directive or a
/// `$schema` field.
pub open spec fn is_own_document_entry(e: (AssociationRule, SchemaAssociation), doc: Seq<char>) -> bool {
    e.0 matches AssociationRule::Url(u) && u@.text == doc
        && (e.1.meta@.source == Some(source::DIRECTIVE@) || e.1.meta@.source == Some(source::SCHEMA_FIELD@))
}

/// The entries that survive a new reading of the document at `doc`: all but its own.
pub open spec fn document_marks(es: Seq<(AssociationRule, SchemaAssociation)>, doc: Seq<char>) -> Seq<bool> {
    Seq::new(es.len(), |i: int| !is_own_document_entry(es[i], doc))
}

/// Marks that keep the first `kl` entries and drop the rest keep the first `kl`.
proof fn lemma_kept_prefix(es: Seq<(AssociationRule, SchemaAssociation)>, keep: Seq<bool>, kl: nat, n: nat)
    requires
        kl <= es.len(),
        n <= es.len(),
        keep.len() == es.len(),
        forall|i: int| 0 <= i < kl ==> #[trigger] keep[i],
        forall|i: int| kl <= i < es.len() ==> !#[trigger] keep[i],
    ensures
        kept_upto(es, keep, n) == es.take(if n <= kl { n as int } else { kl as int }),
    decreases n,
{
    if n > 0 {
        lemma_kept_prefix(es, keep, kl, (n - 1) as nat);
        if n <= kl {
            assert(es.take(n as int) =~= es.take(n - 1).push(es[n - 1]));
        }
    } else {
        assert(es.take(0) =~= Seq::<(AssociationRule, SchemaAssociation)>::empty());
    }
}

/// Reading a document again takes out exactly what an earlier reading added: where no entry
/// of `kept` is the document's own and every entry of `added` is, the entries that survive
/// a new reading of `kept + added` are those of `kept`.
pub proof fn law_document_reread_keeps_the_rest(
    kept: Seq<(AssociationRule, SchemaAssociation)>,
    added: Seq<(AssociationRule, SchemaAssociation)>,
    doc: Seq<char>,
)
    requires
        forall|k: int| 0 <= k < kept.len() ==> !is_own_document_entry(#[trigger] kept[k], doc),
        forall|k: int| 0 <= k < added.len() ==> is_own_document_entry(#[trigger] added[k], doc),
    ensures
        kept_upto(kept + added, document_marks(kept + added, doc), (kept + added).len()) == kept,
{
    let es = kept + added;
    let keep = document_marks(es, doc);
    assert forall|i: int| 0 <= i < kept.len() implies #[trigger] keep[i] by {
        assert(es[i] == kept[i]);
    }
    assert forall|i: int| kept.len() <= i < es.len() implies !#[trigger] keep[i] by {
        assert(es[i] == added[i - kept.len()]);
    }
    lemma_kept_prefix(es, keep, kept.len(), es.len());
    assert(es.take(kept.len() as int) =~= kept);
}

/// An entry that a reading of the document adds is the document's own.
pub proof fn lemma_url_entries_are_own(e: (AssociationRule, SchemaAssociation), doc: UrlView, t: UrlView, src: Seq<char>, prio: usize)
    requires
        is_url_entry(e, doc, t, src, prio),
        src == source::DIRECTIVE@ || src == source::SCHEMA_FIELD@,
    ensures
        is_own_document_entry(e, doc.text),
{
}

/// `after` is `before` with entries appended that associate the document at `doc` with
/// the schemas at `ts` in order, each from the source `src` with priority `prio`.
pub open spec fn appends_url_entries(
    before: Seq<(AssociationRule, SchemaAssociation)>,
    after: Seq<(AssociationRule, SchemaAssociation)>,
    doc: UrlView,
    ts: Seq<UrlView>,
    src: Seq<char>,
    prio: usize,
) -> bool {
    &&& after.len() == before.len() + ts.len()
    &&& after.take(before.len() as int) == before
    &&& forall|k: int| 0 <= k < ts.len() ==> #[trigger] is_url_entry(after[before.len() + k], doc, ts[k], src, prio)
}

/// Adding the entries of `es2` after those of `es1` is adding those of `es1 + es2`.
pub proof fn lemma_add_all_push(m: IndexModel, es: Seq<(AssociationRule, SchemaAssociation)>, e: (AssociationRule, SchemaAssociation))
    ensures
        add_all(m, es.push(e)) == model_add(add_all(m, es), e.0, e.1),
{
    assert(es.push(e).drop_last() =~= es);
}

/// Entries appended after the first `n` of `es` are added to the indexes `m` in order.
pub proof fn lemma_appended(m: IndexModel, es: Seq<(AssociationRule, SchemaAssociation)>, e: (AssociationRule, SchemaAssociation), n: int)
    requires
        0 <= n <= es.len(),
    ensures
        es.push(e).take(n) == es.take(n),
        es.push(e).skip(n) == es.skip(n).push(e),
        add_all(m, es.push(e).skip(n)) == model_add(add_all(m, es.skip(n)), e.0, e.1),
{
    assert(es.push(e).take(n) =~= es.take(n));
    assert(es.push(e).skip(n) =~= es.skip(n).push(e));
    lemma_add_all_push(m, es.skip(n), e);
}

/// The metadata of an association from the catalog at `catalog`.
pub open spec fn catalog_meta(name: Seq<char>, description: Seq<char>, catalog: Seq<char>) -> MetaView {
    MetaView { name: Some(name), description: Some(description), source: Some(source::CATALOG@), catalog_url: Some(catalog) }
}

/// The SchemaStore schemas whose file patterns all compile, in order.
pub open spec fn usable_store_schemas(ss: Seq<SchemaStoreSchemaMeta>) -> Seq<SchemaStoreSchemaMeta>
    decreases ss.len(),
{
    if ss.len() == 0 {
        Seq::empty()
    } else {
        let rest = usable_store_schemas(ss.drop_last());
        if glob_set_accepts(string_views(ss.last().file_match@)) {
            rest.push(ss.last())
        } else {
            rest
        }
    }
}

/// `e` associates the files that the patterns of the SchemaStore schema `s` select with
/// that schema, as the catalog at `catalog` says.
pub open spec fn is_store_entry(e: (AssociationRule, SchemaAssociation), s: SchemaStoreSchemaMeta, catalog: Seq<char>) -> bool {
    &&& e.0 matches AssociationRule::Glob(g) && g.accept_patterns() == string_views(s.file_match@) && g.reject_patterns().len() == 0
    &&& e.1.url == s.url
    &&& e.1.meta@ == catalog_meta(s.name@, s.description@, catalog)
    &&& e.1.priority == priority::CATALOG
}

/// The patterns among the first `n` of the Taplo schema `s` that compile, each with `s`.
pub open spec fn usable_schema_patterns(s: TaploSchemaMeta, n: nat) -> Seq<(TaploSchemaMeta, Seq<char>)>
    decreases n,
{
    if n == 0 {
        Seq::empty()
    } else {
        let rest = usable_schema_patterns(s, (n - 1) as nat);
        let p = s.extra.patterns@[n - 1]@;
        if regex_accepts(p) {
            rest.push((s, p))
        } else {
            rest
        }
    }
}

/// The patterns of the Taplo schemas `ss` that compile, each with its schema, in order.
pub open spec fn usable_taplo_patterns(ss: Seq<TaploSchemaMeta>) -> Seq<(TaploSchemaMeta, Seq<char>)>
    decreases ss.len(),
{
    if ss.len() == 0 {
        Seq::empty()
    } else {
        usable_taplo_patterns(ss.drop_last()) + usable_schema_patterns(ss.last(), ss.last().extra.patterns@.len())
    }
}

/// `e` associates the files whose URLs the pattern `p.1` matches with the Taplo schema
/// `p.0`, as the catalog at `catalog` says.
pub open spec fn is_taplo_entry(e: (AssociationRule, SchemaAssociation), p: (TaploSchemaMeta, Seq<char>), catalog: Seq<char>) -> bool {
    &&& e.0 matches AssociationRule::Regex(x) && x.pattern_view() == p.1
    &&& e.1.url == p.0.url
    &&& e.1.meta@ == catalog_meta(p.0.title@, p.0.description@, catalog)
    &&& e.1.priority == priority::CATALOG
}

/// `added` are the entries the catalog `c` at `catalog` gives: one per SchemaStore schema
/// whose patterns compile, or one per Taplo pattern that compiles.
pub open spec fn catalog_entries(added: Seq<(AssociationRule, SchemaAssociation)>, c: SchemaCatalog, catalog: Seq<char>) -> bool {
    match c {
        SchemaCatalog::SchemaStore(store) => {
            let us = usable_store_schemas(store.schemas@);
            &&& added.len() == us.len()
            &&& forall|k: int| 0 <= k < us.len() ==> #[trigger] is_store_entry(added[k], us[k], catalog)
        },
        SchemaCatalog::Taplo(taplo) => {
            let ps = usable_taplo_patterns(taplo.schemas@);
            &&& added.len() == ps.len()
            &&& forall|k: int| 0 <= k < ps.len() ==> #[trigger] is_taplo_entry(added[k], ps[k], catalog)
        },
    }
}

/// The glob rules and schemas that the rules among `rs` ask for, with the priority of
/// configuration rules.
pub open spec fn rule_targets(rs: Seq<Rule>) -> Seq<(GlobRule, ParsedUrl, usize)>
    decreases rs.len(),
{
    if rs.len() == 0 {
        Seq::empty()
    } else {
        let rest = rule_targets(rs.drop_last());
        match (rs.last().file_rule, enabled_schema(rs.last().options.schema)) {
            (Some(g), Some(u)) => rest.push((g, u, priority::CONFIG_RULE)),
            _ => rest,
        }
    }
}

/// The glob rules and schemas that a configuration asks for: those of its rules, then its
/// own.
pub open spec fn config_targets(c: Config) -> Seq<(GlobRule, ParsedUrl, usize)> {
    rule_targets(c.rule@) + match (c.file_rule, enabled_schema(c.global_options.schema)) {
        (Some(g), Some(u)) => seq![(g, u, priority::CONFIG)],
        _ => Seq::empty(),
    }
}

/// `e` associates the files the glob rule `t.0` selects with the schema at `t.1`, from the
/// configuration, with priority `t.2`.
pub open spec fn is_config_entry(e: (AssociationRule, SchemaAssociation), t: (GlobRule, ParsedUrl, usize)) -> bool {
    &&& e.0 == AssociationRule::Glob(t.0)
    &&& e.1.url == t.1
    &&& e.1.meta@ == source_only(source::CONFIG@)
    &&& e.1.priority == t.2
}

/// The entries that `keep` marks among the first `n` are the ones kept, in order.
proof fn lemma_kept_from_marked(es: Seq<(AssociationRule, SchemaAssociation)>, keep: Seq<bool>, n: nat, k: int)
    requires
        n <= es.len(),
        n <= keep.len(),
        0 <= k < kept_upto(es, keep, n).len(),
    ensures
        exists|i: int| 0 <= i < n && keep[i] && kept_upto(es, keep, n)[k] == #[trigger] es[i],
    decreases n,
{
    let prev = kept_upto(es, keep, (n - 1) as nat);
    if keep[n - 1] && k == prev.len() {
        assert(kept_upto(es, keep, n)[k] == es[n - 1]);
    } else {
        lemma_kept_from_marked(es, keep, (n - 1) as nat, k);
        let i = choose|i: int| 0 <= i < n - 1 && keep[i] && prev[k] == #[trigger] es[i];
        assert(kept_upto(es, keep, n)[k] == es[i]);
    }
}

/// After `add_builtins` drops the built-in entries, none is left: with the one it adds,
/// exactly one built-in association remains.
pub proof fn law_builtin_entries_are_dropped(es: Seq<(AssociationRule, SchemaAssociation)>)
    ensures
        forall|k: int| 0 <= k < kept_upto(es, non_builtin_marks(es), es.len()).len() ==>
            (#[trigger] kept_upto(es, non_builtin_marks(es), es.len())[k]).1.meta@.source != Some(source::BUILTIN@),
{
    let keep = non_builtin_marks(es);
    assert forall|k: int| 0 <= k < kept_upto(es, keep, es.len()).len() implies
        (#[trigger] kept_upto(es, keep, es.len())[k]).1.meta@.source != Some(source::BUILTIN@) by {
        lemma_kept_from_marked(es, keep, es.len(), k);
    }
}

/// Reading a document takes out every URL rule for the document's own URL that came from a
/// schema directive or a `$schema` field.
pub proof fn law_document_entries_are_dropped(es: Seq<(AssociationRule, SchemaAssociation)>, doc: Seq<char>)
    ensures
        forall|k: int| 0 <= k < kept_upto(es, document_marks(es, doc), es.len()).len() ==>
            !((#[trigger] kept_upto(es, document_marks(es, doc), es.len())[k]).0 matches AssociationRule::Url(u) && u@.text == doc
                && (kept_upto(es, document_marks(es, doc), es.len())[k].1.meta@.source == Some(source::DIRECTIVE@)
                    || kept_upto(es, document_marks(es, doc), es.len())[k].1.meta@.source == Some(source::SCHEMA_FIELD@))),
{
    let keep = document_marks(es, doc);
    assert forall|k: int| 0 <= k < kept_upto(es, keep, es.len()).len() implies
        !((#[trigger] kept_upto(es, keep, es.len())[k]).0 matches AssociationRule::Url(u) && u@.text == doc
            && (kept_upto(es, keep, es.len())[k].1.meta@.source == Some(source::DIRECTIVE@)
                || kept_upto(es, keep, es.len())[k].1.meta@.source == Some(source::SCHEMA_FIELD@))) by {
        lemma_kept_from_marked(es, keep, es.len(), k);
    }
}

/// An entry that a mark keeps stays in the list; one that it drops leaves it.
pub proof fn law_kept_entries_are_marked(es: Seq<(AssociationRule, SchemaAssociation)>, keep: Seq<bool>, k: int)
    requires
        keep.len() == es.len(),
        0 <= k < kept_upto(es, keep, es.len()).len(),
    ensures
        exists|i: int| 0 <= i < es.len() && keep[i] && kept_upto(es, keep, es.len())[k] == #[trigger] es[i],
{
    lemma_kept_from_marked(es, keep, es.len(), k);
}

/// `after` is `before` with every built-in entry taken out and then, where it can be made,
/// the built-in entry added at the end.
pub open spec fn builtins_replaced(before: Seq<(AssociationRule, SchemaAssociation)>, after: Seq<(AssociationRule, SchemaAssociation)>) -> bool {
    let keep = non_builtin_marks(before);
    let kept = kept_upto(before, keep, keep.len());
    if builtin_available() {
        &&& after.len() == kept.len() + 1
        &&& after.drop_last() == kept
        &&& is_builtin_entry(after.last())
    } else {
        after == kept
    }
}

/// Replacing the built-in entries twice is replacing them once: the second replacement
/// keeps every entry that the first one kept, and ends with the one built-in entry.
pub proof fn law_builtins_twice_as_once(
    e0: Seq<(AssociationRule, SchemaAssociation)>,
    e1: Seq<(AssociationRule, SchemaAssociation)>,
    e2: Seq<(AssociationRule, SchemaAssociation)>,
)
    requires
        builtins_replaced(e0, e1),
        builtins_replaced(e1, e2),
    ensures
        builtins_replaced(e0, e2),
{
    let kept = kept_upto(e0, non_builtin_marks(e0), e0.len());
    let keep1 = non_builtin_marks(e1);
    law_builtin_entries_are_dropped(e0);
    assert forall|i: int| 0 <= i < kept.len() implies #[trigger] keep1[i] by {
        if builtin_available() {
            assert(e1[i] == e1.drop_last()[i]);
        }
        assert(kept[i] == kept[i]);
    }
    if builtin_available() {
        assert(e1.last().1.meta@.source == Some(source::BUILTIN@));
        assert(!keep1[e1.len() - 1]);
    }
    lemma_kept_prefix(e1, keep1, kept.len(), e1.len());
    if builtin_available() {
        assert(e1.take(kept.len() as int) =~= e1.drop_last());
    } else {
        assert(e1.take(kept.len() as int) =~= e1);
    }
}

/// `after` is `before` read anew for the document at `doc`, with the header comments
/// `comments` and the root `root`: the document's own entries taken out, then one entry
/// for each schema directive that resolves, then one for a `$schema` field that resolves.
pub open spec fn document_read<E: Environment>(
    before: Seq<(AssociationRule, SchemaAssociation)>,
    after: Seq<(AssociationRule, SchemaAssociation)>,
    env: E,
    doc: UrlView,
    comments: Seq<HeaderComment>,
    root: Node,
) -> bool {
    let keep = document_marks(before, doc.text);
    let kept = kept_upto(before, keep, keep.len());
    let ds = directive_targets(env, doc.text, comments);
    let fs = field_targets(env, doc.text, root);
    let mid = after.take((kept.len() + ds.len()) as int);
    &&& appends_url_entries(kept, mid, doc, ds, source::DIRECTIVE@, priority::DIRECTIVE)
    &&& appends_url_entries(mid, after, doc, fs, source::SCHEMA_FIELD@, priority::SCHEMA_FIELD)
}

/// Reading a document a second time, with the same comments, root and environment, leaves
/// the entries as one reading of the list before the first does: the second reading takes
/// out exactly what the first added and adds the same entries again.
pub proof fn law_document_reread_is_stable<E: Environment>(
    e0: Seq<(AssociationRule, SchemaAssociation)>,
    e1: Seq<(AssociationRule, SchemaAssociation)>,
    e2: Seq<(AssociationRule, SchemaAssociation)>,
    env: E,
    doc: UrlView,
    comments: Seq<HeaderComment>,
    root: Node,
)
    requires
        document_read(e0, e1, env, doc, comments, root),
        document_read(e1, e2, env, doc, comments, root),
    ensures
        document_read(e0, e2, env, doc, comments, root),
{
    let keep0 = document_marks(e0, doc.text);
    let kept = kept_upto(e0, keep0, keep0.len());
    let ds = directive_targets(env, doc.text, comments);
    let fs = field_targets(env, doc.text, root);
    let k = kept.len();
    let mid = e1.take((k + ds.len()) as int);
    assert(mid.len() == k + ds.len());
    assert(e1.take(k as int) =~= mid.take(k as int));
    let added = e1.skip(k as int);
    assert(e1 =~= kept + added);
    assert forall|t: int| 0 <= t < added.len() implies is_own_document_entry(#[trigger] added[t], doc.text) by {
        if t < ds.len() {
            assert(is_url_entry(mid[k + t], doc, ds[t], source::DIRECTIVE@, priority::DIRECTIVE));
            assert(mid[k + t] == added[t]);
            lemma_url_entries_are_own(added[t], doc, ds[t], source::DIRECTIVE@, priority::DIRECTIVE);
        } else {
            let t2 = t - ds.len();
            assert(is_url_entry(e1[mid.len() + t2], doc, fs[t2], source::SCHEMA_FIELD@, priority::SCHEMA_FIELD));
            assert(e1[mid.len() + t2] == added[t]);
            lemma_url_entries_are_own(added[t], doc, fs[t2], source::SCHEMA_FIELD@, priority::SCHEMA_FIELD);
        }
    }
    assert forall|t: int| 0 <= t < kept.len() implies !is_own_document_entry(#[trigger] kept[t], doc.text) by {
        law_kept_entries_are_marked(e0, keep0, t);
    }
    law_document_reread_keeps_the_rest(kept, added, doc.text);
}

/// An entry among the first `n` that `keep` marks is among those kept.
proof fn lemma_marked_is_kept(es: Seq<(AssociationRule, SchemaAssociation)>, keep: Seq<bool>, n: nat, i: int)
    requires
        n <= es.len(),
        n <= keep.len(),
        0 <= i < n,
        keep[i],
    ensures
        kept_upto(es, keep, n).contains(es[i]),
    decreases n,
{
    let prev = kept_upto(es, keep, (n - 1) as nat);
    if i == n - 1 {
        assert(kept_upto(es, keep, n)[prev.len() as int] == es[i]);
    } else {
        lemma_marked_is_kept(es, keep, (n - 1) as nat, i);
        let j = choose|j: int| 0 <= j < prev.len() && prev[j] == es[i];
        assert(kept_upto(es, keep, n)[j] == es[i]);
    }
}

/// Reading the document at `doc` keeps every other entry: an entry stays in the list unless
/// its rule is the URL rule of `doc` itself and it came from a schema directive or a
/// `$schema` field. In particular the entries of other documents are untouched.
pub proof fn law_document_read_keeps_other_entries<E: Environment>(
    before: Seq<(AssociationRule, SchemaAssociation)>,
    after: Seq<(AssociationRule, SchemaAssociation)>,
    env: E,
    doc: UrlView,
    comments: Seq<HeaderComment>,
    root: Node,
    i: int,
)
    requires
        document_read(before, after, env, doc, comments, root),
        0 <= i < before.len(),
        !(before[i].0 matches AssociationRule::Url(u) && u@.text == doc.text
            && (before[i].1.meta@.source == Some(source::DIRECTIVE@) || before[i].1.meta@.source == Some(source::SCHEMA_FIELD@))),
    ensures
        after.contains(before[i]),
{
    let keep = document_marks(before, doc.text);
    let kept = kept_upto(before, keep, keep.len());
    let ds = directive_targets(env, doc.text, comments);
    let mid = after.take((kept.len() + ds.len()) as int);
    assert(keep[i]);
    lemma_marked_is_kept(before, keep, keep.len(), i);
    let j = choose|j: int| 0 <= j < kept.len() && kept[j] == before[i];
    assert(mid.take(kept.len() as int) == kept);
    assert(after[j] == mid[j]);
    assert(after[j] == before[i]);
}

/// Counts of the associations and of the entries of the indexes.
#[derive(Clone, Copy, Debug)]
pub struct AssociationStats {
    /// The number of associations.
    pub total_associations: usize,
    /// The number of exact-URL entries.
    pub url_index_size: usize,
    /// The number of glob entries.
    pub glob_index_size: usize,
    /// The number of regex entries.
    pub regex_patterns_size: usize,
    /// The number of priorities that some association has.
    pub priority_levels: usize,
    /// The number of compiled glob rules held.
    pub glob_cache_size: usize,
}

/// The report of association counts.
pub open spec fn association_stats_text(s: AssociationStats) -> Seq<char> {
    "Schema Associations Stats:"@ + "\n- Total associations: "@ + decimal(s.total_associations as nat)
        + "\n- URL index entries: "@ + decimal(s.url_index_size as nat)
        + "\n- Glob pattern entries: "@ + decimal(s.glob_index_size as nat)
        + "\n- Regex patterns: "@ + decimal(s.regex_patterns_size as nat)
        + "\n- Priority levels: "@ + decimal(s.priority_levels as nat)
        + "\n- Glob cache entries: "@ + decimal(s.glob_cache_size as nat)
}

impl AssociationStats {
    /// The counts as a report, one count per line.
    pub fn to_text(&self) -> (r: String)
        ensures
            r@ == association_stats_text(*self),
    {
        let mut s = owned("Schema Associations Stats:");
        push_labelled(&mut s, "\n- Total associations: ", self.total_associations);
        push_labelled(&mut s, "\n- URL index entries: ", self.url_index_size);
        push_labelled(&mut s, "\n- Glob pattern entries: ", self.glob_index_size);
        push_labelled(&mut s, "\n- Regex patterns: ", self.regex_patterns_size);
        push_labelled(&mut s, "\n- Priority levels: ", self.priority_levels);
        push_labelled(&mut s, "\n- Glob cache entries: ", self.glob_cache_size);
        s
    }
}

/// The schema associations of a workspace: the list of rules with their associations, in
/// the order they were added, and the indexes that answer lookups.
pub struct SchemaAssociations<E: Environment> {
    env: E,
    indexes: AssociationIndexes,
    associations: Vec<(AssociationRule, SchemaAssociation)>,
}

impl<E: Environment> SchemaAssociations<E> {
    #[verifier::type_invariant]
    closed spec fn inv(self) -> bool {
        self.indexes.wf() && index_sound(self.indexes@, self.associations@)
    }

    /// The rules with their associations, in the order they were added.
    pub closed spec fn entries(&self) -> Seq<(AssociationRule, SchemaAssociation)> {
        self.associations@
    }

    /// The contents of the indexes.
    pub closed spec fn index(&self) -> IndexModel {
        self.indexes@
    }

    /// The environment the associations were made for.
    pub closed spec fn environment(&self) -> E {
        self.env
    }

    /// Associations that hold the built-in association only.
    pub fn new(env: E) -> (r: Self)
        ensures
            r.environment() == env,
            model_wf(r.index()),
            builtin_available() ==> r.entries().len() == 1 && is_builtin_entry(r.entries()[0])
                && r.index() == model_add(empty_model(), r.entries()[0].0, r.entries()[0].1),
            !builtin_available() ==> r.entries().len() == 0 && r.index() == empty_model(),
    {
        let mut this = SchemaAssociations { env, indexes: AssociationIndexes::new(), associations: Vec::new() };
        this.add_builtins();
        proof {
            assert(kept_upto(Seq::<(AssociationRule, SchemaAssociation)>::empty(), Seq::empty(), 0) =~= Seq::empty());
            use_type_invariant(&this);
        }
        this
    }

    /// Adds `rule` with the association `assoc`.
    pub fn add(&mut self, rule: AssociationRule, assoc: SchemaAssociation)
        ensures
            final(self).environment() == old(self).environment(),
            model_wf(final(self).index()),
            final(self).entries() == old(self).entries().push((rule, assoc)),
            final(self).index() == model_add(old(self).index(), rule, assoc),
    {
        proof {
            use_type_invariant(&*self);
        }
        let mut idx = AssociationIndexes::new();
        proof {
            lemma_empty_sound(self.associations@);
        }
        std::mem::swap(&mut idx, &mut self.indexes);
        let mut list: Vec<(AssociationRule, SchemaAssociation)> = Vec::new();
        std::mem::swap(&mut list, &mut self.associations);
        proof {
            lemma_sound_add(idx@, list@, rule, assoc);
        }
        idx.add(rule.clone(), assoc.clone());
        list.push((rule, assoc));
        self.associations = list;
        self.indexes = idx;
        proof {
            use_type_invariant(&*self);
        }
    }

    /// Keeps the entries that `keep` marks, and takes the others out of the indexes in
    /// order.
    fn keep_marked(&mut self, keep: &Vec<bool>)
        requires
            keep@.len() == old(self).entries().len(),
        ensures
            final(self).environment() == old(self).environment(),
            model_wf(final(self).index()),
            final(self).entries() == kept_upto(old(self).entries(), keep@, keep@.len()),
            final(self).index() == pruned_upto(old(self).index(), old(self).entries(), keep@, keep@.len()),
    {
        proof {
            use_type_invariant(&*self);
        }
        let ghost es = self.associations@;
        let ghost m = self.indexes@;
        let mut idx = AssociationIndexes::new();
        proof {
            lemma_empty_sound(es);
        }
        std::mem::swap(&mut idx, &mut self.indexes);
        let mut all: Vec<(AssociationRule, SchemaAssociation)> = Vec::new();
        std::mem::swap(&mut all, &mut self.associations);
        let mut kept: Vec<(AssociationRule, SchemaAssociation)> = Vec::new();
        let mut i: usize = 0;
        assert(kept@ + es.subrange(0, es.len() as int) =~= es);
        while i < all.len()
            invariant
                0 <= i <= all@.len(),
                all@ == es,
                keep@.len() == es.len(),
                idx.wf(),
                kept@ == kept_upto(es, keep@, i as nat),
                idx@ == pruned_upto(m, es, keep@, i as nat),
                index_sound(idx@, kept@ + es.subrange(i as int, es.len() as int)),
            decreases all@.len() - i,
        {
            let ghost held = kept@ + es.subrange(i as int, es.len() as int);
            let ghost p = kept@.len() as int;
            assert(held[p] == es[i as int]);
            if keep[i] {
                kept.push((all[i].0.clone(), all[i].1.clone()));
                assert(kept@ + es.subrange(i + 1, es.len() as int) =~= held);
            } else {
                proof {
                    lemma_sound_remove(idx@, held, p);
                    assert(held.remove(p) =~= kept@ + es.subrange(i + 1, es.len() as int));
                }
                idx.remove(&all[i].0, &all[i].1);
            }
            i = i + 1;
        }
        assert(kept@ + es.subrange(es.len() as int, es.len() as int) =~= kept@);
        self.associations = kept;
        self.indexes = idx;
        proof {
            use_type_invariant(&*self);
        }
    }

    /// Keeps the entries for which `f` answers `true`, and takes the others out of the
    /// indexes.
    pub fn retain<F: Fn(&(AssociationRule, SchemaAssociation)) -> bool>(&mut self, f: F)
        requires
            forall|e: (AssociationRule, SchemaAssociation)| #[trigger] f.requires((&e,)),
        ensures
            final(self).environment() == old(self).environment(),
            exists|keep: Seq<bool>| {
                &&& keep.len() == old(self).entries().len()
                &&& forall|i: int| 0 <= i < keep.len() ==> f.ensures((&old(self).entries()[i],), #[trigger] keep[i])
                &&& final(self).entries() == kept_upto(old(self).entries(), keep, keep.len())
                &&& final(self).index() == pruned_upto(old(self).index(), old(self).entries(), keep, keep.len())
            },
    {
        let mut keep: Vec<bool> = Vec::new();
        let mut i: usize = 0;
        while i < self.associations.len()
            invariant
                0 <= i <= self.associations@.len(),
                keep@.len() == i,
                forall|e: (AssociationRule, SchemaAssociation)| #[trigger] f.requires((&e,)),
                forall|j: int| 0 <= j < i ==> f.ensures((&self.associations@[j],), #[trigger] keep@[j]),
            decreases self.associations@.len() - i,
        {
            let k = f(&self.associations[i]);
            keep.push(k);
            i = i + 1;
        }
        let ghost marks = keep@;
        self.keep_marked(&keep);
        assert(forall|i: int| 0 <= i < marks.len() ==> f.ensures((&old(self).entries()[i],), #[trigger] marks[i]));
    }

    /// The rules with their associations, in the order they were added.
    pub fn read(&self) -> (r: &Vec<(AssociationRule, SchemaAssociation)>)
        ensures
            r@ == self.entries(),
    {
        &self.associations
    }

    /// Takes out every association, the built-in one too.
    pub fn clear(&mut self)
        ensures
            final(self).environment() == old(self).environment(),
            model_wf(final(self).index()),
            final(self).entries().len() == 0,
            final(self).index() == empty_model(),
    {
        proof {
            use_type_invariant(&*self);
        }
        proof {
            lemma_empty_sound(self.associations@);
        }
        self.indexes = AssociationIndexes::new();
        self.associations = Vec::new();
        proof {
            use_type_invariant(&*self);
        }
    }

    /// Replaces the built-in associations by the one built-in association.
    pub fn add_builtins(&mut self)
        ensures
            final(self).environment() == old(self).environment(),
            model_wf(final(self).index()),
            builtins_replaced(old(self).entries(), final(self).entries()),
            ({
                let keep = non_builtin_marks(old(self).entries());
                let pruned = pruned_upto(old(self).index(), old(self).entries(), keep, keep.len());
                if builtin_available() {
                    final(self).index() == model_add(pruned, final(self).entries().last().0, final(self).entries().last().1)
                } else {
                    final(self).index() == pruned
                }
            }),
    {
        let mut keep: Vec<bool> = Vec::new();
        let mut i: usize = 0;
        while i < self.associations.len()
            invariant
                0 <= i <= self.associations@.len(),
                keep@ == non_builtin_marks(self.associations@).take(i as int),
            decreases self.associations@.len() - i,
        {
            let k = !self.associations[i].1.meta.has_source(source::BUILTIN);
            keep.push(k);
            assert(keep@ =~= non_builtin_marks(self.associations@).take(i + 1));
            i = i + 1;
        }
        assert(keep@ =~= non_builtin_marks(self.associations@));
        self.keep_marked(&keep);
        let ghost kept = self.associations@;
        match (CompiledRegex::new(TAPLO_CONFIG_PATTERN), ParsedUrl::parse(TAPLO_CONFIG_URL)) {
            (Ok(pattern), Ok(url)) => {
                let meta = AssociationMeta {
                    name: Some(owned("Taplo")),
                    description: Some(owned("Taplo configuration file.")),
                    source: Some(owned(source::BUILTIN)),
                    catalog_url: None,
                };
                let assoc = SchemaAssociation { meta, url, priority: priority::BUILTIN };
                self.add(AssociationRule::Regex(pattern), assoc);
                assert(self.associations@.drop_last() =~= kept);
            },
            _ => {},
        }
        proof {
            use_type_invariant(&*self);
        }
    }

    /// Adds the URL rule of `doc` with the schema at `url`, from the source `src`, with
    /// priority `prio`.
    fn add_url_entry(&mut self, doc: &ParsedUrl, url: ParsedUrl, src: &str, prio: usize)
        ensures
            final(self).environment() == old(self).environment(),
            model_wf(final(self).index()),
            final(self).entries().len() == old(self).entries().len() + 1,
            final(self).entries().drop_last() == old(self).entries(),
            is_url_entry(final(self).entries().last(), doc@, url@, src@, prio),
            final(self).index() == model_add(old(self).index(), final(self).entries().last().0, final(self).entries().last().1),
    {
        let assoc = SchemaAssociation { meta: AssociationMeta::from_source(src), url, priority: prio };
        self.add(AssociationRule::Url(doc.clone()), assoc);
        assert(self.entries().drop_last() =~= old(self).entries());
        proof {
            use_type_invariant(&*self);
        }
    }

    /// The URL the schema reference `value` in the document at `doc_url` stands for; the
    /// environment says whether `value` is an absolute path where it does not parse as a
    /// URL.
    fn schema_reference(&self, doc_url: &ParsedUrl, value: &str) -> (r: Option<ParsedUrl>)
        ensures
            url_views(r) == reference_target(doc_url@.text, value@, self.environment().spec_is_absolute(value@)),
    {
        let absolute = match ParsedUrl::parse(value) {
            Ok(_) => false,
            Err(_) => self.env.is_absolute(value),
        };
        resolve_reference(doc_url, value, absolute)
    }

    /// Takes out the URL rules for `doc_url` that came from a schema directive or a
    /// `$schema` field, then adds, for each schema directive among `header_comments` and
    /// then for the `$schema` field of `root`, the URL rule of `doc_url` with that schema. A reference that does not parse as a URL is read as a path: an absolute one
    /// (as the environment says) as a `file://` URL, another one relative to the document.
    /// References that resolve to no URL are left out.
    pub fn add_from_document(&mut self, doc_url: &ParsedUrl, header_comments: &[HeaderComment], root: &Node)
        ensures
            final(self).environment() == old(self).environment(),
            model_wf(final(self).index()),
            ({
                let keep = document_marks(old(self).entries(), doc_url@.text);
                let kept = kept_upto(old(self).entries(), keep, keep.len());
                let pruned = pruned_upto(old(self).index(), old(self).entries(), keep, keep.len());
                &&& document_read(old(self).entries(), final(self).entries(), old(self).environment(), doc_url@, header_comments@, *root)
                &&& final(self).index() == add_all(pruned, final(self).entries().skip(kept.len() as int))
            }),
    {
        let ghost old_entries = self.entries();
        let ghost old_index = self.index();
        let mut keep: Vec<bool> = Vec::new();
        let mut i: usize = 0;
        while i < self.associations.len()
            invariant
                0 <= i <= self.associations@.len(),
                self.associations@ == old_entries,
                keep@ == document_marks(old_entries, doc_url@.text).take(i as int),
            decreases self.associations@.len() - i,
        {
            let own = match &self.associations[i].0 {
                AssociationRule::Url(u) => u.same_as(doc_url) && (self.associations[i].1.meta.has_source(source::DIRECTIVE)
                    || self.associations[i].1.meta.has_source(source::SCHEMA_FIELD)),
                _ => false,
            };
            keep.push(!own);
            assert(keep@ =~= document_marks(old_entries, doc_url@.text).take(i + 1));
            i = i + 1;
        }
        assert(keep@ =~= document_marks(old_entries, doc_url@.text));
        self.keep_marked(&keep);
        let ghost kept = self.entries();
        let ghost pruned = self.index();
        let ghost kl = kept.len();
        assert(self.entries().skip(kl as int) =~= Seq::empty());
        let ghost env = self.environment();
        assert(directive_targets(env, doc_url@.text, header_comments@.take(0)) =~= Seq::empty());
        assert(kept.take(kl as int) =~= kept);
        let mut c: usize = 0;
        while c < header_comments.len()
            invariant
                0 <= c <= header_comments@.len(),
                env == old(self).environment(),
                self.environment() == old(self).environment(),
                kl == kept.len(),
                appends_url_entries(kept, self.entries(), doc_url@, directive_targets(env, doc_url@.text, header_comments@.take(c as int)), source::DIRECTIVE@, priority::DIRECTIVE),
                self.index() == add_all(pruned, self.entries().skip(kl as int)),
            decreases header_comments@.len() - c,
        {
            let ghost before = self.entries();
            let ghost ds = directive_targets(env, doc_url@.text, header_comments@.take(c as int));
            let comment = &header_comments[c];
            let is_schema = match &comment.directive {
                Some(d) => crate::text::str_equal(d.as_str(), "schema"),
                None => false,
            };
            if is_schema && comment.value.unicode_len() > 0 {
                let target = self.schema_reference(doc_url, comment.value.as_str());
                match target {
                    Some(u) => {
                        self.add_url_entry(doc_url, u, source::DIRECTIVE, priority::DIRECTIVE);
                    },
                    None => {},
                }
            }
            proof {
                assert(header_comments@.take(c + 1).drop_last() =~= header_comments@.take(c as int));
                assert(header_comments@.take(c + 1).last() == header_comments@[c as int]);
                let ds2 = directive_targets(env, doc_url@.text, header_comments@.take(c + 1));
                if self.entries().len() > before.len() {
                    assert(ds2 == ds.push(self.entries().last().1.url@));
                    assert(self.entries().skip(kl as int) =~= before.skip(kl as int).push(self.entries().last()));
                    lemma_add_all_push(pruned, before.skip(kl as int), self.entries().last());
                    assert(self.entries().take(kl as int) =~= before.take(kl as int));
                    assert forall|k: int| 0 <= k < ds2.len() implies #[trigger] is_url_entry(self.entries()[kl + k], doc_url@, ds2[k], source::DIRECTIVE@, priority::DIRECTIVE) by {
                        if k < ds.len() {
                            assert(self.entries()[kl + k] == before[kl + k]);
                        }
                    }
                } else {
                    assert(ds2 == ds);
                }
            }
            c = c + 1;
        }
        assert(header_comments@.take(header_comments@.len() as int) =~= header_comments@);
        let ghost mid = self.entries();
        let ghost ds = directive_targets(env, doc_url@.text, header_comments@);
        assert(mid.take((kl + ds.len()) as int) =~= mid);
        let field = root.get(&KeyOrIndex::Key(Key::new("$schema")));
        match field.as_str() {
            Some(v) => {
                let target = self.schema_reference(doc_url, v.0.value.as_str());
                match target {
                    Some(u) => {
                        self.add_url_entry(doc_url, u, source::SCHEMA_FIELD, priority::SCHEMA_FIELD);
                        proof {
                            assert(self.entries().skip(kl as int) =~= mid.skip(kl as int).push(self.entries().last()));
                            lemma_add_all_push(pruned, mid.skip(kl as int), self.entries().last());
                            assert(self.entries().take((kl + ds.len()) as int) =~= mid);
                        }
                    },
                    None => {},
                }
            },
            None => {},
        }
        proof {
            let fs = field_targets(env, doc_url@.text, *root);
            assert(self.entries().take((kl + ds.len()) as int) =~= mid);
            if self.entries().len() == mid.len() {
                assert(self.entries() == mid);
            }
        }
        proof {
            use_type_invariant(&*self);
        }
    }

    /// Adds the associations that the catalog `catalog`, read from `url`, gives: for a
    /// SchemaStore catalog, a glob rule per schema whose patterns all compile; for a Taplo
    /// catalog, a regex rule per pattern that compiles.
    pub fn add_from_catalog(&mut self, url: &ParsedUrl, catalog: &SchemaCatalog)
        ensures
            final(self).environment() == old(self).environment(),
            model_wf(final(self).index()),
            final(self).entries().len() >= old(self).entries().len(),
            final(self).entries().take(old(self).entries().len() as int) == old(self).entries(),
            final(self).index() == add_all(old(self).index(), final(self).entries().skip(old(self).entries().len() as int)),
            catalog_entries(final(self).entries().skip(old(self).entries().len() as int), *catalog, url@.text),
    {
        let ghost ol = self.entries().len() as int;
        let ghost old_index = self.index();
        assert(self.entries().take(ol) =~= self.entries());
        assert(self.entries().skip(ol) =~= Seq::empty());
        match catalog {
            SchemaCatalog::SchemaStore(store) => {
                let none: Vec<String> = Vec::new();
                let mut i: usize = 0;
                assert(usable_store_schemas(store.schemas@.take(0)) =~= Seq::empty());
                while i < store.schemas.len()
                    invariant
                        0 <= i <= store.schemas@.len(),
                        none@.len() == 0,
                        self.environment() == old(self).environment(),
                        ol == old(self).entries().len(),
                        self.entries().len() >= ol,
                        self.entries().take(ol) == old(self).entries(),
                        self.index() == add_all(old_index, self.entries().skip(ol)),
                        self.entries().skip(ol).len() == usable_store_schemas(store.schemas@.take(i as int)).len(),
                        forall|k: int| 0 <= k < usable_store_schemas(store.schemas@.take(i as int)).len() ==>
                            #[trigger] is_store_entry(self.entries().skip(ol)[k], usable_store_schemas(store.schemas@.take(i as int))[k], url@.text),
                    decreases store.schemas@.len() - i,
                {
                    let ghost before = self.entries();
                    let ghost us = usable_store_schemas(store.schemas@.take(i as int));
                    let s = &store.schemas[i];
                    proof {
                        assert(store.schemas@.take(i + 1).drop_last() =~= store.schemas@.take(i as int));
                        assert(store.schemas@.take(i + 1).last() == *s);
                        assert(string_views(none@) =~= Seq::empty());
                    }
                    match GlobRule::new(s.file_match.as_slice(), none.as_slice()) {
                        Ok(rule) => {
                            let meta = AssociationMeta {
                                name: Some(s.name.clone()),
                                description: Some(s.description.clone()),
                                source: Some(owned(source::CATALOG)),
                                catalog_url: Some(url.to_text()),
                            };
                            let assoc = SchemaAssociation { meta, url: s.url.clone(), priority: priority::CATALOG };
                            let rule = AssociationRule::Glob(rule);
                            let ghost e = (rule, assoc);
                            self.add(rule, assoc);
                            proof {
                                lemma_appended(old_index, before, e, ol);
                                let us2 = usable_store_schemas(store.schemas@.take(i + 1));
                                assert(us2 == us.push(*s));
                                assert forall|k: int| 0 <= k < us2.len() implies #[trigger] is_store_entry(self.entries().skip(ol)[k], us2[k], url@.text) by {
                                    if k < us.len() {
                                        assert(self.entries().skip(ol)[k] == before.skip(ol)[k]);
                                    }
                                }
                            }
                        },
                        Err(_) => {
                            proof {
                                assert(usable_store_schemas(store.schemas@.take(i + 1)) == us);
                            }
                        },
                    }
                    i = i + 1;
                }
                assert(store.schemas@.take(store.schemas@.len() as int) =~= store.schemas@);
            },
            SchemaCatalog::Taplo(taplo) => {
                let mut i: usize = 0;
                assert(usable_taplo_patterns(taplo.schemas@.take(0)) =~= Seq::empty());
                while i < taplo.schemas.len()
                    invariant
                        0 <= i <= taplo.schemas@.len(),
                        self.environment() == old(self).environment(),
                        ol == old(self).entries().len(),
                        self.entries().len() >= ol,
                        self.entries().take(ol) == old(self).entries(),
                        self.index() == add_all(old_index, self.entries().skip(ol)),
                        self.entries().skip(ol).len() == usable_taplo_patterns(taplo.schemas@.take(i as int)).len(),
                        forall|k: int| 0 <= k < usable_taplo_patterns(taplo.schemas@.take(i as int)).len() ==>
                            #[trigger] is_taplo_entry(self.entries().skip(ol)[k], usable_taplo_patterns(taplo.schemas@.take(i as int))[k], url@.text),
                    decreases taplo.schemas@.len() - i,
                {
                    let s = &taplo.schemas[i];
                    let ghost done = usable_taplo_patterns(taplo.schemas@.take(i as int));
                    let mut j: usize = 0;
                    while j < s.extra.patterns.len()
                        invariant
                            0 <= j <= s.extra.patterns@.len(),
                            self.environment() == old(self).environment(),
                            ol == old(self).entries().len(),
                        self.entries().len() >= ol,
                            self.entries().take(ol) == old(self).entries(),
                            self.index() == add_all(old_index, self.entries().skip(ol)),
                            self.entries().skip(ol).len() == (done + usable_schema_patterns(*s, j as nat)).len(),
                            forall|k: int| 0 <= k < (done + usable_schema_patterns(*s, j as nat)).len() ==>
                                #[trigger] is_taplo_entry(self.entries().skip(ol)[k], (done + usable_schema_patterns(*s, j as nat))[k], url@.text),
                        decreases s.extra.patterns@.len() - j,
                    {
                        let ghost before = self.entries();
                        let ghost ps = done + usable_schema_patterns(*s, j as nat);
                        match CompiledRegex::new(s.extra.patterns[j].as_str()) {
                            Ok(x) => {
                                let meta = AssociationMeta {
                                    name: Some(s.title.clone()),
                                    description: Some(s.description.clone()),
                                    source: Some(owned(source::CATALOG)),
                                    catalog_url: Some(url.to_text()),
                                };
                                let assoc = SchemaAssociation { meta, url: s.url.clone(), priority: priority::CATALOG };
                                let rule = AssociationRule::Regex(x);
                                let ghost e = (rule, assoc);
                                self.add(rule, assoc);
                                proof {
                                    lemma_appended(old_index, before, e, ol);
                                    let ps2 = done + usable_schema_patterns(*s, (j + 1) as nat);
                                    assert(ps2 =~= ps.push((*s, s.extra.patterns@[j as int]@)));
                                    assert forall|k: int| 0 <= k < ps2.len() implies #[trigger] is_taplo_entry(self.entries().skip(ol)[k], ps2[k], url@.text) by {
                                        if k < ps.len() {
                                            assert(self.entries().skip(ol)[k] == before.skip(ol)[k]);
                                        }
                                    }
                                }
                            },
                            Err(_) => {
                                proof {
                                    assert(done + usable_schema_patterns(*s, (j + 1) as nat) == ps);
                                }
                            },
                        }
                        j = j + 1;
                    }
                    proof {
                        assert(taplo.schemas@.take(i + 1).drop_last() =~= taplo.schemas@.take(i as int));
                        assert(taplo.schemas@.take(i + 1).last() == *s);
                    }
                    i = i + 1;
                }
                assert(taplo.schemas@.take(taplo.schemas@.len() as int) =~= taplo.schemas@);
            },
        }
        proof {
            use_type_invariant(&*self);
        }
    }

    /// Adds a glob rule with the schema at `url` from the configuration, with priority
    /// `prio`.
    fn add_config_entry(&mut self, rule: &GlobRule, url: &ParsedUrl, prio: usize)
        ensures
            final(self).environment() == old(self).environment(),
            model_wf(final(self).index()),
            final(self).entries().len() == old(self).entries().len() + 1,
            final(self).entries().drop_last() == old(self).entries(),
            is_config_entry(final(self).entries().last(), (*rule, *url, prio)),
            final(self).index() == model_add(old(self).index(), final(self).entries().last().0, final(self).entries().last().1),
    {
        let assoc = SchemaAssociation { meta: AssociationMeta::from_source(source::CONFIG), url: url.clone(), priority: prio };
        self.add(AssociationRule::Glob(rule.clone()), assoc);
        assert(self.entries().drop_last() =~= old(self).entries());
        proof {
            use_type_invariant(&*self);
        }
    }

    /// Adds the associations the configuration asks for: for each rule that covers files
    /// and names a schema that is not switched off, its glob rule with that schema; then
    /// the same for the configuration's own files and schema.
    pub fn add_from_config(&mut self, config: &Config)
        ensures
            final(self).environment() == old(self).environment(),
            model_wf(final(self).index()),
            final(self).entries().len() == old(self).entries().len() + config_targets(*config).len(),
            final(self).entries().take(old(self).entries().len() as int) == old(self).entries(),
            forall|k: int| 0 <= k < config_targets(*config).len() ==>
                #[trigger] is_config_entry(final(self).entries()[old(self).entries().len() + k], config_targets(*config)[k]),
            final(self).index() == add_all(old(self).index(), final(self).entries().skip(old(self).entries().len() as int)),
    {
        let ghost ol = self.entries().len() as int;
        let ghost old_index = self.index();
        assert(self.entries().take(ol) =~= self.entries());
        assert(self.entries().skip(ol) =~= Seq::empty());
        assert(rule_targets(config.rule@.take(0)) =~= Seq::empty());
        let mut i: usize = 0;
        while i < config.rule.len()
            invariant
                0 <= i <= config.rule@.len(),
                self.environment() == old(self).environment(),
                ol == old(self).entries().len(),
                self.entries().len() == ol + rule_targets(config.rule@.take(i as int)).len(),
                self.entries().take(ol) == old(self).entries(),
                self.index() == add_all(old_index, self.entries().skip(ol)),
                forall|k: int| 0 <= k < rule_targets(config.rule@.take(i as int)).len() ==>
                    #[trigger] is_config_entry(self.entries()[ol + k], rule_targets(config.rule@.take(i as int))[k]),
            decreases config.rule@.len() - i,
        {
            let ghost before = self.entries();
            let ghost ts = rule_targets(config.rule@.take(i as int));
            let r = &config.rule[i];
            proof {
                assert(config.rule@.take(i + 1).drop_last() =~= config.rule@.take(i as int));
                assert(config.rule@.take(i + 1).last() == *r);
            }
            match &r.file_rule {
                Some(g) => match schema_url_of(&r.options.schema) {
                    Some(u) => {
                        self.add_config_entry(g, u, priority::CONFIG_RULE);
                        proof {
                            lemma_appended(old_index, before, self.entries().last(), ol);
                            assert(self.entries() == before.push(self.entries().last()));
                            let ts2 = rule_targets(config.rule@.take(i + 1));
                            assert(ts2 == ts.push((*g, *u, priority::CONFIG_RULE)));
                            assert forall|k: int| 0 <= k < ts2.len() implies #[trigger] is_config_entry(self.entries()[ol + k], ts2[k]) by {
                                if k < ts.len() {
                                    assert(self.entries()[ol + k] == before[ol + k]);
                                }
                            }
                        }
                    },
                    None => {},
                },
                None => {},
            }
            i = i + 1;
        }
        assert(config.rule@.take(config.rule@.len() as int) =~= config.rule@);
        let ghost before = self.entries();
        let ghost ts = rule_targets(config.rule@);
        match &config.file_rule {
            Some(g) => match schema_url_of(&config.global_options.schema) {
                Some(u) => {
                    self.add_config_entry(g, u, priority::CONFIG);
                    proof {
                        lemma_appended(old_index, before, self.entries().last(), ol);
                        assert(self.entries() == before.push(self.entries().last()));
                        let ts2 = config_targets(*config);
                        assert(ts2 == ts.push((*g, *u, priority::CONFIG)));
                        assert forall|k: int| 0 <= k < ts2.len() implies #[trigger] is_config_entry(self.entries()[ol + k], ts2[k]) by {
                            if k < ts.len() {
                                assert(self.entries()[ol + k] == before[ol + k]);
                            }
                        }
                    }
                },
                None => {
                    assert(config_targets(*config) =~= ts);
                },
            },
            None => {
                assert(config_targets(*config) =~= ts);
            },
        }
        proof {
            use_type_invariant(&*self);
        }
    }

    /// The association of the document at `file`: the entry for its exact URL; else the
    /// earliest glob entry of the highest priority that selects its path; else the earliest
    /// regex entry of the highest priority that matches its URL.
    pub fn association_for(&self, file: &ParsedUrl) -> (r: Option<SchemaAssociation>)
        ensures
            r == model_find(self.index(), file@),
            r matches Some(a) ==> exists|j: int| 0 <= j < self.entries().len() && self.entries()[j].1 == a
                && rule_selects(self.entries()[j].0, file@),
    {
        proof {
            use_type_invariant(self);
            law_lookups_come_from_held_entries(self.indexes@, self.associations@, file@);
        }
        let r = self.indexes.find_match(file);
        proof {
            if r is Some {
                let a = r->0;
                let j = choose|j: int| 0 <= j < self.associations@.len() && self.associations@[j].1 == a
                    && rule_selects(self.associations@[j].0, file@);
                assert(self.entries()[j] == self.associations@[j]);
            }
        }
        r
    }

    /// The counts of the associations and of the entries of the indexes.
    pub fn get_stats(&self) -> (r: AssociationStats)
        ensures
            r.total_associations == self.entries().len(),
            r.url_index_size == self.index().urls.len(),
            r.url_index_size <= url_rule_count(self.entries()),
            r.glob_index_size == self.index().globs.len(),
            r.regex_patterns_size == self.index().regexes.len(),
            r.priority_levels == self.index().priorities.len(),
            r.glob_cache_size == self.index().globs.len(),
    {
        proof {
            use_type_invariant(self);
            lemma_url_entries_bounded(self.indexes@.urls, self.associations@);
        }
        let (urls, globs, regexes, levels) = self.indexes.sizes();
        AssociationStats {
            total_associations: self.associations.len(),
            url_index_size: urls,
            glob_index_size: globs,
            regex_patterns_size: regexes,
            priority_levels: levels,
            glob_cache_size: globs,
        }
    }

    /// Orders the regex entries of the indexes by descending priority, equal priorities in
    /// the order they were added.
    pub fn optimize_indexes(&mut self)
        ensures
            final(self).environment() == old(self).environment(),
            model_wf(final(self).index()),
            final(self).entries() == old(self).entries(),
            final(self).index().urls == old(self).index().urls,
            final(self).index().globs == old(self).index().globs,
            final(self).index().priorities == old(self).index().priorities,
            priority_sorted(old(self).index().regexes, final(self).index().regexes),
    {
        proof {
            use_type_invariant(&*self);
        }
        let ghost es = self.associations@;
        let mut idx = AssociationIndexes::new();
        proof {
            lemma_empty_sound(es);
        }
        std::mem::swap(&mut idx, &mut self.indexes);
        let ghost before = idx@;
        idx.optimize();
        proof {
            lemma_sound_sorted(before, idx@.regexes, es);
            assert(idx@ == IndexModel { urls: before.urls, globs: before.globs, regexes: idx@.regexes, priorities: before.priorities });
        }
        self.indexes = idx;
        proof {
            use_type_invariant(&*self);
        }
    }
}

} // verus!
