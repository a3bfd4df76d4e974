//! The indexes behind schema association lookups: associations by exact URL, by glob rule
//! and by regular expression, and the associations grouped by priority.
use vstd::prelude::*;
use crate::bindings::{CompiledRegex, regex_matches};
use crate::location::{ParsedUrl, UrlView};
use crate::rules::{
    AssociationRule, GlobRule, SchemaAssociation, has_authority, normalize_str, normalized, same_association, same_glob_rule,
    url_has_authority, url_path, url_path_text,
};

verus! {

/// The contents of the indexes.
pub struct IndexModel {
    /// Associations by exact URL; no URL occurs twice.
    pub urls: Seq<(ParsedUrl, SchemaAssociation)>,
    /// Associations by glob rule, in the order they were added.
    pub globs: Seq<(GlobRule, SchemaAssociation)>,
    /// Associations by regular expression.
    pub regexes: Seq<(CompiledRegex, SchemaAssociation)>,
    /// The associations grouped by priority; no priority occurs twice.
    pub priorities: Seq<(usize, Seq<SchemaAssociation>)>,
}

/// Indexes that hold nothing.
pub open spec fn empty_model() -> IndexModel {
    IndexModel { urls: Seq::empty(), globs: Seq::empty(), regexes: Seq::empty(), priorities: Seq::empty() }
}

/// No URL occurs twice among the URL entries.
pub open spec fn url_keys_distinct(urls: Seq<(ParsedUrl, SchemaAssociation)>) -> bool {
    forall|i: int, j: int| #![trigger urls[i], urls[j]]
        0 <= i < j < urls.len() ==> urls[i].0@.text != urls[j].0@.text
}

/// No priority occurs twice among the priority groups.
pub open spec fn priority_keys_distinct(ps: Seq<(usize, Seq<SchemaAssociation>)>) -> bool {
    forall|i: int, j: int| #![trigger ps[i], ps[j]] 0 <= i < j < ps.len() ==> ps[i].0 != ps[j].0
}

/// The indexes are well formed.
pub open spec fn model_wf(m: IndexModel) -> bool {
    url_keys_distinct(m.urls) && priority_keys_distinct(m.priorities)
}

/// The position of the entry for the URL with serialization `text`.
pub open spec fn url_slot(urls: Seq<(ParsedUrl, SchemaAssociation)>, text: Seq<char>) -> Option<int> {
    if exists|i: int| #![trigger urls[i]] 0 <= i < urls.len() && urls[i].0@.text == text {
        Some(choose|i: int| #![trigger urls[i]] 0 <= i < urls.len() && urls[i].0@.text == text)
    } else {
        None
    }
}

/// The position of the group of priority `p`.
pub open spec fn priority_slot(ps: Seq<(usize, Seq<SchemaAssociation>)>, p: usize) -> Option<int> {
    if exists|i: int| #![trigger ps[i]] 0 <= i < ps.len() && ps[i].0 == p {
        Some(choose|i: int| #![trigger ps[i]] 0 <= i < ps.len() && ps[i].0 == p)
    } else {
        None
    }
}

/// The URL entries after `u` is associated with `a`: an entry for the same URL keeps its
/// place, and takes the new association unless its own has a higher priority.
pub open spec fn put_url(urls: Seq<(ParsedUrl, SchemaAssociation)>, u: ParsedUrl, a: SchemaAssociation) -> Seq<(ParsedUrl, SchemaAssociation)> {
    match url_slot(urls, u@.text) {
        Some(i) => if urls[i].1.priority <= a.priority { urls.update(i, (urls[i].0, a)) } else { urls },
        None => urls.push((u, a)),
    }
}

/// The URL entries without the one for the URL with serialization `text`.
pub open spec fn drop_url(urls: Seq<(ParsedUrl, SchemaAssociation)>, text: Seq<char>) -> Seq<(ParsedUrl, SchemaAssociation)> {
    match url_slot(urls, text) {
        Some(i) => urls.remove(i),
        None => urls,
    }
}

/// The priority groups after `a` joins the group of its priority.
pub open spec fn put_priority(ps: Seq<(usize, Seq<SchemaAssociation>)>, a: SchemaAssociation) -> Seq<(usize, Seq<SchemaAssociation>)> {
    match priority_slot(ps, a.priority) {
        Some(i) => ps.update(i, (a.priority, ps[i].1.push(a))),
        None => ps.push((a.priority, seq![a])),
    }
}

/// The associations of `s` that do not name the schema URL and metadata of `a`.
pub open spec fn without_same(s: Seq<SchemaAssociation>, a: SchemaAssociation) -> Seq<SchemaAssociation>
    decreases s.len(),
{
    if s.len() == 0 {
        s
    } else {
        let rest = without_same(s.drop_last(), a);
        if same_association(s.last(), a) {
            rest
        } else {
            rest.push(s.last())
        }
    }
}

/// The regex entries whose association does not name the schema URL and metadata of `a`.
pub open spec fn regexes_without(rs: Seq<(CompiledRegex, SchemaAssociation)>, a: SchemaAssociation) -> Seq<(CompiledRegex, SchemaAssociation)>
    decreases rs.len(),
{
    if rs.len() == 0 {
        rs
    } else {
        let rest = regexes_without(rs.drop_last(), a);
        if same_association(rs.last().1, a) {
            rest
        } else {
            rest.push(rs.last())
        }
    }
}

/// The glob entries except those for a rule with the patterns of `g` whose association
/// names the schema URL and metadata of `a`.
pub open spec fn globs_without(gs: Seq<(GlobRule, SchemaAssociation)>, g: GlobRule, a: SchemaAssociation) -> Seq<(GlobRule, SchemaAssociation)>
    decreases gs.len(),
{
    if gs.len() == 0 {
        gs
    } else {
        let rest = globs_without(gs.drop_last(), g, a);
        if same_glob_rule(gs.last().0, g) && same_association(gs.last().1, a) {
            rest
        } else {
            rest.push(gs.last())
        }
    }
}

/// The priority groups after the associations like `a` leave the group of its priority (a
/// group left empty goes), and whether any left.
pub open spec fn drop_priority(ps: Seq<(usize, Seq<SchemaAssociation>)>, a: SchemaAssociation) -> (Seq<(usize, Seq<SchemaAssociation>)>, bool) {
    match priority_slot(ps, a.priority) {
        Some(i) => {
            let kept = without_same(ps[i].1, a);
            (
                if kept.len() == 0 { ps.remove(i) } else { ps.update(i, (a.priority, kept)) },
                kept.len() < ps[i].1.len(),
            )
        },
        None => (ps, false),
    }
}

/// The indexes after `rule` is associated with `a`.
pub open spec fn model_add(m: IndexModel, rule: AssociationRule, a: SchemaAssociation) -> IndexModel {
    let ps = put_priority(m.priorities, a);
    match rule {
        AssociationRule::Url(u) => IndexModel { urls: put_url(m.urls, u, a), globs: m.globs, regexes: m.regexes, priorities: ps },
        AssociationRule::Glob(g) => IndexModel { urls: m.urls, globs: m.globs.push((g, a)), regexes: m.regexes, priorities: ps },
        AssociationRule::Regex(x) => IndexModel { urls: m.urls, globs: m.globs, regexes: m.regexes.push((x, a)), priorities: ps },
    }
}

/// The indexes after the association of `rule` with `a` is taken out, and whether an
/// association left its priority group. A URL rule takes out the entry of its URL; a glob
/// rule takes out every glob entry with its patterns whose association names the schema
/// URL and metadata of `a`; a regex rule takes out every regex entry whose association
/// does.
pub open spec fn model_remove(m: IndexModel, rule: AssociationRule, a: SchemaAssociation) -> (IndexModel, bool) {
    let (ps, removed) = drop_priority(m.priorities, a);
    match rule {
        AssociationRule::Url(u) => (IndexModel { urls: drop_url(m.urls, u@.text), globs: m.globs, regexes: m.regexes, priorities: ps }, removed),
        AssociationRule::Glob(g) => (IndexModel { urls: m.urls, globs: globs_without(m.globs, g, a), regexes: m.regexes, priorities: ps }, removed),
        AssociationRule::Regex(_) => (IndexModel { urls: m.urls, globs: m.globs, regexes: regexes_without(m.regexes, a), priorities: ps }, removed),
    }
}

/// Entry `i` of the first `n` is a hit, no hit among them has a higher priority, and every
/// earlier hit has a lower one.
pub open spec fn leads(prios: Seq<usize>, hits: Seq<bool>, n: int, i: int) -> bool {
    &&& 0 <= i < n
    &&& hits[i]
    &&& forall|j: int| #![trigger hits[j]] 0 <= j < n && hits[j] ==> prios[j] <= prios[i]
    &&& forall|j: int| #![trigger hits[j]] 0 <= j < i && hits[j] ==> prios[j] < prios[i]
}

/// The earliest hit of the highest priority, if there is a hit.
pub open spec fn best_hit(prios: Seq<usize>, hits: Seq<bool>) -> Option<int> {
    if exists|i: int| #[trigger] leads(prios, hits, hits.len() as int, i) {
        Some(choose|i: int| #[trigger] leads(prios, hits, hits.len() as int, i))
    } else {
        None
    }
}

/// The text glob rules are matched against: the URL without its scheme and `://` where it
/// has them, else the whole URL, percent-decoded.
pub open spec fn glob_key(u: UrlView) -> Seq<char> {
    normalized(if has_authority(u) { url_path(u) } else { u.text })
}

/// Which glob entries select the path `path`.
pub open spec fn glob_hits(globs: Seq<(GlobRule, SchemaAssociation)>, path: Seq<char>) -> Seq<bool> {
    Seq::new(globs.len(), |i: int| globs[i].0.selects(path))
}

/// The priorities of the glob entries.
pub open spec fn glob_priorities(globs: Seq<(GlobRule, SchemaAssociation)>) -> Seq<usize> {
    Seq::new(globs.len(), |i: int| globs[i].1.priority)
}

/// Which regex entries match somewhere in `text`.
pub open spec fn regex_hits(rs: Seq<(CompiledRegex, SchemaAssociation)>, text: Seq<char>) -> Seq<bool> {
    Seq::new(rs.len(), |i: int| regex_matches(rs[i].0.pattern_view(), text))
}

/// The priorities of the regex entries.
pub open spec fn regex_priorities(rs: Seq<(CompiledRegex, SchemaAssociation)>) -> Seq<usize> {
    Seq::new(rs.len(), |i: int| rs[i].1.priority)
}

/// The association the indexes give the document at `u`: the entry for its exact URL;
/// else, among the glob entries that select its path, the earliest of the highest
/// priority; else, among the regex entries that match its percent-decoded URL, the
/// earliest of the highest priority.
pub open spec fn model_find(m: IndexModel, u: UrlView) -> Option<SchemaAssociation> {
    match url_slot(m.urls, u.text) {
        Some(i) => Some(m.urls[i].1),
        None => match best_hit(glob_priorities(m.globs), glob_hits(m.globs, glob_key(u))) {
            Some(i) => Some(m.globs[i].1),
            None => match best_hit(regex_priorities(m.regexes), regex_hits(m.regexes, normalized(u.text))) {
                Some(i) => Some(m.regexes[i].1),
                None => None,
            },
        },
    }
}

/// There is at most one leading hit.
pub proof fn lemma_leads_unique(prios: Seq<usize>, hits: Seq<bool>, n: int, i: int, j: int)
    requires
        leads(prios, hits, n, i),
        leads(prios, hits, n, j),
    ensures
        i == j,
{
    if i < j {
        assert(hits[i]);
    } else if j < i {
        assert(hits[j]);
    }
}

/// A leading hit is the one `best_hit` gives.
pub proof fn lemma_best_hit_at(prios: Seq<usize>, hits: Seq<bool>, i: int)
    requires
        leads(prios, hits, hits.len() as int, i),
    ensures
        best_hit(prios, hits) == Some(i),
{
    let c = choose|k: int| #[trigger] leads(prios, hits, hits.len() as int, k);
    lemma_leads_unique(prios, hits, hits.len() as int, i, c);
}

/// Where nothing is a hit, `best_hit` gives nothing.
pub proof fn lemma_best_hit_none(prios: Seq<usize>, hits: Seq<bool>)
    requires
        forall|j: int| 0 <= j < hits.len() ==> !(#[trigger] hits[j]),
    ensures
        best_hit(prios, hits) is None,
{
}

/// `new` is `old` ordered by descending priority, equal priorities in their old order:
/// `new[k]` is `old[perm[k]]`, and `inv` undoes `perm`.
pub open spec fn sorts_by_priority<T>(
    old: Seq<(T, SchemaAssociation)>,
    new: Seq<(T, SchemaAssociation)>,
    perm: Seq<int>,
    inv: Seq<int>,
) -> bool {
    let n = old.len();
    &&& new.len() == n && perm.len() == n && inv.len() == n
    &&& forall|k: int| #![trigger perm[k]] 0 <= k < n ==> 0 <= perm[k] < n && inv[perm[k]] == k && new[k] == old[perm[k]]
    &&& forall|j: int| #![trigger inv[j]] 0 <= j < n ==> 0 <= inv[j] < n && perm[inv[j]] == j
    &&& forall|k1: int, k2: int| #![trigger new[k1], new[k2]]
        0 <= k1 < k2 < n ==> new[k1].1.priority >= new[k2].1.priority
    &&& forall|k1: int, k2: int| #![trigger perm[k1], perm[k2]]
        0 <= k1 < k2 < n && new[k1].1.priority == new[k2].1.priority ==> perm[k1] < perm[k2]
}

/// `new` is `old` ordered by descending priority, equal priorities in their old order.
pub open spec fn priority_sorted<T>(old: Seq<(T, SchemaAssociation)>, new: Seq<(T, SchemaAssociation)>) -> bool {
    exists|perm: Seq<int>, inv: Seq<int>| #[trigger] sorts_by_priority(old, new, perm, inv)
}

/// The inverse of a permutation of `n` positions after position `n` is put at `pos`.
pub open spec fn shifted_inverse(inv: Seq<int>, pos: int, n: int) -> Seq<int> {
    Seq::new((n + 1) as nat, |j: int| if j == n { pos } else if inv[j] >= pos { inv[j] + 1 } else { inv[j] })
}

/// Putting the last entry of `old` at the first place whose priority is below its own
/// extends a sorting of the other entries to one of `old`.
proof fn lemma_insert_sorted<T>(
    old: Seq<(T, SchemaAssociation)>,
    out: Seq<(T, SchemaAssociation)>,
    perm: Seq<int>,
    inv: Seq<int>,
    pos: int,
)
    requires
        old.len() >= 1,
        sorts_by_priority(old.drop_last(), out, perm, inv),
        0 <= pos <= out.len(),
        forall|k: int| 0 <= k < pos ==> (#[trigger] out[k]).1.priority >= old.last().1.priority,
        pos < out.len() ==> out[pos].1.priority < old.last().1.priority,
    ensures
        sorts_by_priority(old, out.insert(pos, old.last()), perm.insert(pos, old.len() - 1), shifted_inverse(inv, pos, old.len() - 1)),
{
    let n = old.len() - 1;
    let x = old.last();
    let front = old.drop_last();
    let new = out.insert(pos, x);
    let perm2 = perm.insert(pos, n);
    let inv2 = shifted_inverse(inv, pos, n);
    assert forall|k: int| #![trigger perm2[k]] 0 <= k < n + 1 implies 0 <= perm2[k] < n + 1 && inv2[perm2[k]] == k && new[k] == old[perm2[k]] by {
        if k < pos {
            assert(perm2[k] == perm[k]);
            assert(new[k] == out[k]);
            assert(front[perm[k]] == old[perm[k]]);
        } else if k > pos {
            assert(perm2[k] == perm[k - 1]);
            assert(new[k] == out[k - 1]);
            assert(front[perm[k - 1]] == old[perm[k - 1]]);
        }
    }
    assert forall|j: int| #![trigger inv2[j]] 0 <= j < n + 1 implies 0 <= inv2[j] < n + 1 && perm2[inv2[j]] == j by {
        if j < n {
            assert(perm[inv[j]] == j);
            if inv[j] >= pos {
                assert(perm2[inv[j] + 1] == perm[inv[j]]);
            } else {
                assert(perm2[inv[j]] == perm[inv[j]]);
            }
        }
    }
    assert forall|k1: int, k2: int| #![trigger new[k1], new[k2]]
        0 <= k1 < k2 < n + 1 implies new[k1].1.priority >= new[k2].1.priority by {
        if k2 < pos {
            assert(out[k1].1.priority >= out[k2].1.priority);
        } else if k2 == pos {
            assert(out[k1].1.priority >= x.1.priority);
        } else if k1 < pos {
            assert(out[k1].1.priority >= out[k2 - 1].1.priority);
        } else if k1 == pos {
            if k2 - 1 > pos {
                assert(out[pos].1.priority >= out[k2 - 1].1.priority);
            }
        } else {
            assert(out[k1 - 1].1.priority >= out[k2 - 1].1.priority);
        }
    }
    assert forall|k1: int, k2: int| #![trigger perm2[k1], perm2[k2]]
        0 <= k1 < k2 < n + 1 && new[k1].1.priority == new[k2].1.priority implies perm2[k1] < perm2[k2] by {
        if k2 < pos {
            assert(perm[k1] < perm[k2]);
        } else if k2 == pos {
            assert(0 <= perm[k1] < n);
        } else if k1 < pos {
            assert(new[k2] == out[k2 - 1]);
            assert(perm[k1] < perm[k2 - 1]);
        } else if k1 == pos {
            assert(new[k2] == out[k2 - 1]);
            if k2 - 1 > pos {
                assert(out[pos].1.priority >= out[k2 - 1].1.priority);
            }
        } else {
            assert(perm[k1 - 1] < perm[k2 - 1]);
        }
    }
}

/// Every entry of the indexes as a rule with its association: the URL entries, then the
/// glob entries, then the regex entries.
pub open spec fn all_entries(m: IndexModel) -> Seq<(AssociationRule, SchemaAssociation)> {
    Seq::new(m.urls.len(), |i: int| (AssociationRule::Url(m.urls[i].0), m.urls[i].1))
        + Seq::new(m.globs.len(), |i: int| (AssociationRule::Glob(m.globs[i].0), m.globs[i].1))
        + Seq::new(m.regexes.len(), |i: int| (AssociationRule::Regex(m.regexes[i].0), m.regexes[i].1))
}

/// The priority groups with their associations as sequences.
pub open spec fn bucket_views(ps: Seq<(usize, Vec<SchemaAssociation>)>) -> Seq<(usize, Seq<SchemaAssociation>)> {
    Seq::new(ps.len(), |i: int| (ps[i].0, ps[i].1@))
}

/// Indexes for fast schema association lookups.
pub struct AssociationIndexes {
    urls: Vec<(ParsedUrl, SchemaAssociation)>,
    globs: Vec<(GlobRule, SchemaAssociation)>,
    regexes: Vec<(CompiledRegex, SchemaAssociation)>,
    priorities: Vec<(usize, Vec<SchemaAssociation>)>,
}

impl View for AssociationIndexes {
    type V = IndexModel;

    closed spec fn view(&self) -> IndexModel {
        IndexModel {
            urls: self.urls@,
            globs: self.globs@,
            regexes: self.regexes@,
            priorities: bucket_views(self.priorities@),
        }
    }
}

proof fn lemma_url_slot_at(urls: Seq<(ParsedUrl, SchemaAssociation)>, text: Seq<char>, i: int)
    requires
        url_keys_distinct(urls),
        0 <= i < urls.len(),
        urls[i].0@.text == text,
    ensures
        url_slot(urls, text) == Some(i),
{
    assert(urls[i].0@.text == text);
    let c = choose|k: int| #![trigger urls[k]] 0 <= k < urls.len() && urls[k].0@.text == text;
    if c < i {
        assert(urls[c].0@.text != urls[i].0@.text);
    } else if c > i {
        assert(urls[i].0@.text != urls[c].0@.text);
    }
}

proof fn lemma_priority_slot_at(ps: Seq<(usize, Seq<SchemaAssociation>)>, p: usize, i: int)
    requires
        priority_keys_distinct(ps),
        0 <= i < ps.len(),
        ps[i].0 == p,
    ensures
        priority_slot(ps, p) == Some(i),
{
    assert(ps[i].0 == p);
    let c = choose|k: int| #![trigger ps[k]] 0 <= k < ps.len() && ps[k].0 == p;
    if c < i {
        assert(ps[c].0 != ps[i].0);
    } else if c > i {
        assert(ps[i].0 != ps[c].0);
    }
}

/// The position of the entry for the URL `u`.
fn find_url(urls: &Vec<(ParsedUrl, SchemaAssociation)>, u: &ParsedUrl) -> (r: Option<usize>)
    requires
        url_keys_distinct(urls@),
    ensures
        match r {
            Some(i) => i < urls@.len() && url_slot(urls@, u@.text) == Some(i as int),
            None => url_slot(urls@, u@.text) is None,
        },
{
    let mut i: usize = 0;
    while i < urls.len()
        invariant
            0 <= i <= urls@.len(),
            url_keys_distinct(urls@),
            forall|j: int| 0 <= j < i ==> (#[trigger] urls@[j]).0@.text != u@.text,
        decreases urls@.len() - i,
    {
        if urls[i].0.same_as(u) {
            proof {
                lemma_url_slot_at(urls@, u@.text, i as int);
            }
            return Some(i);
        }
        i = i + 1;
    }
    None
}

/// The position of the group of priority `p`.
fn find_priority(ps: &Vec<(usize, Vec<SchemaAssociation>)>, p: usize) -> (r: Option<usize>)
    requires
        priority_keys_distinct(bucket_views(ps@)),
    ensures
        match r {
            Some(i) => i < ps@.len() && priority_slot(bucket_views(ps@), p) == Some(i as int),
            None => priority_slot(bucket_views(ps@), p) is None,
        },
{
    let mut i: usize = 0;
    while i < ps.len()
        invariant
            0 <= i <= ps@.len(),
            priority_keys_distinct(bucket_views(ps@)),
            forall|j: int| 0 <= j < i ==> (#[trigger] bucket_views(ps@)[j]).0 != p,
        decreases ps@.len() - i,
    {
        if ps[i].0 == p {
            proof {
                lemma_priority_slot_at(bucket_views(ps@), p, i as int);
            }
            return Some(i);
        }
        i = i + 1;
    }
    None
}


/// The associations of `s` that do not name the schema URL and metadata of `a`.
fn unlike(s: &Vec<SchemaAssociation>, a: &SchemaAssociation) -> (r: Vec<SchemaAssociation>)
    ensures
        r@ == without_same(s@, *a),
{
    let mut out: Vec<SchemaAssociation> = Vec::new();
    let mut i: usize = 0;
    while i < s.len()
        invariant
            0 <= i <= s@.len(),
            out@ == without_same(s@.take(i as int), *a),
        decreases s@.len() - i,
    {
        proof {
            assert(s@.take(i + 1).drop_last() =~= s@.take(i as int));
        }
        if !s[i].same_as(a) {
            out.push(s[i].clone());
        }
        i = i + 1;
    }
    assert(s@.take(s@.len() as int) =~= s@);
    out
}

/// The regex entries whose association does not name the schema URL and metadata of `a`.
fn regexes_unlike(rs: &Vec<(CompiledRegex, SchemaAssociation)>, a: &SchemaAssociation) -> (r: Vec<(CompiledRegex, SchemaAssociation)>)
    ensures
        r@ == regexes_without(rs@, *a),
{
    let mut out: Vec<(CompiledRegex, SchemaAssociation)> = Vec::new();
    let mut i: usize = 0;
    while i < rs.len()
        invariant
            0 <= i <= rs@.len(),
            out@ == regexes_without(rs@.take(i as int), *a),
        decreases rs@.len() - i,
    {
        proof {
            assert(rs@.take(i + 1).drop_last() =~= rs@.take(i as int));
        }
        if !rs[i].1.same_as(a) {
            out.push((rs[i].0.clone(), rs[i].1.clone()));
        }
        i = i + 1;
    }
    assert(rs@.take(rs@.len() as int) =~= rs@);
    out
}

/// The glob entries except those for a rule with the patterns of `g` whose association
/// names the schema URL and metadata of `a`.
fn globs_unlike(gs: &Vec<(GlobRule, SchemaAssociation)>, g: &GlobRule, a: &SchemaAssociation) -> (r: Vec<(GlobRule, SchemaAssociation)>)
    ensures
        r@ == globs_without(gs@, *g, *a),
{
    let mut out: Vec<(GlobRule, SchemaAssociation)> = Vec::new();
    let mut i: usize = 0;
    while i < gs.len()
        invariant
            0 <= i <= gs@.len(),
            out@ == globs_without(gs@.take(i as int), *g, *a),
        decreases gs@.len() - i,
    {
        proof {
            assert(gs@.take(i + 1).drop_last() =~= gs@.take(i as int));
        }
        if !(gs[i].0.same_patterns(g) && gs[i].1.same_as(a)) {
            out.push((gs[i].0.clone(), gs[i].1.clone()));
        }
        i = i + 1;
    }
    assert(gs@.take(gs@.len() as int) =~= gs@);
    out
}

/// The text glob rules are matched against for the document at `url`.
fn glob_key_text(url: &ParsedUrl) -> (r: String)
    ensures
        r@ == glob_key(url@),
{
    if url_has_authority(url) {
        let path = url_path_text(url);
        normalize_str(path.as_str())
    } else {
        normalize_str(url.as_str())
    }
}


/// The regex entries ordered by descending priority, equal priorities in their old order.
fn sort_by_priority(v: &Vec<(CompiledRegex, SchemaAssociation)>) -> (r: Vec<(CompiledRegex, SchemaAssociation)>)
    ensures
        priority_sorted(v@, r@),
{
    let mut out: Vec<(CompiledRegex, SchemaAssociation)> = Vec::new();
    let ghost mut perm: Seq<int> = Seq::empty();
    let ghost mut inv: Seq<int> = Seq::empty();
    let mut i: usize = 0;
    while i < v.len()
        invariant
            0 <= i <= v@.len(),
            sorts_by_priority(v@.take(i as int), out@, perm, inv),
        decreases v@.len() - i,
    {
        let x = (v[i].0.clone(), v[i].1.clone());
        let p = v[i].1.priority;
        let mut pos: usize = 0;
        while pos < out.len() && out[pos].1.priority >= p
            invariant
                0 <= pos <= out@.len(),
                forall|k: int| 0 <= k < pos ==> (#[trigger] out@[k]).1.priority >= p,
            decreases out@.len() - pos,
        {
            pos = pos + 1;
        }
        proof {
            assert(v@.take(i + 1).drop_last() =~= v@.take(i as int));
            assert(v@.take(i + 1).last() == x);
            lemma_insert_sorted(v@.take(i + 1), out@, perm, inv, pos as int);
        }
        out.insert(pos, x);
        proof {
            perm = perm.insert(pos as int, i as int);
            inv = shifted_inverse(inv, pos as int, i as int);
        }
        i = i + 1;
    }
    assert(v@.take(v@.len() as int) =~= v@);
    assert(sorts_by_priority(v@, out@, perm, inv));
    out
}

impl AssociationIndexes {
    /// The indexes are well formed.
    pub open spec fn wf(&self) -> bool {
        model_wf(self@)
    }

    /// Empty indexes.
    pub fn new() -> (r: AssociationIndexes)
        ensures
            r.wf(),
            r@ == empty_model(),
    {
        let r = AssociationIndexes { urls: Vec::new(), globs: Vec::new(), regexes: Vec::new(), priorities: Vec::new() };
        assert(bucket_views(r.priorities@) =~= Seq::empty());
        r
    }

    /// Empties every index.
    pub fn clear(&mut self)
        ensures
            final(self).wf(),
            final(self)@ == empty_model(),
    {
        self.urls.clear();
        self.globs.clear();
        self.regexes.clear();
        self.priorities.clear();
        assert(bucket_views(self.priorities@) =~= Seq::empty());
    }

    /// Adds `a` to the group of its priority.
    fn add_priority(&mut self, a: SchemaAssociation)
        requires
            old(self).wf(),
        ensures
            final(self).wf(),
            final(self)@ == (IndexModel { priorities: put_priority(old(self)@.priorities, a), ..old(self)@ }),
    {
        let ghost before = bucket_views(self.priorities@);
        match find_priority(&self.priorities, a.priority) {
            Some(i) => {
                let (p, mut bucket) = self.priorities.remove(i);
                bucket.push(a);
                self.priorities.insert(i, (p, bucket));
                proof {
                    assert(bucket_views(self.priorities@) =~= before.update(i as int, (a.priority, before[i as int].1.push(a))));
                    assert forall|x: int, y: int| #![trigger bucket_views(self.priorities@)[x], bucket_views(self.priorities@)[y]]
                        0 <= x < y < bucket_views(self.priorities@).len() implies
                        bucket_views(self.priorities@)[x].0 != bucket_views(self.priorities@)[y].0 by {
                        assert(before[x].0 != before[y].0);
                    }
                }
            },
            None => {
                let p = a.priority;
                let mut bucket: Vec<SchemaAssociation> = Vec::new();
                bucket.push(a);
                self.priorities.push((p, bucket));
                proof {
                    assert(bucket_views(self.priorities@) =~= before.push((a.priority, seq![a])));
                    assert forall|x: int, y: int| #![trigger bucket_views(self.priorities@)[x], bucket_views(self.priorities@)[y]]
                        0 <= x < y < bucket_views(self.priorities@).len() implies
                        bucket_views(self.priorities@)[x].0 != bucket_views(self.priorities@)[y].0 by {
                        if y < before.len() {
                            assert(before[x].0 != before[y].0);
                        } else {
                            assert(before[x].0 != a.priority);
                        }
                    }
                }
            },
        }
    }

    /// Associates the URL `u` with `a`, in place of an association it had unless that one
    /// has a higher priority.
    fn put_url(&mut self, u: ParsedUrl, a: SchemaAssociation)
        requires
            old(self).wf(),
        ensures
            final(self).wf(),
            final(self)@ == (IndexModel { urls: put_url(old(self)@.urls, u, a), ..old(self)@ }),
    {
        let ghost before = self.urls@;
        match find_url(&self.urls, &u) {
            Some(i) => {
                if self.urls[i].1.priority > a.priority {
                    return;
                }
                let (key, _) = self.urls.remove(i);
                self.urls.insert(i, (key, a));
                proof {
                    assert(self.urls@ =~= before.update(i as int, (before[i as int].0, a)));
                    assert forall|x: int, y: int| #![trigger self.urls@[x], self.urls@[y]]
                        0 <= x < y < self.urls@.len() implies self.urls@[x].0@.text != self.urls@[y].0@.text by {
                        assert(before[x].0@.text != before[y].0@.text);
                    }
                }
            },
            None => {
                self.urls.push((u, a));
                proof {
                    assert forall|x: int, y: int| #![trigger self.urls@[x], self.urls@[y]]
                        0 <= x < y < self.urls@.len() implies self.urls@[x].0@.text != self.urls@[y].0@.text by {
                        if y < before.len() {
                            assert(before[x].0@.text != before[y].0@.text);
                        } else {
                            assert(before[x].0@.text != u@.text);
                        }
                    }
                }
            },
        }
    }

    /// Indexes the association of `rule` with `assoc`.
    pub fn add(&mut self, rule: AssociationRule, assoc: SchemaAssociation)
        requires
            old(self).wf(),
        ensures
            final(self).wf(),
            final(self)@ == model_add(old(self)@, rule, assoc),
    {
        self.add_priority(assoc.clone());
        match rule {
            AssociationRule::Url(u) => {
                self.put_url(u, assoc);
            },
            AssociationRule::Glob(g) => {
                self.globs.push((g, assoc));
            },
            AssociationRule::Regex(x) => {
                self.regexes.push((x, assoc));
            },
        }
    }

    /// Takes the association of `rule` with `assoc` out of the indexes, and answers
    /// whether an association left the group of its priority.
    pub fn remove(&mut self, rule: &AssociationRule, assoc: &SchemaAssociation) -> (r: bool)
        requires
            old(self).wf(),
        ensures
            final(self).wf(),
            (final(self)@, r) == model_remove(old(self)@, *rule, *assoc),
    {
        let ghost before = self@;
        let ghost bs = bucket_views(self.priorities@);
        let mut removed = false;
        match find_priority(&self.priorities, assoc.priority) {
            Some(i) => {
                let (p, bucket) = self.priorities.remove(i);
                let kept = unlike(&bucket, assoc);
                removed = kept.len() < bucket.len();
                if kept.len() > 0 {
                    self.priorities.insert(i, (p, kept));
                    proof {
                        assert(bucket_views(self.priorities@) =~= bs.update(i as int, (assoc.priority, without_same(bs[i as int].1, *assoc))));
                    }
                } else {
                    proof {
                        assert(bucket_views(self.priorities@) =~= bs.remove(i as int));
                    }
                }
                proof {
                    assert forall|x: int, y: int| #![trigger bucket_views(self.priorities@)[x], bucket_views(self.priorities@)[y]]
                        0 <= x < y < bucket_views(self.priorities@).len() implies
                        bucket_views(self.priorities@)[x].0 != bucket_views(self.priorities@)[y].0 by {
                        if kept.len() > 0 {
                            assert(bs[x].0 != bs[y].0);
                        } else if y < i {
                            assert(bs[x].0 != bs[y].0);
                        } else if x < i {
                            assert(bs[x].0 != bs[y + 1].0);
                        } else {
                            assert(bs[x + 1].0 != bs[y + 1].0);
                        }
                    }
                }
            },
            None => {},
        }
        let ghost mid = self@;
        match rule {
            AssociationRule::Url(u) => {
                match find_url(&self.urls, u) {
                    Some(i) => {
                        let ghost us = self.urls@;
                        self.urls.remove(i);
                        proof {
                            assert forall|x: int, y: int| #![trigger self.urls@[x], self.urls@[y]]
                                0 <= x < y < self.urls@.len() implies self.urls@[x].0@.text != self.urls@[y].0@.text by {
                                if y < i {
                                    assert(us[x].0@.text != us[y].0@.text);
                                } else if x < i {
                                    assert(us[x].0@.text != us[y + 1].0@.text);
                                } else {
                                    assert(us[x + 1].0@.text != us[y + 1].0@.text);
                                }
                            }
                        }
                    },
                    None => {},
                }
            },
            AssociationRule::Glob(g) => {
                self.globs = globs_unlike(&self.globs, g, assoc);
            },
            AssociationRule::Regex(_) => {
                self.regexes = regexes_unlike(&self.regexes, assoc);
            },
        }
        removed
    }

    /// The association the indexes give the document at `file`.
    pub fn find_match(&self, file: &ParsedUrl) -> (r: Option<SchemaAssociation>)
        requires
            self.wf(),
        ensures
            r == model_find(self@, file@),
    {
        match find_url(&self.urls, file) {
            Some(i) => {
                return Some(self.urls[i].1.clone());
            },
            None => {},
        }
        let key = glob_key_text(file);
        let ghost gp = glob_priorities(self.globs@);
        let ghost gh = glob_hits(self.globs@, key@);
        let mut best: Option<usize> = None;
        let mut i: usize = 0;
        while i < self.globs.len()
            invariant
                0 <= i <= self.globs@.len(),
                gp == glob_priorities(self.globs@),
                gh == glob_hits(self.globs@, key@),
                match best {
                    Some(b) => leads(gp, gh, i as int, b as int),
                    None => forall|j: int| 0 <= j < i ==> !(#[trigger] gh[j]),
                },
            decreases self.globs@.len() - i,
        {
            if self.globs[i].0.is_match(key.as_str()) {
                match best {
                    Some(b) => {
                        if self.globs[i].1.priority > self.globs[b].1.priority {
                            best = Some(i);
                        }
                    },
                    None => {
                        best = Some(i);
                    },
                }
            }
            i = i + 1;
        }
        match best {
            Some(b) => {
                proof {
                    lemma_best_hit_at(gp, gh, b as int);
                }
                return Some(self.globs[b].1.clone());
            },
            None => {
                proof {
                    lemma_best_hit_none(gp, gh);
                }
            },
        }
        let text = normalize_str(file.as_str());
        let ghost rp = regex_priorities(self.regexes@);
        let ghost rh = regex_hits(self.regexes@, text@);
        let mut best: Option<usize> = None;
        let mut i: usize = 0;
        while i < self.regexes.len()
            invariant
                0 <= i <= self.regexes@.len(),
                rp == regex_priorities(self.regexes@),
                rh == regex_hits(self.regexes@, text@),
                match best {
                    Some(b) => leads(rp, rh, i as int, b as int),
                    None => forall|j: int| 0 <= j < i ==> !(#[trigger] rh[j]),
                },
            decreases self.regexes@.len() - i,
        {
            if self.regexes[i].0.is_match(text.as_str()) {
                match best {
                    Some(b) => {
                        if self.regexes[i].1.priority > self.regexes[b].1.priority {
                            best = Some(i);
                        }
                    },
                    None => {
                        best = Some(i);
                    },
                }
            }
            i = i + 1;
        }
        match best {
            Some(b) => {
                proof {
                    lemma_best_hit_at(rp, rh, b as int);
                }
                Some(self.regexes[b].1.clone())
            },
            None => {
                proof {
                    lemma_best_hit_none(rp, rh);
                }
                None
            },
        }
    }

    /// Orders the regex entries by descending priority, equal priorities in the order they
    /// were added. Glob entries and the priority groups stay as they are: a group holds one
    /// priority, and glob entries are picked by priority when they are read.
    pub fn optimize(&mut self)
        requires
            old(self).wf(),
        ensures
            final(self).wf(),
            final(self)@.urls == old(self)@.urls,
            final(self)@.globs == old(self)@.globs,
            final(self)@.priorities == old(self)@.priorities,
            priority_sorted(old(self)@.regexes, final(self)@.regexes),
    {
        self.regexes = sort_by_priority(&self.regexes);
    }

    /// Every entry of the indexes as a rule with its association: the URL entries, then
    /// the glob entries, then the regex entries.
    pub fn get_all_associations(&self) -> (r: Vec<(AssociationRule, SchemaAssociation)>)
        ensures
            r@ == all_entries(self@),
    {
        let mut result: Vec<(AssociationRule, SchemaAssociation)> = Vec::new();
        let ghost us = Seq::new(self@.urls.len(), |i: int| (AssociationRule::Url(self@.urls[i].0), self@.urls[i].1));
        let ghost gs = Seq::new(self@.globs.len(), |i: int| (AssociationRule::Glob(self@.globs[i].0), self@.globs[i].1));
        let ghost rs = Seq::new(self@.regexes.len(), |i: int| (AssociationRule::Regex(self@.regexes[i].0), self@.regexes[i].1));
        let mut i: usize = 0;
        while i < self.urls.len()
            invariant
                0 <= i <= self.urls@.len(),
                us == Seq::new(self@.urls.len(), |i: int| (AssociationRule::Url(self@.urls[i].0), self@.urls[i].1)),
                result@ == us.take(i as int),
            decreases self.urls@.len() - i,
        {
            result.push((AssociationRule::Url(self.urls[i].0.clone()), self.urls[i].1.clone()));
            assert(result@ =~= us.take(i + 1));
            i = i + 1;
        }
        assert(us.take(us.len() as int) =~= us);
        let mut i: usize = 0;
        while i < self.globs.len()
            invariant
                0 <= i <= self.globs@.len(),
                gs == Seq::new(self@.globs.len(), |i: int| (AssociationRule::Glob(self@.globs[i].0), self@.globs[i].1)),
                result@ == us + gs.take(i as int),
            decreases self.globs@.len() - i,
        {
            result.push((AssociationRule::Glob(self.globs[i].0.clone()), self.globs[i].1.clone()));
            assert(result@ =~= us + gs.take(i + 1));
            i = i + 1;
        }
        assert(gs.take(gs.len() as int) =~= gs);
        let mut i: usize = 0;
        while i < self.regexes.len()
            invariant
                0 <= i <= self.regexes@.len(),
                rs == Seq::new(self@.regexes.len(), |i: int| (AssociationRule::Regex(self@.regexes[i].0), self@.regexes[i].1)),
                result@ == us + gs + rs.take(i as int),
            decreases self.regexes@.len() - i,
        {
            result.push((AssociationRule::Regex(self.regexes[i].0.clone()), self.regexes[i].1.clone()));
            assert(result@ =~= us + gs + rs.take(i + 1));
            i = i + 1;
        }
        assert(rs.take(rs.len() as int) =~= rs);
        result
    }

    /// The numbers of URL entries, glob entries, regex entries and priority groups.
    pub fn sizes(&self) -> (r: (usize, usize, usize, usize))
        ensures
            r.0 == self@.urls.len(),
            r.1 == self@.globs.len(),
            r.2 == self@.regexes.len(),
            r.3 == self@.priorities.len(),
    {
        (self.urls.len(), self.globs.len(), self.regexes.len(), self.priorities.len())
    }
}

/// Reordering the regex entries by priority moves the leading match to the place `inv`
/// gives it, and leaves nothing to find where nothing was found.
proof fn lemma_sorted_regex_best(
    old: Seq<(CompiledRegex, SchemaAssociation)>,
    new: Seq<(CompiledRegex, SchemaAssociation)>,
    perm: Seq<int>,
    inv: Seq<int>,
    t: Seq<char>,
)
    requires
        sorts_by_priority(old, new, perm, inv),
    ensures
        match best_hit(regex_priorities(old), regex_hits(old, t)) {
            Some(b) => 0 <= b < old.len() && best_hit(regex_priorities(new), regex_hits(new, t)) == Some(inv[b]) && new[inv[b]] == old[b],
            None => best_hit(regex_priorities(new), regex_hits(new, t)) is None,
        },
{
    let n = old.len() as int;
    let op = regex_priorities(old);
    let oh = regex_hits(old, t);
    let np = regex_priorities(new);
    let nh = regex_hits(new, t);
    assert forall|k: int| 0 <= k < n implies #[trigger] nh[k] == oh[perm[k]] && np[k] == op[perm[k]] by {
        assert(new[k] == old[perm[k]]);
    }
    match best_hit(op, oh) {
        Some(b) => {
            assert(leads(op, oh, n, b));
            let kb = inv[b];
            assert(perm[kb] == b);
            assert(nh[kb] == oh[b]);
            assert forall|j: int| #![trigger nh[j]] 0 <= j < n && nh[j] implies np[j] <= np[kb] by {
                assert(oh[perm[j]]);
            }
            assert forall|j: int| #![trigger nh[j]] 0 <= j < kb && nh[j] implies np[j] < np[kb] by {
                assert(oh[perm[j]]);
                assert(np[j] <= np[kb]);
                if np[j] == np[kb] {
                    assert(new[j].1.priority == new[kb].1.priority);
                    assert(perm[j] < perm[kb]);
                }
            }
            assert(leads(np, nh, n, kb));
            lemma_best_hit_at(np, nh, kb);
        },
        None => {
            if exists|k: int| #[trigger] leads(np, nh, n, k) {
                let k = choose|k: int| #[trigger] leads(np, nh, n, k);
                let b = perm[k];
                assert(inv[b] == k);
                assert(oh[b] == nh[k]);
                assert forall|j: int| #![trigger oh[j]] 0 <= j < n && oh[j] implies op[j] <= op[b] by {
                    assert(perm[inv[j]] == j);
                    assert(nh[inv[j]]);
                }
                assert forall|j: int| #![trigger oh[j]] 0 <= j < b && oh[j] implies op[j] < op[b] by {
                    let kj = inv[j];
                    assert(perm[kj] == j);
                    assert(nh[kj]);
                    assert(op[j] <= op[b]);
                    if op[j] == op[b] {
                        if kj < k {
                            assert(np[kj] < np[k]);
                        } else if kj > k {
                            assert(new[k].1.priority == new[kj].1.priority);
                            assert(perm[k] < perm[kj]);
                        }
                    }
                }
                assert(leads(op, oh, n, b));
                lemma_best_hit_at(op, oh, b);
            }
        },
    }
}

/// Ordering the regex entries by priority, as `optimize` does, changes no lookup.
pub proof fn law_sorting_regexes_keeps_lookups(m: IndexModel, regexes: Seq<(CompiledRegex, SchemaAssociation)>, u: UrlView)
    requires
        priority_sorted(m.regexes, regexes),
    ensures
        model_find(IndexModel { urls: m.urls, globs: m.globs, regexes: regexes, priorities: m.priorities }, u) == model_find(m, u),
{
    let (perm, inv) = choose|perm: Seq<int>, inv: Seq<int>| #[trigger] sorts_by_priority(m.regexes, regexes, perm, inv);
    lemma_sorted_regex_best(m.regexes, regexes, perm, inv, normalized(u.text));
}

/// Empty indexes associate no document with a schema.
pub proof fn law_empty_finds_nothing(u: UrlView)
    ensures
        model_find(empty_model(), u) is None,
{
    let m = empty_model();
    lemma_best_hit_none(glob_priorities(m.globs), glob_hits(m.globs, glob_key(u)));
    lemma_best_hit_none(regex_priorities(m.regexes), regex_hits(m.regexes, normalized(u.text)));
}

/// The document at a URL that a URL rule is added for gets that association, whatever the
/// glob and regex entries say, unless the URL already has an association of higher
/// priority.
pub proof fn law_exact_url_lookup(m: IndexModel, u: ParsedUrl, a: SchemaAssociation, doc: UrlView)
    requires
        model_wf(m),
        doc.text == u@.text,
        url_slot(m.urls, u@.text) matches Some(i) ==> m.urls[i].1.priority <= a.priority,
    ensures
        model_find(model_add(m, AssociationRule::Url(u), a), doc) == Some(a),
{
    let urls = put_url(m.urls, u, a);
    match url_slot(m.urls, u@.text) {
        Some(i) => {
            assert(m.urls[i].0@.text == u@.text);
            assert forall|x: int, y: int| #![trigger urls[x], urls[y]]
                0 <= x < y < urls.len() implies urls[x].0@.text != urls[y].0@.text by {
                assert(m.urls[x].0@.text != m.urls[y].0@.text);
            }
            lemma_url_slot_at(urls, doc.text, i);
        },
        None => {
            assert forall|x: int, y: int| #![trigger urls[x], urls[y]]
                0 <= x < y < urls.len() implies urls[x].0@.text != urls[y].0@.text by {
                if y < m.urls.len() {
                    assert(m.urls[x].0@.text != m.urls[y].0@.text);
                } else {
                    assert(m.urls[x].0@.text != u@.text);
                }
            }
            lemma_url_slot_at(urls, doc.text, m.urls.len() as int);
        },
    }
}

/// After the URL rule of a URL is taken out, the indexes hold no entry for that URL.
pub proof fn law_removed_url_is_gone(m: IndexModel, u: ParsedUrl, a: SchemaAssociation)
    requires
        model_wf(m),
    ensures
        url_slot(model_remove(m, AssociationRule::Url(u), a).0.urls, u@.text) is None,
{
    let urls = drop_url(m.urls, u@.text);
    match url_slot(m.urls, u@.text) {
        Some(i) => {
            assert(m.urls[i].0@.text == u@.text);
            if exists|k: int| #![trigger urls[k]] 0 <= k < urls.len() && urls[k].0@.text == u@.text {
                let k = choose|k: int| #![trigger urls[k]] 0 <= k < urls.len() && urls[k].0@.text == u@.text;
                if k < i {
                    assert(m.urls[k].0@.text != m.urls[i].0@.text);
                } else {
                    assert(urls[k] == m.urls[k + 1]);
                    assert(m.urls[i].0@.text != m.urls[k + 1].0@.text);
                }
            }
        },
        None => {},
    }
}

/// A glob rule added with a priority above that of every glob entry wins the lookup of a
/// document whose path it selects and whose URL has no entry of its own.
pub proof fn law_highest_glob_priority_wins(m: IndexModel, g: GlobRule, a: SchemaAssociation, doc: UrlView)
    requires
        url_slot(m.urls, doc.text) is None,
        g.selects(glob_key(doc)),
        forall|i: int| 0 <= i < m.globs.len() ==> (#[trigger] m.globs[i]).1.priority < a.priority,
    ensures
        model_find(model_add(m, AssociationRule::Glob(g), a), doc) == Some(a),
{
    let globs = m.globs.push((g, a));
    let gp = glob_priorities(globs);
    let gh = glob_hits(globs, glob_key(doc));
    let n = m.globs.len() as int;
    assert(globs[n] == (g, a));
    assert forall|j: int| #![trigger gh[j]] 0 <= j < n + 1 && gh[j] implies gp[j] <= gp[n] by {
        if j < n {
            assert(globs[j] == m.globs[j]);
        }
    }
    assert forall|j: int| #![trigger gh[j]] 0 <= j < n && gh[j] implies gp[j] < gp[n] by {
        assert(globs[j] == m.globs[j]);
    }
    assert(leads(gp, gh, n + 1, n));
    lemma_best_hit_at(gp, gh, n);
}

} // verus!

verus! {

/// The list entry `e` is one the URL entry `k` can come from: a URL rule for the same URL,
/// with the same association.
pub open spec fn url_entry_from(e: (AssociationRule, SchemaAssociation), k: (ParsedUrl, SchemaAssociation)) -> bool {
    e.0 matches AssociationRule::Url(v) && v@.text == k.0@.text && e.1 == k.1
}

/// Every URL entry comes from a URL rule of `es` for the same URL with the same
/// association.
pub open spec fn urls_sound(urls: Seq<(ParsedUrl, SchemaAssociation)>, es: Seq<(AssociationRule, SchemaAssociation)>) -> bool {
    forall|i: int| #![trigger urls[i]] 0 <= i < urls.len() ==> url_held(es, urls[i])
}

/// Some URL rule of `es` is one the URL entry `k` can come from.
pub open spec fn url_held(es: Seq<(AssociationRule, SchemaAssociation)>, k: (ParsedUrl, SchemaAssociation)) -> bool {
    exists|j: int| #![trigger es[j]] 0 <= j < es.len() && url_entry_from(es[j], k)
}

/// Every entry of the indexes comes from an entry of the list `es`: a URL entry from a URL
/// rule for the same URL with the same association, a glob or regex entry from the same
/// rule with the same association.
pub open spec fn index_sound(m: IndexModel, es: Seq<(AssociationRule, SchemaAssociation)>) -> bool {
    &&& urls_sound(m.urls, es)
    &&& forall|i: int| #![trigger m.globs[i]] 0 <= i < m.globs.len() ==>
        es.contains((AssociationRule::Glob(m.globs[i].0), m.globs[i].1))
    &&& forall|i: int| #![trigger m.regexes[i]] 0 <= i < m.regexes.len() ==>
        es.contains((AssociationRule::Regex(m.regexes[i].0), m.regexes[i].1))
}

/// Whether `rule` selects the document at `u` as the indexes read it: a URL rule by the
/// URL, a glob rule by the text glob rules are matched against, a regex rule by the
/// percent-decoded URL.
pub open spec fn rule_selects(rule: AssociationRule, u: UrlView) -> bool {
    match rule {
        AssociationRule::Url(v) => v@.text == u.text,
        AssociationRule::Glob(g) => g.selects(glob_key(u)),
        AssociationRule::Regex(x) => regex_matches(x.pattern_view(), normalized(u.text)),
    }
}

/// Indexes that hold nothing come from any list.
pub proof fn lemma_empty_sound(es: Seq<(AssociationRule, SchemaAssociation)>)
    ensures
        index_sound(empty_model(), es),
{
}

/// Where position `j` of `s` is not `p`, its element keeps a place in `s.remove(p)`.
proof fn lemma_remove_keeps<T>(s: Seq<T>, p: int, j: int)
    requires
        0 <= p < s.len(),
        0 <= j < s.len(),
        j != p,
    ensures
        s.remove(p)[if j < p { j } else { j - 1 }] == s[j],
        0 <= (if j < p { j } else { j - 1 }) < s.remove(p).len(),
{
}

/// Each glob entry kept by `globs_without` is an entry of `gs` not like `(g, a)`.
proof fn lemma_globs_without_from(gs: Seq<(GlobRule, SchemaAssociation)>, g: GlobRule, a: SchemaAssociation, k: int) -> (i: int)
    requires
        0 <= k < globs_without(gs, g, a).len(),
    ensures
        0 <= i < gs.len(),
        gs[i] == globs_without(gs, g, a)[k],
        !(same_glob_rule(gs[i].0, g) && same_association(gs[i].1, a)),
    decreases gs.len(),
{
    let rest = globs_without(gs.drop_last(), g, a);
    if k < rest.len() {
        let i = lemma_globs_without_from(gs.drop_last(), g, a, k);
        assert(gs.drop_last()[i] == gs[i]);
        i
    } else {
        (gs.len() - 1) as int
    }
}

/// Each regex entry kept by `regexes_without` is an entry of `rs` whose association is not
/// like `a`.
proof fn lemma_regexes_without_from(rs: Seq<(CompiledRegex, SchemaAssociation)>, a: SchemaAssociation, k: int) -> (i: int)
    requires
        0 <= k < regexes_without(rs, a).len(),
    ensures
        0 <= i < rs.len(),
        rs[i] == regexes_without(rs, a)[k],
        !same_association(rs[i].1, a),
    decreases rs.len(),
{
    let rest = regexes_without(rs.drop_last(), a);
    if k < rest.len() {
        let i = lemma_regexes_without_from(rs.drop_last(), a, k);
        assert(rs.drop_last()[i] == rs[i]);
        i
    } else {
        (rs.len() - 1) as int
    }
}

/// Each URL entry kept by `drop_url` is an entry of `urls` for another URL.
proof fn lemma_drop_url_from(urls: Seq<(ParsedUrl, SchemaAssociation)>, text: Seq<char>, k: int) -> (i: int)
    requires
        url_keys_distinct(urls),
        0 <= k < drop_url(urls, text).len(),
    ensures
        0 <= i < urls.len(),
        urls[i] == drop_url(urls, text)[k],
        urls[i].0@.text != text,
{
    match url_slot(urls, text) {
        Some(s) => {
            assert(urls[s].0@.text == text);
            let i = if k < s { k } else { k + 1 };
            assert(urls[i].0@.text != urls[s].0@.text) by {
                if i < s {
                    assert(urls[i].0@.text != urls[s].0@.text);
                } else {
                    assert(urls[s].0@.text != urls[i].0@.text);
                }
            }
            i
        },
        None => {
            assert(urls[k].0@.text != text) by {
                if urls[k].0@.text == text {
                    assert(exists|i: int| #![trigger urls[i]] 0 <= i < urls.len() && urls[i].0@.text == text);
                }
            }
            k
        },
    }
}

/// The number of URL rules in `es`.
pub open spec fn url_rule_count(es: Seq<(AssociationRule, SchemaAssociation)>) -> nat
    decreases es.len(),
{
    if es.len() == 0 {
        0
    } else {
        url_rule_count(es.drop_last()) + if es.last().0 is Url { 1nat } else { 0nat }
    }
}

/// Taking out the entry of one URL leaves the other URLs distinct, and at most one entry
/// fewer.
proof fn lemma_drop_url_distinct(urls: Seq<(ParsedUrl, SchemaAssociation)>, text: Seq<char>)
    requires
        url_keys_distinct(urls),
    ensures
        url_keys_distinct(drop_url(urls, text)),
        drop_url(urls, text).len() + 1 >= urls.len(),
{
    if let Some(s) = url_slot(urls, text) {
        let rest = urls.remove(s);
        assert forall|x: int, y: int| #![trigger rest[x], rest[y]] 0 <= x < y < rest.len() implies rest[x].0@.text != rest[y].0@.text by {
            if y < s {
                assert(urls[x].0@.text != urls[y].0@.text);
            } else if x < s {
                assert(urls[x].0@.text != urls[y + 1].0@.text);
            } else {
                assert(urls[x + 1].0@.text != urls[y + 1].0@.text);
            }
        }
    }
}

/// URL entries for distinct URLs that each come from a URL rule of `es` are no more than
/// the URL rules of `es`.
pub proof fn lemma_url_entries_bounded(urls: Seq<(ParsedUrl, SchemaAssociation)>, es: Seq<(AssociationRule, SchemaAssociation)>)
    requires
        url_keys_distinct(urls),
        urls_sound(urls, es),
    ensures
        urls.len() <= url_rule_count(es),
    decreases es.len(),
{
    if es.len() == 0 {
        if urls.len() > 0 {
            assert(urls[0] == urls[0]);
        }
    } else {
        let front = es.drop_last();
        let last = es.len() - 1;
        match es.last().0 {
            AssociationRule::Url(v) => {
                let rest = drop_url(urls, v@.text);
                lemma_drop_url_distinct(urls, v@.text);
                assert forall|k: int| #![trigger rest[k]] 0 <= k < rest.len() implies
                    url_held(front, rest[k]) by {
                    let i = lemma_drop_url_from(urls, v@.text, k);
                    assert(urls[i] == urls[i]);
                    let j = choose|j: int| #![trigger es[j]] 0 <= j < es.len() && url_entry_from(es[j], urls[i]);
                    assert(j != last);
                    assert(front[j] == es[j]);
                    assert(url_entry_from(front[j], rest[k]));
                }
                lemma_url_entries_bounded(rest, front);
            },
            _ => {
                assert forall|k: int| #![trigger urls[k]] 0 <= k < urls.len() implies
                    url_held(front, urls[k]) by {
                    let j = choose|j: int| #![trigger es[j]] 0 <= j < es.len() && url_entry_from(es[j], urls[k]);
                    assert(j != last);
                    assert(front[j] == es[j]);
                }
                lemma_url_entries_bounded(urls, front);
            },
        }
    }
}

/// Adding an entry to the list and to the indexes keeps every index entry coming from the
/// list.
pub proof fn lemma_sound_add(m: IndexModel, es: Seq<(AssociationRule, SchemaAssociation)>, rule: AssociationRule, a: SchemaAssociation)
    requires
        index_sound(m, es),
    ensures
        index_sound(model_add(m, rule, a), es.push((rule, a))),
{
    let es2 = es.push((rule, a));
    let m2 = model_add(m, rule, a);
    let n = es.len() as int;
    assert(es2[n] == (rule, a));
    assert forall|i: int| #![trigger m2.urls[i]] 0 <= i < m2.urls.len() implies
        url_held(es2, m2.urls[i]) by {
        let fresh = match rule {
            AssociationRule::Url(u) => match url_slot(m.urls, u@.text) {
                Some(s) => i == s && m.urls[s].1.priority <= a.priority,
                None => i == m.urls.len(),
            },
            _ => false,
        };
        if fresh {
            if let AssociationRule::Url(u) = rule {
                if let Some(s) = url_slot(m.urls, u@.text) {
                    assert(m.urls[s].0@.text == u@.text);
                }
            }
            assert(url_entry_from(es2[n], m2.urls[i]));
        } else {
            assert(m2.urls[i] == m.urls[i]);
            let j = choose|j: int| #![trigger es[j]] 0 <= j < es.len() && url_entry_from(es[j], m.urls[i]);
            assert(es2[j] == es[j]);
            assert(url_entry_from(es2[j], m2.urls[i]));
        }
    }
    assert forall|i: int| #![trigger m2.globs[i]] 0 <= i < m2.globs.len() implies
        es2.contains((AssociationRule::Glob(m2.globs[i].0), m2.globs[i].1)) by {
        if rule is Glob && i == m.globs.len() {
            assert(es2[n] == (AssociationRule::Glob(m2.globs[i].0), m2.globs[i].1));
        } else {
            assert(m2.globs[i] == m.globs[i]);
            let j = choose|j: int| 0 <= j < es.len() && es[j] == (AssociationRule::Glob(m.globs[i].0), m.globs[i].1);
            assert(es2[j] == es[j]);
        }
    }
    assert forall|i: int| #![trigger m2.regexes[i]] 0 <= i < m2.regexes.len() implies
        es2.contains((AssociationRule::Regex(m2.regexes[i].0), m2.regexes[i].1)) by {
        if rule is Regex && i == m.regexes.len() {
            assert(es2[n] == (AssociationRule::Regex(m2.regexes[i].0), m2.regexes[i].1));
        } else {
            assert(m2.regexes[i] == m.regexes[i]);
            let j = choose|j: int| 0 <= j < es.len() && es[j] == (AssociationRule::Regex(m.regexes[i].0), m.regexes[i].1);
            assert(es2[j] == es[j]);
        }
    }
}

/// Taking entry `p` out of the list and its association out of the indexes keeps every
/// index entry coming from the list.
pub proof fn lemma_sound_remove(m: IndexModel, held: Seq<(AssociationRule, SchemaAssociation)>, p: int)
    requires
        model_wf(m),
        index_sound(m, held),
        0 <= p < held.len(),
    ensures
        index_sound(model_remove(m, held[p].0, held[p].1).0, held.remove(p)),
{
    let rule = held[p].0;
    let a = held[p].1;
    let m2 = model_remove(m, rule, a).0;
    let held2 = held.remove(p);
    assert forall|i: int| #![trigger m2.urls[i]] 0 <= i < m2.urls.len() implies
        url_held(held2, m2.urls[i]) by {
        let i0 = match rule {
            AssociationRule::Url(u) => lemma_drop_url_from(m.urls, u@.text, i),
            _ => i,
        };
        assert(m2.urls[i] == m.urls[i0]);
        assert(m.urls[i0] == m.urls[i0]);
        let j = choose|j: int| #![trigger held[j]] 0 <= j < held.len() && url_entry_from(held[j], m.urls[i0]);
        assert(j != p);
        lemma_remove_keeps(held, p, j);
        let j2 = if j < p { j } else { j - 1 };
        assert(url_entry_from(held2[j2], m2.urls[i]));
    }
    assert forall|i: int| #![trigger m2.globs[i]] 0 <= i < m2.globs.len() implies
        held2.contains((AssociationRule::Glob(m2.globs[i].0), m2.globs[i].1)) by {
        let i0 = match rule {
            AssociationRule::Glob(g) => lemma_globs_without_from(m.globs, g, a, i),
            _ => i,
        };
        assert(m2.globs[i] == m.globs[i0]);
        assert(m.globs[i0] == m.globs[i0]);
        let e = (AssociationRule::Glob(m.globs[i0].0), m.globs[i0].1);
        let j = choose|j: int| 0 <= j < held.len() && held[j] == e;
        assert(j != p);
        lemma_remove_keeps(held, p, j);
        let j2 = if j < p { j } else { j - 1 };
        assert(held2[j2] == e);
    }
    assert forall|i: int| #![trigger m2.regexes[i]] 0 <= i < m2.regexes.len() implies
        held2.contains((AssociationRule::Regex(m2.regexes[i].0), m2.regexes[i].1)) by {
        let i0 = match rule {
            AssociationRule::Regex(_) => lemma_regexes_without_from(m.regexes, a, i),
            _ => i,
        };
        assert(m2.regexes[i] == m.regexes[i0]);
        assert(m.regexes[i0] == m.regexes[i0]);
        let e = (AssociationRule::Regex(m.regexes[i0].0), m.regexes[i0].1);
        let j = choose|j: int| 0 <= j < held.len() && held[j] == e;
        assert(j != p);
        lemma_remove_keeps(held, p, j);
        let j2 = if j < p { j } else { j - 1 };
        assert(held2[j2] == e);
    }
}

/// Reordering the regex entries keeps every index entry coming from the list.
pub proof fn lemma_sound_sorted(m: IndexModel, regexes: Seq<(CompiledRegex, SchemaAssociation)>, es: Seq<(AssociationRule, SchemaAssociation)>)
    requires
        index_sound(m, es),
        priority_sorted(m.regexes, regexes),
    ensures
        index_sound(IndexModel { urls: m.urls, globs: m.globs, regexes: regexes, priorities: m.priorities }, es),
{
    let (perm, inv) = choose|perm: Seq<int>, inv: Seq<int>| #[trigger] sorts_by_priority(m.regexes, regexes, perm, inv);
    let m2 = IndexModel { urls: m.urls, globs: m.globs, regexes: regexes, priorities: m.priorities };
    assert forall|k: int| #![trigger m2.regexes[k]] 0 <= k < m2.regexes.len() implies
        es.contains((AssociationRule::Regex(m2.regexes[k].0), m2.regexes[k].1)) by {
        assert(0 <= k < regexes.len());
        assert(0 <= perm[k] < m.regexes.len() && regexes[k] == m.regexes[perm[k]]);
        let i = perm[k];
        assert(es.contains((AssociationRule::Regex(m.regexes[i].0), m.regexes[i].1)));
    }
    assert(m2.urls == m.urls && m2.globs == m.globs && m2.regexes == regexes);
}

/// What the indexes answer for a document comes from an entry of the list they were built
/// from, and that entry's rule selects the document.
pub proof fn law_lookups_come_from_held_entries(m: IndexModel, es: Seq<(AssociationRule, SchemaAssociation)>, u: UrlView)
    requires
        index_sound(m, es),
    ensures
        model_find(m, u) matches Some(a) ==> exists|j: int| 0 <= j < es.len() && es[j].1 == a && rule_selects(es[j].0, u),
{
    match url_slot(m.urls, u.text) {
        Some(i) => {
            assert(m.urls[i].0@.text == u.text);
            let j = choose|j: int| #![trigger es[j]] 0 <= j < es.len() && url_entry_from(es[j], m.urls[i]);
            assert(rule_selects(es[j].0, u));
        },
        None => {
            let gp = glob_priorities(m.globs);
            let gh = glob_hits(m.globs, glob_key(u));
            match best_hit(gp, gh) {
                Some(i) => {
                    assert(leads(gp, gh, gh.len() as int, i));
                    assert(m.globs[i] == m.globs[i]);
                    let e = (AssociationRule::Glob(m.globs[i].0), m.globs[i].1);
                    let j = choose|j: int| 0 <= j < es.len() && es[j] == e;
                    assert(rule_selects(es[j].0, u));
                },
                None => {
                    let rp = regex_priorities(m.regexes);
                    let rh = regex_hits(m.regexes, normalized(u.text));
                    match best_hit(rp, rh) {
                        Some(i) => {
                            assert(leads(rp, rh, rh.len() as int, i));
                            assert(m.regexes[i] == m.regexes[i]);
                            let e = (AssociationRule::Regex(m.regexes[i].0), m.regexes[i].1);
                            let j = choose|j: int| 0 <= j < es.len() && es[j] == e;
                            assert(rule_selects(es[j].0, u));
                        },
                        None => {},
                    }
                },
            }
        },
    }
}

} // verus!
