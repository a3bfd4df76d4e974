//! Finding the nodes of a tree whose keys or paths match glob patterns.
use std::sync::Arc;
use vstd::prelude::*;
use crate::bindings::{CompiledGlob, glob_accepts, glob_matches};
use crate::errors::{QueryError, TomlError};
use crate::keys::{Key, KeyOrIndex, Keys};
use crate::node::{Node, flat};
use crate::text::usize_to_string;
use crate::text::decimal;
use crate::traversal::{FlatIter, item_view, items_view};

verus! {

/// The entries of a table as (key, value) pairs, all of them where `all` holds, else none.
pub open spec fn table_matches(es: Seq<(Key, Node)>, all: bool) -> Seq<(KeyOrIndex, Node)> {
    if all {
        es.map_values(|e: (Key, Node)| (KeyOrIndex::Key(e.0), e.1))
    } else {
        Seq::empty()
    }
}

/// The items of an array, with their indices, whose index written in decimal the glob
/// `pattern` matches; the first of `items` has index `offset`.
pub open spec fn array_matches(items: Seq<Node>, pattern: Seq<char>, offset: nat) -> Seq<(KeyOrIndex, Node)>
    decreases items.len(),
{
    if items.len() == 0 {
        Seq::empty()
    } else {
        (if glob_matches(pattern, decimal(offset)) {
            seq![(KeyOrIndex::Index(offset as usize), items[0])]
        } else {
            Seq::empty()
        }) + array_matches(items.drop_first(), pattern, offset + 1)
    }
}

/// What `get_matches` finds under `n` for the glob `pattern`: for a table, all its entries
/// where the pattern matches its own text and none otherwise; for an array, the items whose
/// index the pattern matches; for any other node, nothing.
pub open spec fn spec_matches(n: Node, pattern: Seq<char>) -> Seq<(KeyOrIndex, Node)> {
    match n {
        Node::Table(t) => table_matches(t.0.entries@, glob_matches(pattern, pattern)),
        Node::Array(a) => array_matches(a.0.items@, pattern, 0),
        _ => Seq::empty(),
    }
}

/// Whether the step `step` of a path answers the step `search` of a query: a key of the
/// query is a glob pattern (which must compile) that must match the key, or the index
/// written in decimal; an index of the query must equal the index.
pub open spec fn step_matches(search: KeyOrIndex, step: KeyOrIndex) -> bool {
    match search {
        KeyOrIndex::Key(s) => glob_accepts(s.0.value@) && match step {
            KeyOrIndex::Key(k) => glob_matches(s.0.value@, k.0.value@),
            KeyOrIndex::Index(i) => glob_matches(s.0.value@, decimal(i as nat)),
        },
        KeyOrIndex::Index(si) => match step {
            KeyOrIndex::Key(_) => false,
            KeyOrIndex::Index(i) => i == si,
        },
    }
}

/// Whether the path `k` is selected by the query `search`: its leading steps answer the
/// query's steps one for one, and (unless children are included) it is no longer.
pub open spec fn path_selected(search: Seq<KeyOrIndex>, k: Seq<KeyOrIndex>, include_children: bool) -> bool {
    &&& search.len() <= k.len()
    &&& forall|i: int| 0 <= i < search.len() ==> step_matches(#[trigger] search[i], k[i])
    &&& include_children || k.len() == search.len()
}

/// The items of `s` whose paths the query selects, in order.
pub open spec fn select_paths(s: Seq<(Seq<KeyOrIndex>, Node)>, search: Seq<KeyOrIndex>, include_children: bool) -> Seq<(Seq<KeyOrIndex>, Node)>
    decreases s.len(),
{
    if s.len() == 0 {
        Seq::empty()
    } else {
        (if path_selected(search, s[0].0, include_children) { seq![s[0]] } else { Seq::empty() })
            + select_paths(s.drop_first(), search, include_children)
    }
}

/// Whether one step of a path answers one step of a query.
fn step_answers(search: &KeyOrIndex, step: &KeyOrIndex) -> (r: bool)
    ensures
        r == step_matches(*search, *step),
{
    match search {
        KeyOrIndex::Key(search_key) => {
            let glob = match CompiledGlob::new(search_key.value()) {
                Ok(g) => g,
                Err(_) => {
                    return false;
                },
            };
            match step {
                KeyOrIndex::Key(key) => glob.is_match(key.value()),
                KeyOrIndex::Index(idx) => glob.is_match(usize_to_string(*idx).as_str()),
            }
        },
        KeyOrIndex::Index(search_idx) => match step {
            KeyOrIndex::Key(_) => false,
            KeyOrIndex::Index(idx) => *idx == *search_idx,
        },
    }
}

/// Whether the query `search` selects the path `k`.
fn selects(search: &Keys, k: &Keys, include_children: bool) -> (r: bool)
    ensures
        r == path_selected(search@, k@, include_children),
{
    if k.len() < search.len() {
        return false;
    }
    let mut i: usize = 0;
    while i < search.len()
        invariant
            0 <= i <= search@.len(),
            search@.len() <= k@.len(),
            forall|j: int| 0 <= j < i ==> step_matches(#[trigger] search@[j], k@[j]),
        decreases search@.len() - i,
    {
        if !step_answers(search.step(i), k.step(i)) {
            return false;
        }
        i = i + 1;
    }
    if !include_children && k.len() != search.len() {
        return false;
    }
    true
}

impl Node {
    /// The children of this node whose key or index the glob `pattern` selects (see
    /// `spec_matches`); an error where the pattern does not compile.
    pub fn get_matches(&self, pattern: &str) -> (r: Result<Vec<(KeyOrIndex, Node)>, TomlError>)
        ensures
            r is Ok <==> glob_accepts(pattern@),
            r matches Ok(v) ==> v@ == spec_matches(*self, pattern@),
            r matches Err(e) ==> e matches TomlError::Query(QueryError::InvalidGlob(_)),
    {
        let glob = match CompiledGlob::new(pattern) {
            Ok(g) => g,
            Err(e) => {
                return Err(TomlError::Query(QueryError::InvalidGlob(Arc::new(e))));
            },
        };
        let mut matched: Vec<(KeyOrIndex, Node)> = Vec::new();
        match self {
            Node::Table(t) => {
                let es = &t.0.entries;
                let ghost all = glob_matches(pattern@, pattern@);
                let mut i: usize = 0;
                while i < es.len()
                    invariant
                        0 <= i <= es@.len(),
                        glob.pattern_view() == pattern@,
                        all == glob_matches(pattern@, pattern@),
                        matched@ == table_matches(es@.take(i as int), all),
                    decreases es@.len() - i,
                {
                    if glob.is_match(pattern) {
                        matched.push((KeyOrIndex::Key(es[i].0.clone()), es[i].1.clone()));
                    }
                    proof {
                        assert(table_matches(es@.take(i + 1), all) =~= if all {
                            table_matches(es@.take(i as int), all).push((KeyOrIndex::Key(es@[i as int].0), es@[i as int].1))
                        } else {
                            Seq::empty()
                        });
                    }
                    i = i + 1;
                }
                assert(es@.take(es@.len() as int) =~= es@);
            },
            Node::Array(a) => {
                let items = &a.0.items;
                let mut i: usize = 0;
                assert(items@.skip(0) =~= items@);
                assert(matched@ =~= Seq::<(KeyOrIndex, Node)>::empty());
                while i < items.len()
                    invariant
                        0 <= i <= items@.len(),
                        glob.pattern_view() == pattern@,
                        matched@ + array_matches(items@.skip(i as int), pattern@, i as nat) == array_matches(items@, pattern@, 0),
                    decreases items@.len() - i,
                {
                    let ghost m0 = matched@;
                    let ghost rest = items@.skip(i as int);
                    assert(rest[0] == items@[i as int]);
                    assert(rest.drop_first() =~= items@.skip(i + 1));
                    if glob.is_match(usize_to_string(i).as_str()) {
                        matched.push((KeyOrIndex::Index(i), items[i].clone()));
                    }
                    proof {
                        assert(matched@ + array_matches(items@.skip(i + 1), pattern@, (i + 1) as nat) =~= m0 + array_matches(rest, pattern@, i as nat));
                    }
                    i = i + 1;
                }
                assert(items@.skip(items@.len() as int) =~= Seq::<Node>::empty());
                assert(matched@ =~= array_matches(items@, pattern@, 0));
            },
            _ => {},
        }
        Ok(matched)
    }

    /// Every node of the tree under this node (in document order, with its path) whose path
    /// the query `keys` selects (see `path_selected`). A step of the query whose pattern
    /// does not compile selects nothing.
    pub fn find_all_matches(&self, keys: Keys, include_children: bool) -> (r: Result<Vec<(Keys, Node)>, TomlError>)
        ensures
            r matches Ok(v) && items_view(v@) == select_paths(flat(Seq::empty(), *self), keys@, include_children),
    {
        let ghost full = flat(Seq::empty(), *self);
        let mut it = FlatIter::new(self.clone());
        let mut results: Vec<(Keys, Node)> = Vec::new();
        assert(items_view(results@) =~= Seq::empty());
        loop
            invariant
                it.wf(),
                items_view(results@) + select_paths(it.pending(), keys@, include_children)
                    == select_paths(full, keys@, include_children),
            ensures
                items_view(results@) == select_paths(full, keys@, include_children),
            decreases it.pending().len(),
        {
            let ghost p0 = it.pending();
            let ghost r0 = results@;
            match it.next() {
                Some(item) => {
                    let keep = selects(&keys, &item.0, include_children);
                    if keep {
                        results.push(item);
                    }
                    proof {
                        assert(p0[0] == item_view(item));
                        if keep {
                            assert(items_view(results@) =~= items_view(r0).push(p0[0]));
                        } else {
                            assert(items_view(results@) =~= items_view(r0));
                        }
                        assert(items_view(results@) + select_paths(p0.drop_first(), keys@, include_children)
                            =~= items_view(r0) + select_paths(p0, keys@, include_children));
                    }
                },
                None => {
                    assert(items_view(results@) =~= items_view(results@) + select_paths(it.pending(), keys@, include_children));
                    break;
                },
            }
        }
        Ok(results)
    }
}

/// Every path a query selects has at least as many steps as the query, and exactly as many
/// where children are not included.
pub proof fn law_selected_paths_fit_the_query(s: Seq<(Seq<KeyOrIndex>, Node)>, search: Seq<KeyOrIndex>, include_children: bool)
    ensures
        forall|i: int| 0 <= i < select_paths(s, search, include_children).len() ==> {
            let k = (#[trigger] select_paths(s, search, include_children)[i]).0;
            &&& search.len() <= k.len()
            &&& !include_children ==> k.len() == search.len()
        },
    decreases s.len(),
{
    if s.len() > 0 {
        law_selected_paths_fit_the_query(s.drop_first(), search, include_children);
        let head: Seq<(Seq<KeyOrIndex>, Node)> = if path_selected(search, s[0].0, include_children) { seq![s[0]] } else { Seq::empty() };
        let tail = select_paths(s.drop_first(), search, include_children);
        assert(select_paths(s, search, include_children) == head + tail);
        assert forall|i: int| 0 <= i < select_paths(s, search, include_children).len() implies {
            let k = (#[trigger] select_paths(s, search, include_children)[i]).0;
            &&& search.len() <= k.len()
            &&& !include_children ==> k.len() == search.len()
        } by {
            if i >= head.len() {
                assert(select_paths(s, search, include_children)[i] == tail[i - head.len()]);
            }
        }
    }
}

} // verus!
