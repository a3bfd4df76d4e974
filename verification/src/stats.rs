//! Counting the nodes of a tree by kind, and measuring its depth.
use vstd::prelude::*;
use crate::keys::{Key, KeyOrIndex};
use crate::node::{Node, flat, flat_entries, flat_items, spec_depth, depth_entries, depth_items, lemma_flat_unfold};
use crate::text::{decimal, owned, push_labelled};

verus! {

/// Performance statistics for tree traversal.
pub struct TraversalStats {
    /// The number of nodes.
    pub total_nodes: usize,
    /// The greatest depth of a node.
    pub max_depth: usize,
    /// The number of tables.
    pub table_count: usize,
    /// The number of arrays.
    pub array_count: usize,
    /// The number of booleans.
    pub bool_count: usize,
    /// The number of strings.
    pub string_count: usize,
    /// The number of integers.
    pub integer_count: usize,
    /// The number of floats.
    pub float_count: usize,
    /// The number of dates.
    pub date_count: usize,
    /// The number of invalid nodes.
    pub invalid_count: usize,
}

impl Default for TraversalStats {
    fn default() -> (r: Self)
        ensures
            r.total_nodes == 0 && r.max_depth == 0 && r.table_count == 0 && r.array_count == 0
                && r.bool_count == 0 && r.string_count == 0 && r.integer_count == 0
                && r.float_count == 0 && r.date_count == 0 && r.invalid_count == 0,
    {
        TraversalStats {
            total_nodes: 0,
            max_depth: 0,
            table_count: 0,
            array_count: 0,
            bool_count: 0,
            string_count: 0,
            integer_count: 0,
            float_count: 0,
            date_count: 0,
            invalid_count: 0,
        }
    }
}

impl Clone for TraversalStats {
    fn clone(&self) -> (r: Self)
        ensures
            r == *self,
    {
        TraversalStats { ..*self }
    }
}

/// The report of traversal statistics.
pub open spec fn traversal_stats_text(s: TraversalStats) -> Seq<char> {
    "Traversal Stats:"@ + "\n- Total nodes: "@ + decimal(s.total_nodes as nat)
        + "\n- Max depth: "@ + decimal(s.max_depth as nat)
        + "\n- Tables: "@ + decimal(s.table_count as nat)
        + "\n- Arrays: "@ + decimal(s.array_count as nat)
        + "\n- Booleans: "@ + decimal(s.bool_count as nat)
        + "\n- Strings: "@ + decimal(s.string_count as nat)
        + "\n- Integers: "@ + decimal(s.integer_count as nat)
        + "\n- Floats: "@ + decimal(s.float_count as nat)
        + "\n- Dates: "@ + decimal(s.date_count as nat)
        + "\n- Invalid: "@ + decimal(s.invalid_count as nat)
}

impl TraversalStats {
    /// The statistics as a report, one count per line.
    pub fn to_text(&self) -> (r: String)
        ensures
            r@ == traversal_stats_text(*self),
    {
        let mut s = owned("Traversal Stats:");
        push_labelled(&mut s, "\n- Total nodes: ", self.total_nodes);
        push_labelled(&mut s, "\n- Max depth: ", self.max_depth);
        push_labelled(&mut s, "\n- Tables: ", self.table_count);
        push_labelled(&mut s, "\n- Arrays: ", self.array_count);
        push_labelled(&mut s, "\n- Booleans: ", self.bool_count);
        push_labelled(&mut s, "\n- Strings: ", self.string_count);
        push_labelled(&mut s, "\n- Integers: ", self.integer_count);
        push_labelled(&mut s, "\n- Floats: ", self.float_count);
        push_labelled(&mut s, "\n- Dates: ", self.date_count);
        push_labelled(&mut s, "\n- Invalid: ", self.invalid_count);
        s
    }
}

/// The kinds of nodes.
#[derive(PartialEq, Eq, Structural, Clone, Copy, Debug)]
pub enum NodeKind {
    Table,
    Array,
    Bool,
    Str,
    Integer,
    Float,
    Date,
    Invalid,
}

/// The kind of the node `n`.
pub open spec fn kind_of(n: Node) -> NodeKind {
    match n {
        Node::Table(_) => NodeKind::Table,
        Node::Array(_) => NodeKind::Array,
        Node::Bool(_) => NodeKind::Bool,
        Node::Str(_) => NodeKind::Str,
        Node::Integer(_) => NodeKind::Integer,
        Node::Float(_) => NodeKind::Float,
        Node::Date(_) => NodeKind::Date,
        Node::Invalid(_) => NodeKind::Invalid,
    }
}

/// The number of nodes of kind `k` in `s`.
pub open spec fn count_kind(s: Seq<(Seq<KeyOrIndex>, Node)>, k: NodeKind) -> nat
    decreases s.len(),
{
    if s.len() == 0 {
        0
    } else {
        (if kind_of(s[0].1) == k { 1nat } else { 0nat }) + count_kind(s.drop_first(), k)
    }
}

/// The larger of two numbers.
pub open spec fn max_nat(a: nat, b: nat) -> nat {
    if a >= b { a } else { b }
}

/// The greatest depth of a node in `s` (zero for none).
pub open spec fn max_depth_in(s: Seq<(Seq<KeyOrIndex>, Node)>) -> nat
    decreases s.len(),
{
    if s.len() == 0 {
        0
    } else {
        max_nat(spec_depth(s[0].1), max_depth_in(s.drop_first()))
    }
}

/// No kind occurs more often than there are nodes.
pub proof fn lemma_count_le_len(s: Seq<(Seq<KeyOrIndex>, Node)>, k: NodeKind)
    ensures
        count_kind(s, k) <= s.len(),
    decreases s.len(),
{
    if s.len() > 0 {
        lemma_count_le_len(s.drop_first(), k);
    }
}

/// The counts of the eight kinds add up to the number of nodes.
pub proof fn law_kind_counts_sum_to_total(s: Seq<(Seq<KeyOrIndex>, Node)>)
    ensures
        count_kind(s, NodeKind::Table) + count_kind(s, NodeKind::Array) + count_kind(s, NodeKind::Bool)
            + count_kind(s, NodeKind::Str) + count_kind(s, NodeKind::Integer) + count_kind(s, NodeKind::Float)
            + count_kind(s, NodeKind::Date) + count_kind(s, NodeKind::Invalid) == s.len(),
    decreases s.len(),
{
    if s.len() > 0 {
        law_kind_counts_sum_to_total(s.drop_first());
    }
}

/// The depth of a node is at most the number of nodes in its tree.
pub proof fn lemma_depth_le_size(keys: Seq<KeyOrIndex>, n: Node)
    ensures
        spec_depth(n) <= flat(keys, n).len(),
    decreases n,
{
    lemma_flat_unfold(keys, n);
    match n {
        Node::Table(t) => {
            lemma_depth_entries_le_size(keys, t.0.entries@);
        },
        Node::Array(a) => {
            lemma_depth_items_le_size(keys, a.0.items@, 0);
        },
        _ => {},
    }
}

/// The greatest depth among entries is at most the number of nodes under them.
pub proof fn lemma_depth_entries_le_size(keys: Seq<KeyOrIndex>, es: Seq<(Key, Node)>)
    ensures
        depth_entries(es) <= flat_entries(keys, es).len(),
    decreases es,
{
    if es.len() > 0 {
        lemma_depth_le_size(keys.push(KeyOrIndex::Key(es[0].0)), es[0].1);
        lemma_depth_entries_le_size(keys, es.drop_first());
    }
}

/// The greatest depth among items is at most the number of nodes under them.
pub proof fn lemma_depth_items_le_size(keys: Seq<KeyOrIndex>, items: Seq<Node>, offset: nat)
    ensures
        depth_items(items) <= flat_items(keys, items, offset).len(),
    decreases items,
{
    if items.len() > 0 {
        lemma_depth_le_size(keys.push(KeyOrIndex::Index(offset as usize)), items[0]);
        lemma_depth_items_le_size(keys, items.drop_first(), offset + 1);
    }
}

/// No node under `n` is deeper than `n`.
pub proof fn lemma_flat_depths(keys: Seq<KeyOrIndex>, n: Node)
    ensures
        forall|i: int| 0 <= i < flat(keys, n).len() ==> spec_depth((#[trigger] flat(keys, n)[i]).1) <= spec_depth(n),
    decreases n,
{
    lemma_flat_unfold(keys, n);
    match n {
        Node::Table(t) => {
            let es = t.0.entries@;
            lemma_flat_entries_depths(keys, es);
            assert forall|i: int| 0 <= i < flat(keys, n).len() implies spec_depth((#[trigger] flat(keys, n)[i]).1) <= spec_depth(n) by {
                if i > 0 {
                    assert(flat(keys, n)[i] == flat_entries(keys, es)[i - 1]);
                }
            }
        },
        Node::Array(a) => {
            let items = a.0.items@;
            lemma_flat_items_depths(keys, items, 0);
            assert forall|i: int| 0 <= i < flat(keys, n).len() implies spec_depth((#[trigger] flat(keys, n)[i]).1) <= spec_depth(n) by {
                if i > 0 {
                    assert(flat(keys, n)[i] == flat_items(keys, items, 0)[i - 1]);
                }
            }
        },
        _ => {},
    }
}

/// No node under a list of entries is deeper than the greatest depth among them.
pub proof fn lemma_flat_entries_depths(keys: Seq<KeyOrIndex>, es: Seq<(Key, Node)>)
    ensures
        forall|i: int| 0 <= i < flat_entries(keys, es).len() ==> spec_depth((#[trigger] flat_entries(keys, es)[i]).1) <= depth_entries(es),
    decreases es,
{
    if es.len() > 0 {
        let k0 = keys.push(KeyOrIndex::Key(es[0].0));
        lemma_flat_depths(k0, es[0].1);
        lemma_flat_entries_depths(keys, es.drop_first());
        let a = flat(k0, es[0].1);
        let b = flat_entries(keys, es.drop_first());
        assert forall|i: int| 0 <= i < flat_entries(keys, es).len() implies spec_depth((#[trigger] flat_entries(keys, es)[i]).1) <= depth_entries(es) by {
            if i < a.len() {
                assert(flat_entries(keys, es)[i] == a[i]);
            } else {
                assert(flat_entries(keys, es)[i] == b[i - a.len()]);
            }
        }
    }
}

/// No node under a list of items is deeper than the greatest depth among them.
pub proof fn lemma_flat_items_depths(keys: Seq<KeyOrIndex>, items: Seq<Node>, offset: nat)
    ensures
        forall|i: int| 0 <= i < flat_items(keys, items, offset).len() ==> spec_depth((#[trigger] flat_items(keys, items, offset)[i]).1) <= depth_items(items),
    decreases items,
{
    if items.len() > 0 {
        let k0 = keys.push(KeyOrIndex::Index(offset as usize));
        lemma_flat_depths(k0, items[0]);
        lemma_flat_items_depths(keys, items.drop_first(), offset + 1);
        let a = flat(k0, items[0]);
        let b = flat_items(keys, items.drop_first(), offset + 1);
        assert forall|i: int| 0 <= i < flat_items(keys, items, offset).len() implies spec_depth((#[trigger] flat_items(keys, items, offset)[i]).1) <= depth_items(items) by {
            if i < a.len() {
                assert(flat_items(keys, items, offset)[i] == a[i]);
            } else {
                assert(flat_items(keys, items, offset)[i] == b[i - a.len()]);
            }
        }
    }
}

/// Where every node of `s` is at most `bound` deep, so is the greatest depth.
proof fn lemma_max_depth_in_bounded(s: Seq<(Seq<KeyOrIndex>, Node)>, bound: nat)
    requires
        forall|i: int| 0 <= i < s.len() ==> spec_depth((#[trigger] s[i]).1) <= bound,
    ensures
        max_depth_in(s) <= bound,
    decreases s.len(),
{
    if s.len() > 0 {
        assert forall|i: int| 0 <= i < s.drop_first().len() implies spec_depth((#[trigger] s.drop_first()[i]).1) <= bound by {
            assert(s.drop_first()[i] == s[i + 1]);
        }
        lemma_max_depth_in_bounded(s.drop_first(), bound);
    }
}

/// The greatest depth in the traversal of a tree is the depth of its root.
pub proof fn law_max_depth_is_root_depth(keys: Seq<KeyOrIndex>, n: Node)
    ensures
        max_depth_in(flat(keys, n)) == spec_depth(n),
{
    lemma_flat_depths(keys, n);
    lemma_flat_unfold(keys, n);
    lemma_max_depth_in_bounded(flat(keys, n), spec_depth(n));
}

impl Node {
    /// The number of levels of the tree under and including this node.
    fn depth(&self) -> (r: usize)
        requires
            spec_depth(*self) <= usize::MAX,
        ensures
            r == spec_depth(*self),
        decreases *self,
    {
        match self {
            Node::Table(t) => {
                let es = &t.0.entries;
                if es.len() == 0 {
                    return 1;
                }
                let mut m: usize = 0;
                let mut i: usize = 0;
                assert(es@.skip(0) =~= es@);
                while i < es.len()
                    invariant
                        0 <= i <= es@.len(),
                        *self == Node::Table(*t),
                        es@ == t.0.entries@,
                        spec_depth(*self) == 1 + depth_entries(es@),
                        spec_depth(*self) <= usize::MAX,
                        max_nat(m as nat, depth_entries(es@.skip(i as int))) == depth_entries(es@),
                        depth_entries(es@.skip(i as int)) <= depth_entries(es@),
                    decreases es@.len() - i,
                {
                    let ghost rest = es@.skip(i as int);
                    assert(rest[0] == es@[i as int]);
                    assert(rest.drop_first() =~= es@.skip(i + 1));
                    proof {
                        broadcast use vstd::std_specs::vec::axiom_vec_decreases_to_view;
                        assert(decreases_to!(*self => *t));
                        assert(decreases_to!(*t => t.0));
                        assert(decreases_to!(t.0 => t.0.entries));
                        assert(decreases_to!(t.0.entries => t.0.entries@));
                        assert(decreases_to!(t.0.entries@ => t.0.entries@[i as int]));
                        assert(decreases_to!(t.0.entries@[i as int] => t.0.entries@[i as int].1));
                    }
                    let d = es[i].1.depth();
                    if d > m {
                        m = d;
                    }
                    i = i + 1;
                }
                assert(es@.skip(es@.len() as int) =~= Seq::<(Key, Node)>::empty());
                1 + m
            },
            Node::Array(a) => {
                let items = &a.0.items;
                if items.len() == 0 {
                    return 1;
                }
                let mut m: usize = 0;
                let mut i: usize = 0;
                assert(items@.skip(0) =~= items@);
                while i < items.len()
                    invariant
                        0 <= i <= items@.len(),
                        *self == Node::Array(*a),
                        items@ == a.0.items@,
                        spec_depth(*self) == 1 + depth_items(items@),
                        spec_depth(*self) <= usize::MAX,
                        max_nat(m as nat, depth_items(items@.skip(i as int))) == depth_items(items@),
                        depth_items(items@.skip(i as int)) <= depth_items(items@),
                    decreases items@.len() - i,
                {
                    let ghost rest = items@.skip(i as int);
                    assert(rest[0] == items@[i as int]);
                    assert(rest.drop_first() =~= items@.skip(i + 1));
                    proof {
                        broadcast use vstd::std_specs::vec::axiom_vec_decreases_to_view;
                        assert(decreases_to!(*self => *a));
                        assert(decreases_to!(*a => a.0));
                        assert(decreases_to!(a.0 => a.0.items));
                        assert(decreases_to!(a.0.items => a.0.items@));
                        assert(decreases_to!(a.0.items@ => a.0.items@[i as int]));
                    }
                    let d = items[i].depth();
                    if d > m {
                        m = d;
                    }
                    i = i + 1;
                }
                assert(items@.skip(items@.len() as int) =~= Seq::<Node>::empty());
                1 + m
            },
            _ => 1,
        }
    }
}


/// `r` holds the statistics of the nodes `s`.
pub open spec fn stats_of(r: TraversalStats, s: Seq<(Seq<KeyOrIndex>, Node)>) -> bool {
    &&& r.total_nodes == s.len()
    &&& r.max_depth == max_depth_in(s)
    &&& r.table_count == count_kind(s, NodeKind::Table)
    &&& r.array_count == count_kind(s, NodeKind::Array)
    &&& r.bool_count == count_kind(s, NodeKind::Bool)
    &&& r.string_count == count_kind(s, NodeKind::Str)
    &&& r.integer_count == count_kind(s, NodeKind::Integer)
    &&& r.float_count == count_kind(s, NodeKind::Float)
    &&& r.date_count == count_kind(s, NodeKind::Date)
    &&& r.invalid_count == count_kind(s, NodeKind::Invalid)
}

/// The statistics so far, `st`, together with the statistics of the nodes still to come,
/// `rest`, make the statistics of `full`.
spec fn stats_split(st: TraversalStats, rest: Seq<(Seq<KeyOrIndex>, Node)>, full: Seq<(Seq<KeyOrIndex>, Node)>) -> bool {
    &&& st.total_nodes + rest.len() == full.len()
    &&& max_nat(st.max_depth as nat, max_depth_in(rest)) == max_depth_in(full)
    &&& st.table_count + count_kind(rest, NodeKind::Table) == count_kind(full, NodeKind::Table)
    &&& st.array_count + count_kind(rest, NodeKind::Array) == count_kind(full, NodeKind::Array)
    &&& st.bool_count + count_kind(rest, NodeKind::Bool) == count_kind(full, NodeKind::Bool)
    &&& st.string_count + count_kind(rest, NodeKind::Str) == count_kind(full, NodeKind::Str)
    &&& st.integer_count + count_kind(rest, NodeKind::Integer) == count_kind(full, NodeKind::Integer)
    &&& st.float_count + count_kind(rest, NodeKind::Float) == count_kind(full, NodeKind::Float)
    &&& st.date_count + count_kind(rest, NodeKind::Date) == count_kind(full, NodeKind::Date)
    &&& st.invalid_count + count_kind(rest, NodeKind::Invalid) == count_kind(full, NodeKind::Invalid)
}

/// No kind occurs in `s` more often than `s` has nodes, for each of the eight kinds.
proof fn lemma_all_counts_le_len(s: Seq<(Seq<KeyOrIndex>, Node)>)
    ensures
        count_kind(s, NodeKind::Table) <= s.len(),
        count_kind(s, NodeKind::Array) <= s.len(),
        count_kind(s, NodeKind::Bool) <= s.len(),
        count_kind(s, NodeKind::Str) <= s.len(),
        count_kind(s, NodeKind::Integer) <= s.len(),
        count_kind(s, NodeKind::Float) <= s.len(),
        count_kind(s, NodeKind::Date) <= s.len(),
        count_kind(s, NodeKind::Invalid) <= s.len(),
{
    lemma_count_le_len(s, NodeKind::Table);
    lemma_count_le_len(s, NodeKind::Array);
    lemma_count_le_len(s, NodeKind::Bool);
    lemma_count_le_len(s, NodeKind::Str);
    lemma_count_le_len(s, NodeKind::Integer);
    lemma_count_le_len(s, NodeKind::Float);
    lemma_count_le_len(s, NodeKind::Date);
    lemma_count_le_len(s, NodeKind::Invalid);
}

impl Node {
    /// Counts the nodes of the tree under this node by kind, and finds the greatest depth
    /// of a node.
    pub fn get_traversal_stats(&self) -> (r: TraversalStats)
        requires
            flat(Seq::empty(), *self).len() <= usize::MAX,
        ensures
            stats_of(r, flat(Seq::empty(), *self)),
    {
        let ghost full = flat(Seq::empty(), *self);
        let mut stats = TraversalStats::default();
        let mut it = self.flat_iter_optimized();
        proof {
            lemma_depth_le_size(Seq::empty(), *self);
            lemma_flat_depths(Seq::empty(), *self);
            lemma_all_counts_le_len(full);
        }
        loop
            invariant
                it.wf(),
                full == flat(Seq::empty(), *self),
                full.len() <= usize::MAX,
                spec_depth(*self) <= full.len(),
                count_kind(full, NodeKind::Table) <= full.len(),
                count_kind(full, NodeKind::Array) <= full.len(),
                count_kind(full, NodeKind::Bool) <= full.len(),
                count_kind(full, NodeKind::Str) <= full.len(),
                count_kind(full, NodeKind::Integer) <= full.len(),
                count_kind(full, NodeKind::Float) <= full.len(),
                count_kind(full, NodeKind::Date) <= full.len(),
                count_kind(full, NodeKind::Invalid) <= full.len(),
                forall|i: int| 0 <= i < it.pending().len() ==> spec_depth((#[trigger] it.pending()[i]).1) <= spec_depth(*self),
                stats_split(stats, it.pending(), full),
            ensures
                stats_of(stats, full),
            decreases it.pending().len(),
        {
            let ghost p0 = it.pending();
            match it.next() {
                Some(item) => {
                    let node = item.1;
                    let ghost p1 = p0.drop_first();
                    proof {
                        assert(p0[0].1 == node);
                        assert(spec_depth(p0[0].1) <= spec_depth(*self));
                        lemma_all_counts_le_len(p1);
                        assert forall|i: int| 0 <= i < p1.len() implies spec_depth((#[trigger] p1[i]).1) <= spec_depth(*self) by {
                            assert(p1[i] == p0[i + 1]);
                        }
                    }
                    stats.total_nodes = stats.total_nodes + 1;
                    let d = node.depth();
                    if d > stats.max_depth {
                        stats.max_depth = d;
                    }
                    match node {
                        Node::Table(_) => stats.table_count = stats.table_count + 1,
                        Node::Array(_) => stats.array_count = stats.array_count + 1,
                        Node::Bool(_) => stats.bool_count = stats.bool_count + 1,
                        Node::Str(_) => stats.string_count = stats.string_count + 1,
                        Node::Integer(_) => stats.integer_count = stats.integer_count + 1,
                        Node::Float(_) => stats.float_count = stats.float_count + 1,
                        Node::Date(_) => stats.date_count = stats.date_count + 1,
                        Node::Invalid(_) => stats.invalid_count = stats.invalid_count + 1,
                    }
                },
                None => {
                    break;
                },
            }
        }
        stats
    }
}

/// The number of nodes in `s` that satisfy `p`.
pub open spec fn count_where(s: Seq<(Seq<KeyOrIndex>, Node)>, p: spec_fn(Node) -> bool) -> nat
    decreases s.len(),
{
    if s.len() == 0 {
        0
    } else {
        (if p(s[0].1) { 1nat } else { 0nat }) + count_where(s.drop_first(), p)
    }
}

/// Counting the nodes of kind `k` counts the nodes that satisfy `p` where `p` holds of
/// exactly the nodes of that kind.
proof fn lemma_count_kind_where(s: Seq<(Seq<KeyOrIndex>, Node)>, k: NodeKind, p: spec_fn(Node) -> bool)
    requires
        forall|m: Node| #[trigger] p(m) == (kind_of(m) == k),
    ensures
        count_kind(s, k) == count_where(s, p),
    decreases s.len(),
{
    if s.len() > 0 {
        lemma_count_kind_where(s.drop_first(), k, p);
    }
}

/// Each count of the statistics is the number of nodes of the tree of its own variant:
/// tables, arrays, booleans, strings, integers, floats, dates and invalid nodes are each
/// counted in their own field and nowhere else.
pub proof fn law_each_variant_counted_in_its_field(r: TraversalStats, n: Node)
    requires
        stats_of(r, flat(Seq::empty(), n)),
    ensures
        r.table_count == count_where(flat(Seq::empty(), n), |m: Node| m is Table),
        r.array_count == count_where(flat(Seq::empty(), n), |m: Node| m is Array),
        r.bool_count == count_where(flat(Seq::empty(), n), |m: Node| m is Bool),
        r.string_count == count_where(flat(Seq::empty(), n), |m: Node| m is Str),
        r.integer_count == count_where(flat(Seq::empty(), n), |m: Node| m is Integer),
        r.float_count == count_where(flat(Seq::empty(), n), |m: Node| m is Float),
        r.date_count == count_where(flat(Seq::empty(), n), |m: Node| m is Date),
        r.invalid_count == count_where(flat(Seq::empty(), n), |m: Node| m is Invalid),
{
    let f = flat(Seq::empty(), n);
    lemma_count_kind_where(f, NodeKind::Table, |m: Node| m is Table);
    lemma_count_kind_where(f, NodeKind::Array, |m: Node| m is Array);
    lemma_count_kind_where(f, NodeKind::Bool, |m: Node| m is Bool);
    lemma_count_kind_where(f, NodeKind::Str, |m: Node| m is Str);
    lemma_count_kind_where(f, NodeKind::Integer, |m: Node| m is Integer);
    lemma_count_kind_where(f, NodeKind::Float, |m: Node| m is Float);
    lemma_count_kind_where(f, NodeKind::Date, |m: Node| m is Date);
    lemma_count_kind_where(f, NodeKind::Invalid, |m: Node| m is Invalid);
}

/// The statistics of a tree count its nodes, and their greatest depth is the depth of the
/// root.
pub proof fn law_stats_describe_tree(r: TraversalStats, n: Node)
    requires
        stats_of(r, flat(Seq::empty(), n)),
    ensures
        r.max_depth == spec_depth(n),
        r.table_count + r.array_count + r.bool_count + r.string_count + r.integer_count
            + r.float_count + r.date_count + r.invalid_count == r.total_nodes,
        r.total_nodes >= 1,
{
    law_max_depth_is_root_depth(Seq::empty(), n);
    law_kind_counts_sum_to_total(flat(Seq::empty(), n));
    lemma_flat_unfold(Seq::empty(), n);
}

} // verus!
