//! Walking a tree in document order, node after node, each with its path.
use vstd::prelude::*;
use crate::keys::{Key, KeyOrIndex, Keys};
use crate::node::{Node, flat, flat_entries, flat_items, below, lemma_flat_unfold};

verus! {

/// One node waiting in a traversal.
struct TraversalState {
    /// The node.
    node: Node,
    /// The path to the node.
    keys: Keys,
    /// The number of children already put on the stack (zero before that is done).
    child_index: usize,
    /// Whether the node itself has been handed out.
    yielded: bool,
}

/// An item of a traversal: a path and the node at its end.
pub type FlatItem = (Keys, Node);

/// The view of an item: the steps of the path and the node.
pub open spec fn item_view(p: (Keys, Node)) -> (Seq<KeyOrIndex>, Node) {
    (p.0@, p.1)
}

/// What a state still has to hand out.
spec fn state_rest(s: TraversalState) -> Seq<(Seq<KeyOrIndex>, Node)> {
    if !s.yielded {
        flat(s.keys@, s.node)
    } else if s.child_index == 0 {
        below(s.keys@, s.node)
    } else {
        Seq::empty()
    }
}

/// What a stack of states still has to hand out, top first.
spec fn stack_rest(st: Seq<TraversalState>) -> Seq<(Seq<KeyOrIndex>, Node)>
    decreases st.len(),
{
    if st.len() == 0 {
        Seq::empty()
    } else {
        state_rest(st.last()) + stack_rest(st.drop_last())
    }
}

/// A measure of the work left in a state, which each step of the traversal lowers.
spec fn state_weight(s: TraversalState) -> nat {
    if !s.yielded {
        3 * flat(s.keys@, s.node).len()
    } else if s.child_index == 0 {
        3 * below(s.keys@, s.node).len() + 2
    } else {
        1
    }
}

/// The measure of the work left in a stack of states.
spec fn stack_weight(st: Seq<TraversalState>) -> nat
    decreases st.len(),
{
    if st.len() == 0 {
        0
    } else {
        state_weight(st.last()) + stack_weight(st.drop_last())
    }
}

/// Every state not yet handed out has put none of its children on the stack.
spec fn stack_ok(st: Seq<TraversalState>) -> bool {
    forall|i: int| 0 <= i < st.len() ==> (#[trigger] st[i]).yielded || st[i].child_index == 0
}

/// Pushing a state puts what it has to hand out before the rest.
proof fn lemma_push(st: Seq<TraversalState>, s: TraversalState)
    ensures
        stack_rest(st.push(s)) == state_rest(s) + stack_rest(st),
        stack_weight(st.push(s)) == state_weight(s) + stack_weight(st),
{
    assert(st.push(s).drop_last() =~= st);
}

/// A traversal of a tree in document order (see `flat`), handing out each node with its
/// path.
pub struct FlatIter {
    stack: Vec<TraversalState>,
    buffer: Vec<(Keys, Node)>,
    buffer_pos: usize,
    buffer_end: usize,
    buffered: bool,
}

impl FlatIter {
    /// What the stack of the walk still hands out, in order.
    closed spec fn stack_pending(&self) -> Seq<(Seq<KeyOrIndex>, Node)> {
        stack_rest(self.stack@)
    }

    /// What the traversal still hands out, in order: `next` takes from the front,
    /// `next_back` from the back.
    pub closed spec fn pending(&self) -> Seq<(Seq<KeyOrIndex>, Node)> {
        items_view(self.buffer@).subrange(self.buffer_pos as int, self.buffer_end as int) + self.stack_pending()
    }

    /// The traversal's own bookkeeping is consistent.
    pub closed spec fn wf(&self) -> bool {
        &&& self.buffer_pos <= self.buffer_end <= self.buffer@.len()
        &&& self.buffered ==> self.stack_pending().len() == 0
        &&& !self.buffered ==> self.buffer@.len() == 0 && self.buffer_pos == 0 && self.buffer_end == 0
        &&& stack_ok(self.stack@)
    }

    /// A traversal of the tree under `root`, starting with `root` itself.
    pub fn new(root: Node) -> (r: FlatIter)
        ensures
            r.wf(),
            r.pending() == flat(Seq::empty(), root),
    {
        let mut stack: Vec<TraversalState> = Vec::new();
        let s = TraversalState { node: root, keys: Keys::empty(), child_index: 0, yielded: false };
        stack.push(s);
        proof {
            lemma_push(Seq::empty(), s);
            assert(stack@ =~= Seq::<TraversalState>::empty().push(s));
        }
        let r = FlatIter { stack, buffer: Vec::new(), buffer_pos: 0, buffer_end: 0, buffered: false };
        assert(stack_ok(r.stack@));
        assert(items_view(r.buffer@).subrange(0, 0) =~= Seq::empty());
        assert(r.pending() =~= r.stack_pending());
        r
    }

    /// Hands out the next node of the traversal with its path.
    fn process_next(&mut self) -> (r: Option<(Keys, Node)>)
        requires
            stack_ok(old(self).stack@),
        ensures
            stack_ok(final(self).stack@),
            final(self).buffer == old(self).buffer,
            final(self).buffer_pos == old(self).buffer_pos,
            final(self).buffer_end == old(self).buffer_end,
            final(self).buffered == old(self).buffered,
            old(self).stack_pending().len() == 0 ==> r is None && final(self).stack_pending().len() == 0,
            old(self).stack_pending().len() > 0 ==> (r matches Some(item) && item_view(item) == old(self).stack_pending()[0])
                && final(self).stack_pending() == old(self).stack_pending().drop_first(),
    {
        let ghost pending0 = self.stack_pending();
        loop
            invariant
                self.buffer == old(self).buffer,
                self.buffer_pos == old(self).buffer_pos,
                self.buffer_end == old(self).buffer_end,
                self.buffered == old(self).buffered,
                stack_rest(self.stack@) == pending0,
                pending0 == old(self).stack_pending(),
                stack_ok(self.stack@),
            decreases stack_weight(self.stack@),
        {
            let ghost before = self.stack@;
            let popped = self.stack.pop();
            let mut st = match popped {
                Some(s) => s,
                None => {
                    return None;
                },
            };
            let ghost base = self.stack@;
            proof {
                assert(st == before[before.len() - 1]);
                assert(st.yielded || st.child_index == 0);
                assert(before.drop_last() =~= base);
                assert(stack_rest(before) == state_rest(st) + stack_rest(base));
                assert(stack_weight(before) == state_weight(st) + stack_weight(base));
            }
            if !st.yielded {
                st.yielded = true;
                let item = (st.keys.clone(), st.node.clone());
                let ghost k = st.keys@;
                let ghost n = st.node;
                self.stack.push(st);
                proof {
                    lemma_push(base, st);
                    lemma_flat_unfold(k, n);
                    assert(pending0 == seq![(k, n)] + below(k, n) + stack_rest(base));
                    assert(pending0.drop_first() =~= below(k, n) + stack_rest(base));
                    assert(pending0[0] == (k, n));
                }
                return Some(item);
            }
            if st.child_index != 0 {
                continue;
            }
            let node = st.node.clone();
            let ghost k = st.keys@;
            match &node {
                Node::Table(t) => {
                    let es = &t.0.entries;
                    let len = es.len();
                    if len == 0 {
                        proof {
                            assert(es@ =~= Seq::<(Key, Node)>::empty());
                        }
                        continue;
                    }
                    let keys = st.keys.clone();
                    st.child_index = len;
                    self.stack.push(st);
                    proof {
                        lemma_push(base, st);
                        assert(es@.skip(len as int) =~= Seq::<(Key, Node)>::empty());
                    }
                    let mut j: usize = len;
                    while j > 0
                        invariant
                            0 <= j <= es@.len(),
                            keys@ == k,
                            below(k, node) == flat_entries(k, es@),
                            stack_rest(self.stack@) == flat_entries(k, es@.skip(j as int)) + stack_rest(base),
                            stack_ok(self.stack@),
                            stack_weight(self.stack@) == 3 * flat_entries(k, es@.skip(j as int)).len() + 1 + stack_weight(base),
                            self.buffer == old(self).buffer,
                            self.buffer_pos == old(self).buffer_pos,
                self.buffer_end == old(self).buffer_end,
                            self.buffered == old(self).buffered,
                        decreases j,
                    {
                        let child = TraversalState {
                            node: es[j - 1].1.clone(),
                            keys: keys.join(KeyOrIndex::Key(es[j - 1].0.clone())),
                            child_index: 0,
                            yielded: false,
                        };
                        let ghost s_before = self.stack@;
                        self.stack.push(child);
                        proof {
                            lemma_push(s_before, child);
                            let t1 = es@.skip(j - 1);
                            assert(t1[0] == es@[j - 1]);
                            assert(t1.drop_first() =~= es@.skip(j as int));
                            assert(flat_entries(k, t1) == flat(k.push(KeyOrIndex::Key(es@[j - 1].0)), es@[j - 1].1) + flat_entries(k, es@.skip(j as int)));
                        }
                        j = j - 1;
                    }
                    proof {
                        assert(es@.skip(0) =~= es@);
                    }
                },
                Node::Array(a) => {
                    let items = &a.0.items;
                    let len = items.len();
                    if len == 0 {
                        proof {
                            assert(items@ =~= Seq::<Node>::empty());
                        }
                        continue;
                    }
                    let keys = st.keys.clone();
                    st.child_index = len;
                    self.stack.push(st);
                    proof {
                        lemma_push(base, st);
                        assert(items@.skip(len as int) =~= Seq::<Node>::empty());
                    }
                    let mut j: usize = len;
                    while j > 0
                        invariant
                            0 <= j <= items@.len(),
                            keys@ == k,
                            below(k, node) == flat_items(k, items@, 0),
                            stack_rest(self.stack@) == flat_items(k, items@.skip(j as int), j as nat) + stack_rest(base),
                            stack_ok(self.stack@),
                            stack_weight(self.stack@) == 3 * flat_items(k, items@.skip(j as int), j as nat).len() + 1 + stack_weight(base),
                            self.buffer == old(self).buffer,
                            self.buffer_pos == old(self).buffer_pos,
                self.buffer_end == old(self).buffer_end,
                            self.buffered == old(self).buffered,
                        decreases j,
                    {
                        let child = TraversalState {
                            node: items[j - 1].clone(),
                            keys: keys.join(KeyOrIndex::Index(j - 1)),
                            child_index: 0,
                            yielded: false,
                        };
                        let ghost s_before = self.stack@;
                        self.stack.push(child);
                        proof {
                            lemma_push(s_before, child);
                            let t1 = items@.skip(j - 1);
                            assert(t1[0] == items@[j - 1]);
                            assert(t1.drop_first() =~= items@.skip(j as int));
                            assert(flat_items(k, t1, (j - 1) as nat) == flat(k.push(KeyOrIndex::Index((j - 1) as usize)), items@[j - 1]) + flat_items(k, items@.skip(j as int), j as nat));
                        }
                        j = j - 1;
                    }
                    proof {
                        assert(items@.skip(0) =~= items@);
                    }
                },
                _ => {
                    continue;
                },
            }
        }
    }

    /// Hands out the next node of the traversal with its path, or `None` at the end.
    pub fn next(&mut self) -> (r: Option<(Keys, Node)>)
        requires
            old(self).wf(),
        ensures
            final(self).wf(),
            old(self).pending().len() == 0 ==> r is None && final(self).pending().len() == 0,
            old(self).pending().len() > 0 ==> (r matches Some(item) && item_view(item) == old(self).pending()[0])
                && final(self).pending() == old(self).pending().drop_first(),
    {
        if self.buffered {
            if self.buffer_pos < self.buffer_end {
                let result = copy_item(&self.buffer[self.buffer_pos]);
                self.buffer_pos = self.buffer_pos + 1;
                proof {
                    assert(self.pending() =~= old(self).pending().drop_first());
                }
                Some(result)
            } else {
                None
            }
        } else {
            let r = self.process_next();
            proof {
                assert(self.pending() =~= self.stack_pending());
                assert(old(self).pending() =~= old(self).stack_pending());
            }
            r
        }
    }
}


/// The views of a list of items.
pub open spec fn items_view(v: Seq<(Keys, Node)>) -> Seq<(Seq<KeyOrIndex>, Node)> {
    v.map_values(|p: (Keys, Node)| item_view(p))
}

/// A copy of an item.
fn copy_item(p: &(Keys, Node)) -> (r: (Keys, Node))
    ensures
        item_view(r) == item_view(*p),
{
    (p.0.clone(), p.1.clone())
}

impl FlatIter {
    /// Hands out the last node of the traversal not yet handed out: the first call collects
    /// every remaining node, and each call then takes from the back of what is left.
    pub fn next_back(&mut self) -> (r: Option<(Keys, Node)>)
        requires
            old(self).wf(),
        ensures
            final(self).wf(),
            old(self).pending().len() == 0 ==> r is None && final(self).pending().len() == 0,
            old(self).pending().len() > 0 ==> (r matches Some(item) && item_view(item) == old(self).pending().last())
                && final(self).pending() == old(self).pending().drop_last(),
    {
        let ghost q0 = self.pending();
        if !self.buffered {
            assert(self.pending() =~= self.stack_pending());
            loop
                invariant
                    self.buffer_pos == 0,
                    self.buffer_end == 0,
                    stack_ok(self.stack@),
                    !self.buffered,
                    items_view(self.buffer@) + self.stack_pending() == q0,
                ensures
                    self.stack_pending().len() == 0,
                    items_view(self.buffer@) == q0,
                decreases self.stack_pending().len(),
            {
                let ghost p0 = self.stack_pending();
                let ghost b0 = self.buffer@;
                match self.process_next() {
                    Some(item) => {
                        self.buffer.push(item);
                        proof {
                            assert(items_view(self.buffer@) =~= items_view(b0).push(item_view(item)));
                            assert(p0 =~= seq![p0[0]] + p0.drop_first());
                            assert(items_view(self.buffer@) + self.stack_pending() =~= items_view(b0) + p0);
                        }
                    },
                    None => {
                        assert(items_view(self.buffer@) =~= items_view(self.buffer@) + self.stack_pending());
                        break;
                    },
                }
            }
            self.buffer_end = self.buffer.len();
            self.buffered = true;
            assert(items_view(self.buffer@).subrange(0, self.buffer_end as int) =~= items_view(self.buffer@));
            assert(self.pending() =~= q0);
        }
        if self.buffer_pos < self.buffer_end {
            self.buffer_end = self.buffer_end - 1;
            let result = copy_item(&self.buffer[self.buffer_end]);
            proof {
                assert(self.pending() =~= q0.drop_last());
                assert(q0.last() == items_view(self.buffer@)[self.buffer_end as int]);
            }
            Some(result)
        } else {
            proof {
                assert(q0.len() == 0);
            }
            None
        }
    }
}

/// A traversal of a tree in document order that collects every node first.
pub struct BufferedFlatIter {
    buffer: Vec<(Keys, Node)>,
    pos: usize,
    end: usize,
}

impl BufferedFlatIter {
    /// What the traversal still hands out, in order.
    pub closed spec fn remaining(&self) -> Seq<(Seq<KeyOrIndex>, Node)> {
        items_view(self.buffer@).subrange(self.pos as int, self.end as int)
    }

    /// The traversal's own bookkeeping is consistent.
    pub closed spec fn wf(&self) -> bool {
        self.pos <= self.end <= self.buffer@.len()
    }

    /// Collects the traversal of the tree under `root`.
    fn new(root: Node) -> (r: BufferedFlatIter)
        ensures
            r.wf(),
            r.remaining() == flat(Seq::empty(), root),
    {
        let mut iter = FlatIter::new(root);
        let mut buffer: Vec<(Keys, Node)> = Vec::new();
        loop
            invariant
                iter.wf(),
                items_view(buffer@) + iter.pending() == flat(Seq::empty(), root),
            ensures
                items_view(buffer@) == flat(Seq::empty(), root),
            decreases iter.pending().len(),
        {
            let ghost p0 = iter.pending();
            let ghost b0 = buffer@;
            match iter.next() {
                Some(item) => {
                    buffer.push(item);
                    proof {
                        assert(items_view(buffer@) =~= items_view(b0).push(p0[0]));
                        assert(p0 =~= seq![p0[0]] + p0.drop_first());
                        assert(items_view(buffer@) + iter.pending() =~= items_view(b0) + p0);
                    }
                },
                None => {
                    assert(items_view(buffer@) =~= items_view(buffer@) + iter.pending());
                    break;
                },
            }
        }
        let end = buffer.len();
        let r = BufferedFlatIter { buffer, pos: 0, end };
        assert(items_view(r.buffer@).subrange(0, end as int) =~= items_view(r.buffer@));
        r
    }

    /// Hands out the next node with its path, or `None` at the end.
    pub fn next(&mut self) -> (r: Option<(Keys, Node)>)
        requires
            old(self).wf(),
        ensures
            final(self).wf(),
            old(self).remaining().len() == 0 ==> r is None && final(self).remaining().len() == 0,
            old(self).remaining().len() > 0 ==> (r matches Some(item) && item_view(item) == old(self).remaining()[0])
                && final(self).remaining() == old(self).remaining().drop_first(),
    {
        if self.pos < self.end {
            let result = copy_item(&self.buffer[self.pos]);
            self.pos = self.pos + 1;
            proof {
                assert(self.remaining() =~= old(self).remaining().drop_first());
            }
            Some(result)
        } else {
            None
        }
    }

    /// The number of nodes still to be handed out.
    pub fn len(&self) -> (r: usize)
        requires
            self.wf(),
        ensures
            r == self.remaining().len(),
    {
        self.end - self.pos
    }

    /// Hands out the last node not yet handed out.
    pub fn next_back(&mut self) -> (r: Option<(Keys, Node)>)
        requires
            old(self).wf(),
        ensures
            final(self).wf(),
            old(self).remaining().len() == 0 ==> r is None && final(self).remaining().len() == 0,
            old(self).remaining().len() > 0 ==> (r matches Some(item) && item_view(item) == old(self).remaining().last())
                && final(self).remaining() == old(self).remaining().drop_last(),
    {
        if self.pos < self.end {
            self.end = self.end - 1;
            let result = copy_item(&self.buffer[self.end]);
            proof {
                assert(self.remaining() =~= old(self).remaining().drop_last());
            }
            Some(result)
        } else {
            None
        }
    }
}

/// The items of `s` whose paths have at most `max_depth` steps, in order.
pub open spec fn keep_shallow(s: Seq<(Seq<KeyOrIndex>, Node)>, max_depth: nat) -> Seq<(Seq<KeyOrIndex>, Node)>
    decreases s.len(),
{
    if s.len() == 0 {
        Seq::empty()
    } else {
        (if s[0].0.len() <= max_depth { seq![s[0]] } else { Seq::empty() }) + keep_shallow(s.drop_first(), max_depth)
    }
}

/// A traversal in document order that skips the nodes whose path is longer than a limit.
pub struct DepthLimitedFlatIter {
    inner: FlatIter,
    max_depth: usize,
}

impl DepthLimitedFlatIter {
    /// What the traversal still hands out, in order.
    pub closed spec fn remaining(&self) -> Seq<(Seq<KeyOrIndex>, Node)> {
        keep_shallow(self.inner.pending(), self.max_depth as nat)
    }

    /// The traversal's own bookkeeping is consistent.
    pub closed spec fn wf(&self) -> bool {
        self.inner.wf()
    }

    /// Hands out the next node whose path is within the limit, with its path, or `None` at
    /// the end.
    pub fn next(&mut self) -> (r: Option<(Keys, Node)>)
        requires
            old(self).wf(),
        ensures
            final(self).wf(),
            old(self).remaining().len() == 0 ==> r is None && final(self).remaining().len() == 0,
            old(self).remaining().len() > 0 ==> (r matches Some(item) && item_view(item) == old(self).remaining()[0])
                && final(self).remaining() == old(self).remaining().drop_first(),
    {
        let ghost r0 = self.remaining();
        loop
            invariant
                self.inner.wf(),
                self.max_depth == old(self).max_depth,
                r0 == old(self).remaining(),
                self.remaining() == r0,
            decreases self.inner.pending().len(),
        {
            let ghost p0 = self.inner.pending();
            match self.inner.next() {
                Some(item) => {
                    let ghost d = self.max_depth as nat;
                    let n = item.0.len();
                    proof {
                        assert(p0.len() > 0);
                        assert(item_view(item) == p0[0]);
                        assert(n == p0[0].0.len());
                        assert(self.inner.pending() == p0.drop_first());
                    }
                    if n <= self.max_depth {
                        proof {
                            assert(keep_shallow(p0, d) == seq![p0[0]] + keep_shallow(p0.drop_first(), d));
                            assert(r0 == seq![p0[0]] + self.remaining());
                            assert(r0.drop_first() =~= self.remaining());
                        }
                        return Some(item);
                    } else {
                        proof {
                            assert(keep_shallow(p0, d) =~= keep_shallow(p0.drop_first(), d));
                        }
                    }
                },
                None => {
                    return None;
                },
            }
        }
    }
}

/// A traversal in document order that also keeps copies of the nodes it hands out in a
/// buffer, emptied whenever it holds more than a thousand.
pub struct PooledFlatIter {
    inner: FlatIter,
    pool: Vec<(Keys, Node)>,
}

impl PooledFlatIter {
    /// What the traversal still hands out, in order.
    pub closed spec fn remaining(&self) -> Seq<(Seq<KeyOrIndex>, Node)> {
        self.inner.pending()
    }

    /// The traversal's own bookkeeping is consistent.
    pub closed spec fn wf(&self) -> bool {
        self.inner.wf()
    }

    /// Hands out the next node with its path, or `None` at the end.
    pub fn next(&mut self) -> (r: Option<(Keys, Node)>)
        requires
            old(self).wf(),
        ensures
            final(self).wf(),
            old(self).remaining().len() == 0 ==> r is None && final(self).remaining().len() == 0,
            old(self).remaining().len() > 0 ==> (r matches Some(item) && item_view(item) == old(self).remaining()[0])
                && final(self).remaining() == old(self).remaining().drop_first(),
    {
        match self.inner.next() {
            Some(item) => {
                self.pool.push(copy_item(&item));
                if self.pool.len() > 1000 {
                    self.pool.clear();
                }
                Some(item)
            },
            None => None,
        }
    }
}

impl Node {
    /// A traversal of the tree under this node, in document order, starting with the node
    /// itself at the empty path.
    pub fn flat_iter(&self) -> (r: FlatIter)
        ensures
            r.wf(),
            r.pending() == flat(Seq::empty(), *self),
    {
        FlatIter::new(self.clone())
    }

    /// A traversal of the tree under this node, in document order (the same as
    /// `flat_iter`).
    pub fn flat_iter_optimized(&self) -> (r: FlatIter)
        ensures
            r.wf(),
            r.pending() == flat(Seq::empty(), *self),
    {
        FlatIter::new(self.clone())
    }

    /// A traversal of the tree under this node that collects every node first.
    pub fn flat_iter_buffered(&self) -> (r: BufferedFlatIter)
        ensures
            r.wf(),
            r.remaining() == flat(Seq::empty(), *self),
    {
        BufferedFlatIter::new(self.clone())
    }

    /// A traversal of the tree under this node that skips the nodes whose path is longer
    /// than `max_depth`.
    pub fn flat_iter_with_depth_limit(&self, max_depth: usize) -> (r: DepthLimitedFlatIter)
        ensures
            r.wf(),
            r.remaining() == keep_shallow(flat(Seq::empty(), *self), max_depth as nat),
    {
        DepthLimitedFlatIter { inner: FlatIter::new(self.clone()), max_depth }
    }

    /// A traversal of the tree under this node that keeps copies of what it hands out in a
    /// bounded buffer.
    pub fn flat_iter_with_pool(&self) -> (r: PooledFlatIter)
        ensures
            r.wf(),
            r.remaining() == flat(Seq::empty(), *self),
    {
        PooledFlatIter { inner: FlatIter::new(self.clone()), pool: Vec::with_capacity(100) }
    }

    /// Every node of the tree under this node with its path, in document order.
    fn flat_iter_impl(&self) -> (r: Vec<(Keys, Node)>)
        ensures
            items_view(r@) == flat(Seq::empty(), *self),
    {
        let mut it = BufferedFlatIter::new(self.clone());
        let mut out: Vec<(Keys, Node)> = Vec::new();
        loop
            invariant
                it.wf(),
                items_view(out@) + it.remaining() == flat(Seq::empty(), *self),
            ensures
                items_view(out@) == flat(Seq::empty(), *self),
            decreases it.remaining().len(),
        {
            let ghost p0 = it.remaining();
            let ghost o0 = out@;
            match it.next() {
                Some(item) => {
                    out.push(item);
                    proof {
                        assert(items_view(out@) =~= items_view(o0).push(p0[0]));
                        assert(p0 =~= seq![p0[0]] + p0.drop_first());
                        assert(items_view(out@) + it.remaining() =~= items_view(o0) + p0);
                    }
                },
                None => {
                    assert(items_view(out@) =~= items_view(out@) + it.remaining());
                    break;
                },
            }
        }
        out
    }
}

/// The depth-limited traversal hands out exactly the nodes of the full traversal whose
/// paths have at most `max_depth` steps: each it hands out is within the limit, and each
/// such node of the full traversal is handed out.
pub proof fn law_depth_limit_respected(s: Seq<(Seq<KeyOrIndex>, Node)>, max_depth: nat)
    ensures
        forall|i: int| 0 <= i < keep_shallow(s, max_depth).len() ==> (#[trigger] keep_shallow(s, max_depth)[i]).0.len() <= max_depth,
        forall|i: int| 0 <= i < s.len() && (#[trigger] s[i]).0.len() <= max_depth ==> keep_shallow(s, max_depth).contains(s[i]),
        keep_shallow(s, max_depth).len() <= s.len(),
    decreases s.len(),
{
    if s.len() > 0 {
        law_depth_limit_respected(s.drop_first(), max_depth);
        let head: Seq<(Seq<KeyOrIndex>, Node)> = if s[0].0.len() <= max_depth { seq![s[0]] } else { Seq::empty() };
        let t = keep_shallow(s.drop_first(), max_depth);
        assert(keep_shallow(s, max_depth) == head + t);
        assert forall|i: int| 0 <= i < keep_shallow(s, max_depth).len() implies (#[trigger] keep_shallow(s, max_depth)[i]).0.len() <= max_depth by {
            if i >= head.len() {
                assert(keep_shallow(s, max_depth)[i] == t[i - head.len()]);
            }
        }
        assert forall|i: int| 0 <= i < s.len() && (#[trigger] s[i]).0.len() <= max_depth implies keep_shallow(s, max_depth).contains(s[i]) by {
            if i == 0 {
                assert(keep_shallow(s, max_depth)[0] == s[0]);
            } else {
                assert(s[i] == s.drop_first()[i - 1]);
                let k = choose|k: int| 0 <= k < t.len() && t[k] == s[i];
                assert(keep_shallow(s, max_depth)[k + head.len()] == s[i]);
            }
        }
    }
}

} // verus!
