//! Collecting the errors of a tree and the places in the source that its nodes cover.
use vstd::prelude::*;
use crate::errors::TomlError;
use crate::keys::{Key, TextRange};
use crate::node::{
    DomNode, Node, all_errors, entry_errors, item_errors, node_errors, spec_ranges, entry_ranges,
    item_ranges, cover_all, extend_errors,
};

verus! {

impl Node {
    /// Validates the node and then all children recursively: `Ok` where no error is found,
    /// else every error found, in the order of `all_errors`.
    pub fn validate(&self) -> (r: Result<(), Vec<TomlError>>)
        ensures
            r is Ok <==> all_errors(*self).len() == 0,
            r matches Err(v) ==> v@ == all_errors(*self),
    {
        let mut errors: Vec<TomlError> = Vec::new();
        self.validate_all_impl(&mut errors);
        assert(errors@ =~= all_errors(*self));
        if errors.len() == 0 {
            Ok(())
        } else {
            Err(errors)
        }
    }

    /// Appends the errors of `all_errors` for this node to `errors`.
    fn validate_all_impl(&self, errors: &mut Vec<TomlError>)
        ensures
            final(errors)@ == old(errors)@ + all_errors(*self),
        decreases *self,
    {
        match self.validate_node() {
            Err(errs) => extend_errors(errors, errs),
            Ok(()) => {
                assert(node_errors(*self) =~= Seq::<TomlError>::empty());
            },
        }
        let ghost start = errors@;
        match self {
            Node::Table(v) => {
                let es = &v.0.entries;
                let mut i: usize = 0;
                assert(es@.skip(0) =~= es@);
                while i < es.len()
                    invariant
                        0 <= i <= es@.len(),
                        *self == Node::Table(*v),
                        es@ == v.0.entries@,
                        errors@ + entry_errors(es@.skip(i as int)) == start + entry_errors(es@),
                    decreases es@.len() - i,
                {
                    let ghost e0 = errors@;
                    let ghost rest = es@.skip(i as int);
                    assert(rest[0] == es@[i as int]);
                    assert(rest.drop_first() =~= es@.skip(i + 1));
                    match es[i].0.validate_node() {
                        Err(errs) => extend_errors(errors, errs),
                        Ok(()) => {
                            assert(es@[i as int].0.0.errors@ =~= Seq::<TomlError>::empty());
                        },
                    }
                    proof {
                        broadcast use vstd::std_specs::vec::axiom_vec_decreases_to_view;
                        assert((*self)->Table_0 == *v);
                            assert(decreases_to!(*self => *v));
                        assert(decreases_to!(*v => v.0));
                        assert(decreases_to!(v.0 => v.0.entries));
                        assert(decreases_to!(v.0.entries => v.0.entries@));
                        assert(decreases_to!(v.0.entries@ => v.0.entries@[i as int]));
                        assert(decreases_to!(v.0.entries@[i as int] => v.0.entries@[i as int].1));
                    }
                    es[i].1.validate_all_impl(errors);
                    proof {
                        assert(errors@ + entry_errors(es@.skip(i + 1)) =~= e0 + entry_errors(rest));
                    }
                    i = i + 1;
                }
                assert(es@.skip(es@.len() as int) =~= Seq::<(Key, Node)>::empty());
                assert(errors@ =~= old(errors)@ + all_errors(*self));
            },
            Node::Array(v) => {
                let items = &v.0.items;
                let mut i: usize = 0;
                assert(items@.skip(0) =~= items@);
                while i < items.len()
                    invariant
                        0 <= i <= items@.len(),
                        *self == Node::Array(*v),
                        items@ == v.0.items@,
                        errors@ + item_errors(items@.skip(i as int)) == start + item_errors(items@),
                    decreases items@.len() - i,
                {
                    let ghost e0 = errors@;
                    let ghost rest = items@.skip(i as int);
                    assert(rest[0] == items@[i as int]);
                    assert(rest.drop_first() =~= items@.skip(i + 1));
                    proof {
                        broadcast use vstd::std_specs::vec::axiom_vec_decreases_to_view;
                        assert((*self)->Array_0 == *v);
                        assert(decreases_to!(*self => *v));
                        assert(decreases_to!(*v => v.0));
                        assert(decreases_to!(v.0 => v.0.items));
                        assert(decreases_to!(v.0.items => v.0.items@));
                        assert(decreases_to!(v.0.items@ => v.0.items@[i as int]));
                    }
                    items[i].validate_all_impl(errors);
                    proof {
                        assert(errors@ + item_errors(items@.skip(i + 1)) =~= e0 + item_errors(rest));
                    }
                    i = i + 1;
                }
                assert(items@.skip(items@.len() as int) =~= Seq::<Node>::empty());
                assert(errors@ =~= old(errors)@ + all_errors(*self));
            },
            _ => {
                assert(errors@ =~= old(errors)@ + all_errors(*self));
            },
        }
    }

    /// The places in the source the node covers: for a table or array, the range covering
    /// it and (where `include_children` holds) everything under it, followed by the ranges
    /// of its children; for any other node, its own range (empty where it has none).
    pub fn text_ranges(&self, include_children: bool) -> (r: Vec<TextRange>)
        ensures
            r@ == spec_ranges(*self, include_children),
        decreases *self,
    {
        let mut ranges: Vec<TextRange> = Vec::with_capacity(1);
        match self {
            Node::Table(v) => {
                if include_children {
                    let es = &v.0.entries;
                    let mut i: usize = 0;
                    assert(es@.skip(0) =~= es@);
                    while i < es.len()
                        invariant
                            0 <= i <= es@.len(),
                            *self == Node::Table(*v),
                            es@ == v.0.entries@,
                            ranges@ + entry_ranges(es@.skip(i as int)) == entry_ranges(es@),
                        decreases es@.len() - i,
                    {
                        let ghost r0 = ranges@;
                        let ghost rest = es@.skip(i as int);
                        assert(rest[0] == es@[i as int]);
                        assert(rest.drop_first() =~= es@.skip(i + 1));
                        let mut kr = es[i].0.text_ranges();
                        ranges.append(&mut kr);
                        proof {
                            broadcast use vstd::std_specs::vec::axiom_vec_decreases_to_view;
                            assert((*self)->Table_0 == *v);
                            assert(decreases_to!(*self => *v));
                            assert(decreases_to!(*v => v.0));
                            assert(decreases_to!(v.0 => v.0.entries));
                            assert(decreases_to!(v.0.entries => v.0.entries@));
                            assert(decreases_to!(v.0.entries@ => v.0.entries@[i as int]));
                            assert(decreases_to!(v.0.entries@[i as int] => v.0.entries@[i as int].1));
                        }
                        let mut er = es[i].1.text_ranges(true);
                        ranges.append(&mut er);
                        proof {
                            assert(ranges@ + entry_ranges(es@.skip(i + 1)) =~= r0 + entry_ranges(rest));
                        }
                        i = i + 1;
                    }
                    assert(es@.skip(es@.len() as int) =~= Seq::<(Key, Node)>::empty());
                    assert(ranges@ =~= entry_ranges(es@));
                } else {
                    assert(ranges@ =~= Seq::<TextRange>::empty());
                }
                cover_and_prepend(&mut ranges, v.0.range);
            },
            Node::Array(v) => {
                if include_children {
                    let items = &v.0.items;
                    let mut i: usize = 0;
                    assert(items@.skip(0) =~= items@);
                    while i < items.len()
                        invariant
                            0 <= i <= items@.len(),
                            *self == Node::Array(*v),
                            items@ == v.0.items@,
                            ranges@ + item_ranges(items@.skip(i as int)) == item_ranges(items@),
                        decreases items@.len() - i,
                    {
                        let ghost r0 = ranges@;
                        let ghost rest = items@.skip(i as int);
                        assert(rest[0] == items@[i as int]);
                        assert(rest.drop_first() =~= items@.skip(i + 1));
                        proof {
                            broadcast use vstd::std_specs::vec::axiom_vec_decreases_to_view;
                            assert((*self)->Array_0 == *v);
                            assert(decreases_to!(*self => *v));
                            assert(decreases_to!(*v => v.0));
                            assert(decreases_to!(v.0 => v.0.items));
                            assert(decreases_to!(v.0.items => v.0.items@));
                            assert(decreases_to!(v.0.items@ => v.0.items@[i as int]));
                        }
                        let mut ir = items[i].text_ranges(true);
                        ranges.append(&mut ir);
                        proof {
                            assert(ranges@ + item_ranges(items@.skip(i + 1)) =~= r0 + item_ranges(rest));
                        }
                        i = i + 1;
                    }
                    assert(items@.skip(items@.len() as int) =~= Seq::<Node>::empty());
                    assert(ranges@ =~= item_ranges(items@));
                } else {
                    assert(ranges@ =~= Seq::<TextRange>::empty());
                }
                cover_and_prepend(&mut ranges, v.0.range);
            },
            _ => {
                let own = match self.syntax() {
                    Some(r) => r,
                    None => TextRange::empty(),
                };
                ranges.push(own);
                assert(ranges@ =~= spec_ranges(*self, include_children));
            },
        }
        ranges
    }
}

/// Where the node has a place in the source, puts before `ranges` the range that covers
/// it and all of `ranges`.
fn cover_and_prepend(ranges: &mut Vec<TextRange>, own: Option<TextRange>)
    ensures
        final(ranges)@ == crate::node::with_cover(own, old(ranges)@),
{
    if let Some(start) = own {
        let mut r = start;
        let mut j: usize = 0;
        assert(ranges@.skip(0) =~= ranges@);
        while j < ranges.len()
            invariant
                0 <= j <= ranges@.len(),
                ranges@ == old(ranges)@,
                cover_all(r, ranges@.skip(j as int)) == cover_all(start, ranges@),
            decreases ranges@.len() - j,
        {
            let ghost rest = ranges@.skip(j as int);
            assert(rest[0] == ranges@[j as int]);
            assert(rest.drop_first() =~= ranges@.skip(j + 1));
            r = r.cover(ranges[j]);
            j = j + 1;
        }
        assert(ranges@.skip(ranges@.len() as int) =~= Seq::<TextRange>::empty());
        ranges.insert(0, r);
        assert(ranges@ =~= seq![cover_all(start, old(ranges)@)] + old(ranges)@);
    }
}

} // verus!
