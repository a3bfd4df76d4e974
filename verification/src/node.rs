//! The tree of a TOML document: tables, arrays and values, with the paths that lead to
//! them.
use std::sync::Arc;
use vstd::prelude::*;
use crate::errors::{QueryError, TomlError};
use crate::keys::{Key, KeyOrIndex, Keys, TextRange, key_ranges, spec_cover};
use crate::platform::share;
use crate::text::str_equal;

verus! {

/// The contents of a table.
pub struct TableData {
    /// The entries of the table, in document order.
    pub entries: Vec<(Key, Node)>,
    /// The errors found in the table.
    pub errors: Vec<TomlError>,
    /// Where the table stands in the source, if it comes from one.
    pub range: Option<TextRange>,
}

/// The contents of an array.
pub struct ArrayData {
    /// The items of the array, in document order.
    pub items: Vec<Node>,
    /// The errors found in the array.
    pub errors: Vec<TomlError>,
    /// Where the array stands in the source, if it comes from one.
    pub range: Option<TextRange>,
}

/// The contents of a value that has no children.
pub struct ValueData<T> {
    /// The value.
    pub value: T,
    /// The errors found in the value.
    pub errors: Vec<TomlError>,
    /// Where the value stands in the source, if it comes from one.
    pub range: Option<TextRange>,
}

/// A table. Copies share their contents.
pub struct Table(pub Arc<TableData>);

/// An array. Copies share their contents.
pub struct Array(pub Arc<ArrayData>);

/// A boolean.
pub struct Bool(pub Arc<ValueData<bool>>);

/// A string, unescaped.
pub struct Str(pub Arc<ValueData<String>>);

/// An integer.
pub struct Integer(pub Arc<ValueData<i64>>);

/// A float, held as the bits of its IEEE 754 double-precision form.
pub struct Float(pub Arc<ValueData<u64>>);

/// A date, time or date-time, held as written.
pub struct DateTime(pub Arc<ValueData<String>>);

/// A node that could not be read, or the answer to a failed lookup.
pub struct Invalid(pub Arc<ValueData<()>>);

/// A node of the tree.
pub enum Node {
    Table(Table),
    Array(Array),
    Bool(Bool),
    Str(Str),
    Integer(Integer),
    Float(Float),
    Date(DateTime),
    Invalid(Invalid),
}

impl Clone for Node {
    fn clone(&self) -> (r: Self)
        ensures
            r == *self,
    {
        match self {
            Node::Table(v) => Node::Table(Table(share(&v.0))),
            Node::Array(v) => Node::Array(Array(share(&v.0))),
            Node::Bool(v) => Node::Bool(Bool(share(&v.0))),
            Node::Str(v) => Node::Str(Str(share(&v.0))),
            Node::Integer(v) => Node::Integer(Integer(share(&v.0))),
            Node::Float(v) => Node::Float(Float(share(&v.0))),
            Node::Date(v) => Node::Date(DateTime(share(&v.0))),
            Node::Invalid(v) => Node::Invalid(Invalid(share(&v.0))),
        }
    }
}

/// The errors recorded on the node itself.
pub open spec fn node_errors(n: Node) -> Seq<TomlError> {
    match n {
        Node::Table(v) => v.0.errors@,
        Node::Array(v) => v.0.errors@,
        Node::Bool(v) => v.0.errors@,
        Node::Str(v) => v.0.errors@,
        Node::Integer(v) => v.0.errors@,
        Node::Float(v) => v.0.errors@,
        Node::Date(v) => v.0.errors@,
        Node::Invalid(v) => v.0.errors@,
    }
}

/// Where the node stands in the source, if it comes from one.
pub open spec fn node_range(n: Node) -> Option<TextRange> {
    match n {
        Node::Table(v) => v.0.range,
        Node::Array(v) => v.0.range,
        Node::Bool(v) => v.0.range,
        Node::Str(v) => v.0.range,
        Node::Integer(v) => v.0.range,
        Node::Float(v) => v.0.range,
        Node::Date(v) => v.0.range,
        Node::Invalid(v) => v.0.range,
    }
}

/// The node `n` at path `keys`, then every node below it, in document order, each with its
/// path: a table's entries and an array's items come right after it, each followed by
/// everything below it.
pub open spec fn flat(keys: Seq<KeyOrIndex>, n: Node) -> Seq<(Seq<KeyOrIndex>, Node)>
    decreases n,
{
    seq![(keys, n)] + match n {
        Node::Table(t) => flat_entries(keys, t.0.entries@),
        Node::Array(a) => flat_items(keys, a.0.items@, 0),
        _ => Seq::empty(),
    }
}

/// `flat` of each entry of a table at path `keys`, one after the other.
pub open spec fn flat_entries(keys: Seq<KeyOrIndex>, es: Seq<(Key, Node)>) -> Seq<(Seq<KeyOrIndex>, Node)>
    decreases es,
{
    if es.len() == 0 {
        Seq::empty()
    } else {
        flat(keys.push(KeyOrIndex::Key(es[0].0)), es[0].1) + flat_entries(keys, es.drop_first())
    }
}

/// `flat` of each item of an array at path `keys`, one after the other, the first of
/// `items` having index `offset`.
pub open spec fn flat_items(keys: Seq<KeyOrIndex>, items: Seq<Node>, offset: nat) -> Seq<(Seq<KeyOrIndex>, Node)>
    decreases items,
{
    if items.len() == 0 {
        Seq::empty()
    } else {
        flat(keys.push(KeyOrIndex::Index(offset as usize)), items[0]) + flat_items(keys, items.drop_first(), offset + 1)
    }
}

/// Everything below the node `n` at path `keys`, in the order of `flat`.
pub open spec fn below(keys: Seq<KeyOrIndex>, n: Node) -> Seq<(Seq<KeyOrIndex>, Node)> {
    match n {
        Node::Table(t) => flat_entries(keys, t.0.entries@),
        Node::Array(a) => flat_items(keys, a.0.items@, 0),
        _ => Seq::empty(),
    }
}

/// `flat` is the node followed by everything below it.
pub proof fn lemma_flat_unfold(keys: Seq<KeyOrIndex>, n: Node)
    ensures
        flat(keys, n) == seq![(keys, n)] + below(keys, n),
        flat(keys, n).len() >= 1,
        flat(keys, n)[0] == (keys, n),
{
}

/// The number of levels of the tree under and including `n`: one for a node without
/// children.
pub open spec fn spec_depth(n: Node) -> nat
    decreases n,
{
    match n {
        Node::Table(t) => 1 + depth_entries(t.0.entries@),
        Node::Array(a) => 1 + depth_items(a.0.items@),
        _ => 1,
    }
}

/// The greatest depth among the entries (zero for none).
pub open spec fn depth_entries(es: Seq<(Key, Node)>) -> nat
    decreases es,
{
    if es.len() == 0 {
        0
    } else {
        let d = spec_depth(es[0].1);
        let rest = depth_entries(es.drop_first());
        if d >= rest { d } else { rest }
    }
}

/// The greatest depth among the items (zero for none).
pub open spec fn depth_items(items: Seq<Node>) -> nat
    decreases items,
{
    if items.len() == 0 {
        0
    } else {
        let d = spec_depth(items[0]);
        let rest = depth_items(items.drop_first());
        if d >= rest { d } else { rest }
    }
}

/// The errors that `validate` reports for `n`: those of the node; for a table, then those of
/// each key followed by everything reported for its value; for an array, then everything
/// reported for each item.
pub open spec fn all_errors(n: Node) -> Seq<TomlError>
    decreases n,
{
    node_errors(n) + match n {
        Node::Table(t) => entry_errors(t.0.entries@),
        Node::Array(a) => item_errors(a.0.items@),
        _ => Seq::empty(),
    }
}

/// The errors of each key and everything reported for its value, entry after entry.
pub open spec fn entry_errors(es: Seq<(Key, Node)>) -> Seq<TomlError>
    decreases es,
{
    if es.len() == 0 {
        Seq::empty()
    } else {
        es[0].0.0.errors@ + all_errors(es[0].1) + entry_errors(es.drop_first())
    }
}

/// Everything reported for each item, item after item.
pub open spec fn item_errors(items: Seq<Node>) -> Seq<TomlError>
    decreases items,
{
    if items.len() == 0 {
        Seq::empty()
    } else {
        all_errors(items[0]) + item_errors(items.drop_first())
    }
}

/// The range that covers `r` and each range of `rs`.
pub open spec fn cover_all(r: TextRange, rs: Seq<TextRange>) -> TextRange
    decreases rs.len(),
{
    if rs.len() == 0 {
        r
    } else {
        cover_all(spec_cover(r, rs[0]), rs.drop_first())
    }
}

/// The ranges of a table or array: the children's ranges, preceded by the range covering
/// the node and all of them where the node has a place in the source.
pub open spec fn with_cover(own: Option<TextRange>, kids: Seq<TextRange>) -> Seq<TextRange> {
    match own {
        Some(r) => seq![cover_all(r, kids)] + kids,
        None => kids,
    }
}

/// The ranges `text_ranges` gives for `n`.
pub open spec fn spec_ranges(n: Node, include_children: bool) -> Seq<TextRange>
    decreases n,
{
    match n {
        Node::Table(t) => with_cover(
            t.0.range,
            if include_children { entry_ranges(t.0.entries@) } else { Seq::empty() },
        ),
        Node::Array(a) => with_cover(
            a.0.range,
            if include_children { item_ranges(a.0.items@) } else { Seq::empty() },
        ),
        _ => seq![
            match node_range(n) {
                Some(r) => r,
                None => TextRange { start: 0, end: 0 },
            },
        ],
    }
}

/// The ranges of each key and its value (with children), entry after entry.
pub open spec fn entry_ranges(es: Seq<(Key, Node)>) -> Seq<TextRange>
    decreases es,
{
    if es.len() == 0 {
        Seq::empty()
    } else {
        key_ranges(es[0].0) + spec_ranges(es[0].1, true) + entry_ranges(es.drop_first())
    }
}

/// The ranges of each item (with children), item after item.
pub open spec fn item_ranges(items: Seq<Node>) -> Seq<TextRange>
    decreases items,
{
    if items.len() == 0 {
        Seq::empty()
    } else {
        spec_ranges(items[0], true) + item_ranges(items.drop_first())
    }
}

/// The value of the first entry whose key reads `name`.
pub open spec fn find_entry(es: Seq<(Key, Node)>, name: Seq<char>) -> Option<Node>
    decreases es.len(),
{
    if es.len() == 0 {
        None
    } else if es[0].0.0.value@ == name {
        Some(es[0].1)
    } else {
        find_entry(es.drop_first(), name)
    }
}

/// What stands at `idx` directly under `n`: the first entry of a table with that key, or
/// the item of an array at that index.
pub open spec fn lookup(n: Node, idx: KeyOrIndex) -> Option<Node> {
    match idx {
        KeyOrIndex::Key(k) => match n {
            Node::Table(t) => find_entry(t.0.entries@, k.0.value@),
            _ => None,
        },
        KeyOrIndex::Index(i) => match n {
            Node::Array(a) => if i < a.0.items@.len() { Some(a.0.items@[i as int]) } else { None },
            _ => None,
        },
    }
}

/// What `path` finds below `n` along `ks`: `None` where a step finds nothing or the node
/// found last is invalid.
pub open spec fn follow(n: Node, ks: Seq<KeyOrIndex>) -> Option<Node>
    decreases ks.len(),
{
    if ks.len() == 0 {
        if n is Invalid { None } else { Some(n) }
    } else {
        match lookup(n, ks[0]) {
            Some(m) => follow(m, ks.drop_first()),
            None => None,
        }
    }
}

/// `n` is an invalid node whose one error says that nothing was found.
pub open spec fn is_not_found(n: Node) -> bool {
    n is Invalid && node_errors(n) == seq![TomlError::Query(QueryError::NotFound)] && node_range(n) is None
}

/// The common operations of the nodes of the tree.
pub trait DomNode: Sized {
    /// The errors recorded on the node itself.
    spec fn spec_errors(&self) -> Seq<TomlError>;

    /// Where the node stands in the source.
    spec fn spec_syntax(&self) -> Option<TextRange>;

    /// Where the node stands in the source, if it comes from one.
    fn syntax(&self) -> (r: Option<TextRange>)
        ensures
            r == self.spec_syntax(),
    ;

    /// The errors recorded on the node itself.
    fn errors(&self) -> (r: &Vec<TomlError>)
        ensures
            r@ == self.spec_errors(),
    ;

    /// `Ok` where the node itself has no errors, else its errors.
    fn validate_node(&self) -> (r: Result<(), &Vec<TomlError>>)
        ensures
            r is Ok <==> self.spec_errors().len() == 0,
            r matches Err(e) ==> e@ == self.spec_errors(),
    ;

    /// Whether the node itself has no errors.
    fn is_valid_node(&self) -> (r: bool)
        ensures
            r == (self.spec_errors().len() == 0),
    {
        self.validate_node().is_ok()
    }
}

impl DomNode for Node {
    open spec fn spec_errors(&self) -> Seq<TomlError> {
        node_errors(*self)
    }

    open spec fn spec_syntax(&self) -> Option<TextRange> {
        node_range(*self)
    }

    fn syntax(&self) -> (r: Option<TextRange>) {
        match self {
            Node::Table(v) => v.0.range,
            Node::Array(v) => v.0.range,
            Node::Bool(v) => v.0.range,
            Node::Str(v) => v.0.range,
            Node::Integer(v) => v.0.range,
            Node::Float(v) => v.0.range,
            Node::Date(v) => v.0.range,
            Node::Invalid(v) => v.0.range,
        }
    }

    fn errors(&self) -> (r: &Vec<TomlError>) {
        match self {
            Node::Table(v) => &v.0.errors,
            Node::Array(v) => &v.0.errors,
            Node::Bool(v) => &v.0.errors,
            Node::Str(v) => &v.0.errors,
            Node::Integer(v) => &v.0.errors,
            Node::Float(v) => &v.0.errors,
            Node::Date(v) => &v.0.errors,
            Node::Invalid(v) => &v.0.errors,
        }
    }

    fn validate_node(&self) -> (r: Result<(), &Vec<TomlError>>) {
        let errors = self.errors();
        if errors.len() == 0 {
            Ok(())
        } else {
            Err(errors)
        }
    }
}

impl DomNode for Key {
    open spec fn spec_errors(&self) -> Seq<TomlError> {
        self.0.errors@
    }

    open spec fn spec_syntax(&self) -> Option<TextRange> {
        self.0.range
    }

    fn syntax(&self) -> (r: Option<TextRange>) {
        self.0.range
    }

    fn errors(&self) -> (r: &Vec<TomlError>) {
        &self.0.errors
    }

    fn validate_node(&self) -> (r: Result<(), &Vec<TomlError>>) {
        if self.0.errors.len() == 0 {
            Ok(())
        } else {
            Err(&self.0.errors)
        }
    }
}

/// Appends copies of `src` to `dst`.
pub(crate) fn extend_errors(dst: &mut Vec<TomlError>, src: &Vec<TomlError>)
    ensures
        final(dst)@ == old(dst)@ + src@,
{
    let mut i: usize = 0;
    while i < src.len()
        invariant
            0 <= i <= src@.len(),
            dst@ == old(dst)@ + src@.take(i as int),
        decreases src@.len() - i,
    {
        dst.push(src[i].clone());
        proof {
            assert(src@.take(i + 1) =~= src@.take(i as int).push(src@[i as int]));
        }
        i = i + 1;
    }
    assert(src@.take(src@.len() as int) =~= src@);
}

impl Node {
    /// A table node.
    pub fn table(entries: Vec<(Key, Node)>, errors: Vec<TomlError>, range: Option<TextRange>) -> (r: Node)
        ensures
            r matches Node::Table(t) && t.0.entries == entries && t.0.errors == errors && t.0.range == range,
    {
        Node::Table(Table(Arc::new(TableData { entries, errors, range })))
    }

    /// An array node.
    pub fn array(items: Vec<Node>, errors: Vec<TomlError>, range: Option<TextRange>) -> (r: Node)
        ensures
            r matches Node::Array(a) && a.0.items == items && a.0.errors == errors && a.0.range == range,
    {
        Node::Array(Array(Arc::new(ArrayData { items, errors, range })))
    }

    /// A boolean node.
    pub fn boolean(value: bool, errors: Vec<TomlError>, range: Option<TextRange>) -> (r: Node)
        ensures
            r matches Node::Bool(b) && b.0.value == value && b.0.errors == errors && b.0.range == range,
    {
        Node::Bool(Bool(Arc::new(ValueData { value, errors, range })))
    }

    /// A string node.
    pub fn string(value: String, errors: Vec<TomlError>, range: Option<TextRange>) -> (r: Node)
        ensures
            r matches Node::Str(s) && s.0.value == value && s.0.errors == errors && s.0.range == range,
    {
        Node::Str(Str(Arc::new(ValueData { value, errors, range })))
    }

    /// An integer node.
    pub fn integer(value: i64, errors: Vec<TomlError>, range: Option<TextRange>) -> (r: Node)
        ensures
            r matches Node::Integer(v) && v.0.value == value && v.0.errors == errors && v.0.range == range,
    {
        Node::Integer(Integer(Arc::new(ValueData { value, errors, range })))
    }

    /// A float node, from the bits of its IEEE 754 double-precision form.
    pub fn float_bits(bits: u64, errors: Vec<TomlError>, range: Option<TextRange>) -> (r: Node)
        ensures
            r matches Node::Float(v) && v.0.value == bits && v.0.errors == errors && v.0.range == range,
    {
        Node::Float(Float(Arc::new(ValueData { value: bits, errors, range })))
    }

    /// A date node, from its text.
    pub fn date(text: String, errors: Vec<TomlError>, range: Option<TextRange>) -> (r: Node)
        ensures
            r matches Node::Date(v) && v.0.value == text && v.0.errors == errors && v.0.range == range,
    {
        Node::Date(DateTime(Arc::new(ValueData { value: text, errors, range })))
    }

    /// An invalid node.
    pub fn invalid(errors: Vec<TomlError>, range: Option<TextRange>) -> (r: Node)
        ensures
            r matches Node::Invalid(v) && v.0.errors == errors && v.0.range == range,
    {
        Node::Invalid(Invalid(Arc::new(ValueData { value: (), errors, range })))
    }

    /// The invalid node that answers a lookup that found nothing.
    fn not_found() -> (r: Node)
        ensures
            is_not_found(r),
    {
        let mut errors: Vec<TomlError> = Vec::new();
        errors.push(TomlError::Query(QueryError::NotFound));
        assert(errors@ =~= seq![TomlError::Query(QueryError::NotFound)]);
        Node::invalid(errors, None)
    }

    /// What stands at `idx` directly under this node, if anything.
    fn index_into(&self, idx: &KeyOrIndex) -> (r: Option<Node>)
        ensures
            r == lookup(*self, *idx),
    {
        match idx {
            KeyOrIndex::Key(k) => match self {
                Node::Table(t) => {
                    let es = &t.0.entries;
                    let mut i: usize = 0;
                    assert(es@.skip(0) =~= es@);
                    while i < es.len()
                        invariant
                            0 <= i <= es@.len(),
                            find_entry(es@.skip(i as int), k.0.value@) == find_entry(es@, k.0.value@),
                            lookup(*self, *idx) == find_entry(es@, k.0.value@),
                        decreases es@.len() - i,
                    {
                        assert(es@.skip(i as int)[0] == es@[i as int]);
                        assert(es@.skip(i as int).drop_first() =~= es@.skip(i + 1));
                        if str_equal(es[i].0.value(), k.value()) {
                            assert(find_entry(es@.skip(i as int), k.0.value@) == Some(es@[i as int].1));
                            let found = es[i].1.clone();
                            assert(found == es@[i as int].1);
                            return Some(found);
                        }
                        i = i + 1;
                    }
                    None
                },
                _ => None,
            },
            KeyOrIndex::Index(i) => match self {
                Node::Array(a) => {
                    if *i < a.0.items.len() {
                        Some(a.0.items[*i].clone())
                    } else {
                        None
                    }
                },
                _ => None,
            },
        }
    }

    /// What stands at `idx` directly under this node; where nothing does, an invalid node
    /// whose one error says so.
    pub fn get(&self, idx: &KeyOrIndex) -> (r: Node)
        ensures
            match lookup(*self, *idx) {
                Some(m) => r == m,
                None => is_not_found(r),
            },
    {
        match self.index_into(idx) {
            Some(n) => n,
            None => Node::not_found(),
        }
    }

    /// What stands at `idx` directly under this node, or the error that nothing does.
    pub fn try_get(&self, idx: &KeyOrIndex) -> (r: Result<Node, TomlError>)
        ensures
            match lookup(*self, *idx) {
                Some(m) => r == Ok::<Node, TomlError>(m),
                None => r == Err::<Node, TomlError>(TomlError::Query(QueryError::NotFound)),
            },
    {
        match self.index_into(idx) {
            Some(n) => Ok(n),
            None => Err(TomlError::Query(QueryError::NotFound)),
        }
    }

    /// The node found by following `keys` down from this node, unless a step finds nothing
    /// or the node found is invalid.
    pub fn path(&self, keys: &Keys) -> (r: Option<Node>)
        ensures
            r == follow(*self, keys@),
    {
        let mut node = self.clone();
        let mut i: usize = 0;
        assert(keys@.skip(0) =~= keys@);
        while i < keys.len()
            invariant
                0 <= i <= keys@.len(),
                follow(node, keys@.skip(i as int)) == follow(*self, keys@),
            decreases keys@.len() - i,
        {
            let ghost rest = keys@.skip(i as int);
            assert(rest[0] == keys@[i as int]);
            assert(rest.drop_first() =~= keys@.skip(i + 1));
            let next = node.get(keys.step(i));
            proof {
                if lookup(node, keys@[i as int]) is None {
                    lemma_follow_not_found(next, keys@.skip(i + 1));
                }
            }
            node = next;
            i = i + 1;
        }
        assert(keys@.skip(keys@.len() as int) =~= Seq::<KeyOrIndex>::empty());
        if node.is_invalid() {
            None
        } else {
            Some(node)
        }
    }

    /// Returns `true` if the node is a table.
    pub fn is_table(&self) -> (r: bool)
        ensures
            r == (*self is Table),
    {
        matches!(self, Node::Table(..))
    }

    /// Returns `true` if the node is an array.
    pub fn is_array(&self) -> (r: bool)
        ensures
            r == (*self is Array),
    {
        matches!(self, Node::Array(..))
    }

    /// Returns `true` if the node is a boolean.
    pub fn is_bool(&self) -> (r: bool)
        ensures
            r == (*self is Bool),
    {
        matches!(self, Node::Bool(..))
    }

    /// Returns `true` if the node is a string.
    pub fn is_str(&self) -> (r: bool)
        ensures
            r == (*self is Str),
    {
        matches!(self, Node::Str(..))
    }

    /// Returns `true` if the node is an integer.
    pub fn is_integer(&self) -> (r: bool)
        ensures
            r == (*self is Integer),
    {
        matches!(self, Node::Integer(..))
    }

    /// Returns `true` if the node is a float.
    pub fn is_float(&self) -> (r: bool)
        ensures
            r == (*self is Float),
    {
        matches!(self, Node::Float(..))
    }

    /// Returns `true` if the node is a date.
    pub fn is_date(&self) -> (r: bool)
        ensures
            r == (*self is Date),
    {
        matches!(self, Node::Date(..))
    }

    /// Returns `true` if the node is invalid.
    pub fn is_invalid(&self) -> (r: bool)
        ensures
            r == (*self is Invalid),
    {
        matches!(self, Node::Invalid(..))
    }

    /// The table, if the node is one.
    pub fn as_table(&self) -> (r: Option<&Table>)
        ensures
            r is Some <==> *self is Table,
            r matches Some(v) ==> *self == Node::Table(*v),
    {
        if let Node::Table(v) = self { Some(v) } else { None }
    }

    /// The array, if the node is one.
    pub fn as_array(&self) -> (r: Option<&Array>)
        ensures
            r is Some <==> *self is Array,
            r matches Some(v) ==> *self == Node::Array(*v),
    {
        if let Node::Array(v) = self { Some(v) } else { None }
    }

    /// The boolean, if the node is one.
    pub fn as_bool(&self) -> (r: Option<&Bool>)
        ensures
            r is Some <==> *self is Bool,
            r matches Some(v) ==> *self == Node::Bool(*v),
    {
        if let Node::Bool(v) = self { Some(v) } else { None }
    }

    /// The string, if the node is one.
    pub fn as_str(&self) -> (r: Option<&Str>)
        ensures
            r is Some <==> *self is Str,
            r matches Some(v) ==> *self == Node::Str(*v),
    {
        if let Node::Str(v) = self { Some(v) } else { None }
    }

    /// The integer, if the node is one.
    pub fn as_integer(&self) -> (r: Option<&Integer>)
        ensures
            r is Some <==> *self is Integer,
            r matches Some(v) ==> *self == Node::Integer(*v),
    {
        if let Node::Integer(v) = self { Some(v) } else { None }
    }

    /// The float, if the node is one.
    pub fn as_float(&self) -> (r: Option<&Float>)
        ensures
            r is Some <==> *self is Float,
            r matches Some(v) ==> *self == Node::Float(*v),
    {
        if let Node::Float(v) = self { Some(v) } else { None }
    }

    /// The date, if the node is one.
    pub fn as_date(&self) -> (r: Option<&DateTime>)
        ensures
            r is Some <==> *self is Date,
            r matches Some(v) ==> *self == Node::Date(*v),
    {
        if let Node::Date(v) = self { Some(v) } else { None }
    }

    /// The invalid node, if the node is one.
    pub fn as_invalid(&self) -> (r: Option<&Invalid>)
        ensures
            r is Some <==> *self is Invalid,
            r matches Some(v) ==> *self == Node::Invalid(*v),
    {
        if let Node::Invalid(v) = self { Some(v) } else { None }
    }

    /// The table, if the node is one; else the node itself.
    pub fn try_into_table(self) -> (r: Result<Table, Node>)
        ensures
            r is Ok <==> self is Table,
            r matches Ok(v) ==> self == Node::Table(v),
            r matches Err(n) ==> n == self,
    {
        if let Node::Table(v) = self { Ok(v) } else { Err(self) }
    }

    /// The array, if the node is one; else the node itself.
    pub fn try_into_array(self) -> (r: Result<Array, Node>)
        ensures
            r is Ok <==> self is Array,
            r matches Ok(v) ==> self == Node::Array(v),
            r matches Err(n) ==> n == self,
    {
        if let Node::Array(v) = self { Ok(v) } else { Err(self) }
    }

    /// The boolean, if the node is one; else the node itself.
    pub fn try_into_bool(self) -> (r: Result<Bool, Node>)
        ensures
            r is Ok <==> self is Bool,
            r matches Ok(v) ==> self == Node::Bool(v),
            r matches Err(n) ==> n == self,
    {
        if let Node::Bool(v) = self { Ok(v) } else { Err(self) }
    }

    /// The string, if the node is one; else the node itself.
    pub fn try_into_str(self) -> (r: Result<Str, Node>)
        ensures
            r is Ok <==> self is Str,
            r matches Ok(v) ==> self == Node::Str(v),
            r matches Err(n) ==> n == self,
    {
        if let Node::Str(v) = self { Ok(v) } else { Err(self) }
    }

    /// The integer, if the node is one; else the node itself.
    pub fn try_into_integer(self) -> (r: Result<Integer, Node>)
        ensures
            r is Ok <==> self is Integer,
            r matches Ok(v) ==> self == Node::Integer(v),
            r matches Err(n) ==> n == self,
    {
        if let Node::Integer(v) = self { Ok(v) } else { Err(self) }
    }

    /// The float, if the node is one; else the node itself.
    pub fn try_into_float(self) -> (r: Result<Float, Node>)
        ensures
            r is Ok <==> self is Float,
            r matches Ok(v) ==> self == Node::Float(v),
            r matches Err(n) ==> n == self,
    {
        if let Node::Float(v) = self { Ok(v) } else { Err(self) }
    }

    /// The date, if the node is one; else the node itself.
    pub fn try_into_date(self) -> (r: Result<DateTime, Node>)
        ensures
            r is Ok <==> self is Date,
            r matches Ok(v) ==> self == Node::Date(v),
            r matches Err(n) ==> n == self,
    {
        if let Node::Date(v) = self { Ok(v) } else { Err(self) }
    }

    /// The invalid node, if the node is one; else the node itself.
    pub fn try_into_invalid(self) -> (r: Result<Invalid, Node>)
        ensures
            r is Ok <==> self is Invalid,
            r matches Ok(v) ==> self == Node::Invalid(v),
            r matches Err(n) ==> n == self,
    {
        if let Node::Invalid(v) = self { Ok(v) } else { Err(self) }
    }
}

/// Following any path from a node that answers a failed lookup finds nothing.
proof fn lemma_follow_not_found(n: Node, ks: Seq<KeyOrIndex>)
    requires
        n is Invalid,
    ensures
        follow(n, ks) is None,
{
}

/// Following a path made of two parts is following the first part and then, from the node
/// it finds, the second.
pub proof fn law_follow_joined_path(n: Node, a: Seq<KeyOrIndex>, b: Seq<KeyOrIndex>)
    ensures
        follow(n, a + b) == match follow(n, a) {
            Some(m) => follow(m, b),
            None => None,
        },
    decreases a.len(),
{
    if a.len() == 0 {
        assert(a + b =~= b);
        if n is Invalid && b.len() > 0 {
            assert(lookup(n, b[0]) is None);
        }
    } else {
        assert((a + b)[0] == a[0]);
        assert((a + b).drop_first() =~= a.drop_first() + b);
        match lookup(n, a[0]) {
            Some(m) => {
                law_follow_joined_path(m, a.drop_first(), b);
            },
            None => {},
        }
    }
}

/// The node that the path `p` leads to from `n`, step by step, whatever it is.
pub open spec fn reach(n: Node, p: Seq<KeyOrIndex>) -> Option<Node>
    decreases p.len(),
{
    if p.len() == 0 {
        Some(n)
    } else {
        match lookup(n, p[0]) {
            Some(m) => reach(m, p.drop_first()),
            None => None,
        }
    }
}

/// No two entries have keys with the same text.
pub open spec fn keys_distinct(es: Seq<(Key, Node)>) -> bool {
    forall|i: int, j: int| #![trigger es[i], es[j]] 0 <= i < j < es.len() ==> es[i].0.0.value@ != es[j].0.0.value@
}

/// No table in the tree under and including `n` holds two entries with the same key.
pub open spec fn well_keyed(n: Node) -> bool
    decreases n,
{
    match n {
        Node::Table(t) => keys_distinct(t.0.entries@) && entries_well_keyed(t.0.entries@),
        Node::Array(a) => items_well_keyed(a.0.items@),
        _ => true,
    }
}

/// Each entry's value is well keyed.
pub open spec fn entries_well_keyed(es: Seq<(Key, Node)>) -> bool
    decreases es,
{
    es.len() == 0 || (well_keyed(es[0].1) && entries_well_keyed(es.drop_first()))
}

/// Each item is well keyed.
pub open spec fn items_well_keyed(items: Seq<Node>) -> bool
    decreases items,
{
    items.len() == 0 || (well_keyed(items[0]) && items_well_keyed(items.drop_first()))
}

/// In entries with distinct keys, the entry found for a key is the one with that key.
proof fn lemma_find_entry_at(es: Seq<(Key, Node)>, j: int)
    requires
        keys_distinct(es),
        0 <= j < es.len(),
    ensures
        find_entry(es, es[j].0.0.value@) == Some(es[j].1),
    decreases j,
{
    if j > 0 {
        assert(es[0].0.0.value@ != es[j].0.0.value@);
        let rest = es.drop_first();
        assert(rest[j - 1] == es[j]);
        assert forall|a: int, b: int| #![trigger rest[a], rest[b]] 0 <= a < b < rest.len() implies rest[a].0.0.value@ != rest[b].0.0.value@ by {
            assert(rest[a] == es[a + 1] && rest[b] == es[b + 1]);
        }
        lemma_find_entry_at(rest, j - 1);
    }
}

/// A step that leads from `n` to `m`, followed by a path from `m`, leads from `n` where the
/// path leads from `m`.
proof fn lemma_reach_step(n: Node, step: KeyOrIndex, m: Node, p: Seq<KeyOrIndex>)
    requires
        lookup(n, step) == Some(m),
    ensures
        reach(n, seq![step] + p) == reach(m, p),
{
    assert((seq![step] + p)[0] == step);
    assert((seq![step] + p).drop_first() =~= p);
}

/// Every item of `flat(prefix, n)` has a path that starts with `prefix` and, after it,
/// leads from `n` to the item's node.
proof fn lemma_flat_reach(prefix: Seq<KeyOrIndex>, n: Node, i: int)
    requires
        well_keyed(n),
        0 <= i < flat(prefix, n).len(),
    ensures
        prefix.len() <= flat(prefix, n)[i].0.len(),
        flat(prefix, n)[i].0.take(prefix.len() as int) == prefix,
        reach(n, flat(prefix, n)[i].0.skip(prefix.len() as int)) == Some(flat(prefix, n)[i].1),
    decreases n, 1nat,
{
    lemma_flat_unfold(prefix, n);
    if i == 0 {
        assert(prefix.take(prefix.len() as int) =~= prefix);
        assert(prefix.skip(prefix.len() as int) =~= Seq::<KeyOrIndex>::empty());
    } else {
        match n {
            Node::Table(t) => {
                {
                    broadcast use vstd::std_specs::vec::axiom_vec_decreases_to_view;
                    assert(n->Table_0 == t);
                    assert(decreases_to!(n => t));
                    assert(decreases_to!(t => t.0));
                    assert(decreases_to!(t.0 => t.0.entries));
                    assert(decreases_to!(t.0.entries => t.0.entries@));
                }
                assert(t.0.entries@.skip(0) =~= t.0.entries@);
                lemma_entries_reach(prefix, n, t.0.entries@, t.0.entries@, 0, i - 1);
            },
            Node::Array(a) => {
                {
                    broadcast use vstd::std_specs::vec::axiom_vec_decreases_to_view;
                    broadcast use vstd::std_specs::vec::axiom_spec_len;
                    assert(n->Array_0 == a);
                    assert(decreases_to!(n => a));
                    assert(decreases_to!(a => a.0));
                    assert(decreases_to!(a.0 => a.0.items));
                    assert(decreases_to!(a.0.items => a.0.items@));
                    assert(a.0.items.len() == a.0.items@.len());
                }
                assert(a.0.items@.skip(0) =~= a.0.items@);
                lemma_items_reach(prefix, n, a.0.items@, a.0.items@, 0, i - 1);
            },
            _ => {},
        }
    }
}

/// `lemma_flat_reach` for the entries of the table `n` from position `start` on.
proof fn lemma_entries_reach(prefix: Seq<KeyOrIndex>, n: Node, whole: Seq<(Key, Node)>, es: Seq<(Key, Node)>, start: int, i: int)
    requires
        n matches Node::Table(t) && t.0.entries@ == whole,
        well_keyed(n),
        0 <= start <= whole.len(),
        es == whole.skip(start),
        0 <= i < flat_entries(prefix, es).len(),
    ensures
        prefix.len() <= flat_entries(prefix, es)[i].0.len(),
        flat_entries(prefix, es)[i].0.take(prefix.len() as int) == prefix,
        reach(n, flat_entries(prefix, es)[i].0.skip(prefix.len() as int)) == Some(flat_entries(prefix, es)[i].1),
    decreases es, 0nat,
{
    let e = es[0];
    let step = KeyOrIndex::Key(e.0);
    let pre = prefix.push(step);
    let head = flat(pre, e.1);
    assert(flat_entries(prefix, es) == head + flat_entries(prefix, es.drop_first()));
    assert(e == whole[start]);
    if i < head.len() {
        assert(entries_well_keyed(whole.skip(start)) && well_keyed(e.1)) by {
            lemma_entries_well_keyed_at(whole, start);
        }
        lemma_flat_reach(pre, e.1, i);
        let item = head[i];
        assert(flat_entries(prefix, es)[i] == item);
        let p = item.0.skip(pre.len() as int);
        assert(item.0.take(prefix.len() as int) =~= pre.take(prefix.len() as int));
        assert(pre.take(prefix.len() as int) =~= prefix);
        assert(item.0.skip(prefix.len() as int) =~= seq![step] + p) by {
            assert(item.0.take(pre.len() as int) == pre);
            assert(item.0[prefix.len() as int] == pre[prefix.len() as int]);
        }
        lemma_find_entry_at(whole, start);
        assert(lookup(n, step) == Some(e.1));
        lemma_reach_step(n, step, e.1, p);
    } else {
        assert(es.drop_first() =~= whole.skip(start + 1));
        assert(flat_entries(prefix, es)[i] == flat_entries(prefix, es.drop_first())[i - head.len()]);
        lemma_entries_reach(prefix, n, whole, es.drop_first(), start + 1, i - head.len());
    }
}

/// `lemma_flat_reach` for the items of the array `n` from position `start` on.
proof fn lemma_items_reach(prefix: Seq<KeyOrIndex>, n: Node, whole: Seq<Node>, items: Seq<Node>, start: int, i: int)
    requires
        n matches Node::Array(a) && a.0.items@ == whole,
        whole.len() <= usize::MAX,
        well_keyed(n),
        0 <= start <= whole.len(),
        items == whole.skip(start),
        0 <= i < flat_items(prefix, items, start as nat).len(),
    ensures
        prefix.len() <= flat_items(prefix, items, start as nat)[i].0.len(),
        flat_items(prefix, items, start as nat)[i].0.take(prefix.len() as int) == prefix,
        reach(n, flat_items(prefix, items, start as nat)[i].0.skip(prefix.len() as int)) == Some(flat_items(prefix, items, start as nat)[i].1),
    decreases items, 0nat,
{
    let x = items[0];
    let step = KeyOrIndex::Index(start as usize);
    let pre = prefix.push(step);
    let head = flat(pre, x);
    assert(flat_items(prefix, items, start as nat) == head + flat_items(prefix, items.drop_first(), (start + 1) as nat));
    assert(x == whole[start]);
    if i < head.len() {
        assert(items_well_keyed(whole.skip(start)) && well_keyed(x)) by {
            lemma_items_well_keyed_at(whole, start);
        }
        lemma_flat_reach(pre, x, i);
        let item = head[i];
        assert(flat_items(prefix, items, start as nat)[i] == item);
        let p = item.0.skip(pre.len() as int);
        assert(item.0.take(prefix.len() as int) =~= pre.take(prefix.len() as int));
        assert(pre.take(prefix.len() as int) =~= prefix);
        assert(item.0.skip(prefix.len() as int) =~= seq![step] + p) by {
            assert(item.0.take(pre.len() as int) == pre);
            assert(item.0[prefix.len() as int] == pre[prefix.len() as int]);
        }
        assert(lookup(n, step) == Some(x));
        lemma_reach_step(n, step, x, p);
    } else {
        assert(items.drop_first() =~= whole.skip(start + 1));
        assert(flat_items(prefix, items, start as nat)[i] == flat_items(prefix, items.drop_first(), (start + 1) as nat)[i - head.len()]);
        lemma_items_reach(prefix, n, whole, items.drop_first(), start + 1, i - head.len());
    }
}

/// The entries of a well-keyed table from `start` on are well keyed, the first included.
proof fn lemma_entries_well_keyed_at(whole: Seq<(Key, Node)>, start: int)
    requires
        entries_well_keyed(whole),
        0 <= start < whole.len(),
    ensures
        entries_well_keyed(whole.skip(start)),
        well_keyed(whole[start].1),
    decreases start,
{
    if start > 0 {
        assert(whole.drop_first().skip(start - 1) =~= whole.skip(start));
        assert(whole.drop_first()[start - 1] == whole[start]);
        lemma_entries_well_keyed_at(whole.drop_first(), start - 1);
    } else {
        assert(whole.skip(0) =~= whole);
    }
}

/// The items of a well-keyed array from `start` on are well keyed, the first included.
proof fn lemma_items_well_keyed_at(whole: Seq<Node>, start: int)
    requires
        items_well_keyed(whole),
        0 <= start < whole.len(),
    ensures
        items_well_keyed(whole.skip(start)),
        well_keyed(whole[start]),
    decreases start,
{
    if start > 0 {
        assert(whole.drop_first().skip(start - 1) =~= whole.skip(start));
        assert(whole.drop_first()[start - 1] == whole[start]);
        lemma_items_well_keyed_at(whole.drop_first(), start - 1);
    } else {
        assert(whole.skip(0) =~= whole);
    }
}

/// Where no table holds two entries with the same key, every path the traversal hands out
/// leads back to its node: following it finds the node, unless the node is invalid (which
/// `path` never answers with).
pub proof fn law_traversal_paths_lead_back(n: Node, i: int)
    requires
        well_keyed(n),
        0 <= i < flat(Seq::empty(), n).len(),
    ensures
        reach(n, flat(Seq::empty(), n)[i].0) == Some(flat(Seq::empty(), n)[i].1),
        !(flat(Seq::empty(), n)[i].1 is Invalid) ==> follow(n, flat(Seq::empty(), n)[i].0) == Some(flat(Seq::empty(), n)[i].1),
{
    lemma_flat_reach(Seq::empty(), n, i);
    let k = flat(Seq::empty(), n)[i].0;
    assert(k.skip(0) =~= k);
    lemma_follow_is_reach(n, k);
}

/// Following a path is reaching its end and refusing an invalid node there.
proof fn lemma_follow_is_reach(n: Node, p: Seq<KeyOrIndex>)
    ensures
        follow(n, p) == match reach(n, p) {
            Some(m) => if m is Invalid { None } else { Some(m) },
            None => None,
        },
    decreases p.len(),
{
    if p.len() > 0 {
        match lookup(n, p[0]) {
            Some(m) => lemma_follow_is_reach(m, p.drop_first()),
            None => {},
        }
    }
}

} // verus!

verus! {

/// In the errors of a list of entries, the errors recorded on the key of entry `i` stand
/// together, directly followed by everything reported for its value; the result is where
/// they start.
proof fn lemma_entry_errors_segment(es: Seq<(Key, Node)>, i: int) -> (off: int)
    requires
        0 <= i < es.len(),
    ensures
        0 <= off,
        off + es[i].0.0.errors@.len() + all_errors(es[i].1).len() <= entry_errors(es).len(),
        entry_errors(es).subrange(off, off + es[i].0.0.errors@.len() + all_errors(es[i].1).len())
            == es[i].0.0.errors@ + all_errors(es[i].1),
    decreases es.len(),
{
    let head = es[0].0.0.errors@ + all_errors(es[0].1);
    let rest = es.drop_first();
    assert(entry_errors(es) == head + entry_errors(rest));
    if i == 0 {
        assert(entry_errors(es).subrange(0, head.len() as int) =~= head);
        0
    } else {
        let o = lemma_entry_errors_segment(rest, i - 1);
        assert(rest[i - 1] == es[i]);
        let seg = es[i].0.0.errors@ + all_errors(es[i].1);
        assert(entry_errors(es).subrange(head.len() + o, head.len() + o + seg.len())
            =~= entry_errors(rest).subrange(o, o + seg.len()));
        head.len() + o
    }
}

/// What `validate` reports for a table holds, for each entry, the errors recorded on the
/// entry's key directly followed by everything reported for the entry's value; so a table
/// with an error on some key is never valid.
pub proof fn law_key_errors_precede_value_errors(n: Node, i: int)
    requires
        n matches Node::Table(t) && 0 <= i < t.0.entries@.len(),
    ensures
        ({
            let e = n->Table_0.0.entries@[i];
            let seg = e.0.0.errors@ + all_errors(e.1);
            &&& exists|off: int| 0 <= off && off + seg.len() <= all_errors(n).len()
                && #[trigger] all_errors(n).subrange(off, off + seg.len()) == seg
            &&& e.0.0.errors@.len() > 0 ==> all_errors(n).len() > 0
        }),
{
    let t = n->Table_0;
    let es = t.0.entries@;
    let e = es[i];
    let seg = e.0.0.errors@ + all_errors(e.1);
    let o = lemma_entry_errors_segment(es, i);
    let pre = node_errors(n);
    assert(all_errors(n) == pre + entry_errors(es));
    let off = pre.len() + o;
    assert(all_errors(n).subrange(off, off + seg.len()) =~= entry_errors(es).subrange(o, o + seg.len()));
    assert(all_errors(n).subrange(off, off + seg.len()) == seg);
}

/// `a` lies within `b`.
pub open spec fn within(a: TextRange, b: TextRange) -> bool {
    b.start <= a.start && a.end <= b.end
}

/// Covering `r` and the ranges `rs` gives a range in which `r` and each of them lie, and
/// whose ends are ends of `r` or of one of them.
proof fn lemma_cover_all_covers(r: TextRange, rs: Seq<TextRange>)
    ensures
        within(r, cover_all(r, rs)),
        forall|k: int| 0 <= k < rs.len() ==> within(#[trigger] rs[k], cover_all(r, rs)),
        cover_all(r, rs).start == r.start || exists|k: int| 0 <= k < rs.len() && cover_all(r, rs).start == #[trigger] rs[k].start,
        cover_all(r, rs).end == r.end || exists|k: int| 0 <= k < rs.len() && cover_all(r, rs).end == #[trigger] rs[k].end,
    decreases rs.len(),
{
    if rs.len() > 0 {
        let c = spec_cover(r, rs[0]);
        let rest = rs.drop_first();
        lemma_cover_all_covers(c, rest);
        let out = cover_all(c, rest);
        assert forall|k: int| 0 <= k < rs.len() implies within(#[trigger] rs[k], out) by {
            if k > 0 {
                assert(rest[k - 1] == rs[k]);
            }
        }
        if out.start != r.start {
            if out.start == c.start {
                assert(out.start == rs[0].start);
            } else {
                let k = choose|k: int| 0 <= k < rest.len() && out.start == #[trigger] rest[k].start;
                assert(rest[k] == rs[k + 1]);
                assert(out.start == rs[k + 1].start);
            }
        }
        if out.end != r.end {
            if out.end == c.end {
                assert(out.end == rs[0].end);
            } else {
                let k = choose|k: int| 0 <= k < rest.len() && out.end == #[trigger] rest[k].end;
                assert(rest[k] == rs[k + 1]);
                assert(out.end == rs[k + 1].end);
            }
        }
    }
}

/// For a table or array with a place in the source, the first range that `text_ranges`
/// gives with children is the smallest range in which the node's own range and every other
/// range given lie: each of its ends is an end of one of those ranges.
pub proof fn law_first_range_covers_the_rest(n: Node)
    requires
        n is Table || n is Array,
        node_range(n) is Some,
    ensures
        ({
            let rs = spec_ranges(n, true);
            let own = node_range(n)->0;
            &&& rs.len() >= 1
            &&& within(own, rs[0])
            &&& forall|k: int| 1 <= k < rs.len() ==> within(#[trigger] rs[k], rs[0])
            &&& (rs[0].start == own.start || exists|k: int| 1 <= k < rs.len() && rs[0].start == #[trigger] rs[k].start)
            &&& (rs[0].end == own.end || exists|k: int| 1 <= k < rs.len() && rs[0].end == #[trigger] rs[k].end)
        }),
{
    let own = node_range(n)->0;
    let kids = match n {
        Node::Table(t) => entry_ranges(t.0.entries@),
        Node::Array(a) => item_ranges(a.0.items@),
        _ => Seq::empty(),
    };
    let rs = spec_ranges(n, true);
    assert(rs == seq![cover_all(own, kids)] + kids);
    lemma_cover_all_covers(own, kids);
    assert forall|k: int| 1 <= k < rs.len() implies within(#[trigger] rs[k], rs[0]) by {
        assert(rs[k] == kids[k - 1]);
    }
    if rs[0].start != own.start {
        let k = choose|k: int| 0 <= k < kids.len() && cover_all(own, kids).start == #[trigger] kids[k].start;
        assert(rs[k + 1] == kids[k]);
    }
    if rs[0].end != own.end {
        let k = choose|k: int| 0 <= k < kids.len() && cover_all(own, kids).end == #[trigger] kids[k].end;
        assert(rs[k + 1] == kids[k]);
    }
}

} // verus!
