//! Keys of TOML tables, indices of arrays, and paths made of both.
use std::sync::Arc;
use vstd::prelude::*;
use crate::errors::TomlError;
use crate::platform::share;
use crate::text::usize_to_string;
use crate::text::{decimal, owned};

verus! {

/// A range of text in the source document, by character offsets.
#[derive(PartialEq, Eq, Structural, Clone, Copy, Debug)]
pub struct TextRange {
    /// The offset where the range starts.
    pub start: u32,
    /// The offset where the range ends.
    pub end: u32,
}

/// The smallest range that covers both `a` and `b`.
pub open spec fn spec_cover(a: TextRange, b: TextRange) -> TextRange {
    TextRange {
        start: if a.start <= b.start { a.start } else { b.start },
        end: if a.end >= b.end { a.end } else { b.end },
    }
}

impl TextRange {
    /// The smallest range that covers both `self` and `other`.
    pub fn cover(self, other: TextRange) -> (r: TextRange)
        ensures
            r == spec_cover(self, other),
    {
        TextRange {
            start: if self.start <= other.start { self.start } else { other.start },
            end: if self.end >= other.end { self.end } else { other.end },
        }
    }

    /// The empty range at the start of the document.
    pub fn empty() -> (r: TextRange)
        ensures
            r == (TextRange { start: 0, end: 0 }),
    {
        TextRange { start: 0, end: 0 }
    }
}

/// The contents of a key.
pub struct KeyData {
    /// The key's text, unescaped.
    pub value: String,
    /// The errors found in the key.
    pub errors: Vec<TomlError>,
    /// Where the key stands in the source, if it comes from one.
    pub range: Option<TextRange>,
}

/// A key of a table. Copies share their contents.
pub struct Key(pub Arc<KeyData>);

impl Key {
    /// A key with the text `value`, no errors and no place in a source.
    pub fn new(value: &str) -> (r: Key)
        ensures
            r.0.value@ == value@,
            r.0.errors@.len() == 0,
            r.0.range is None,
    {
        Key(Arc::new(KeyData { value: owned(value), errors: Vec::new(), range: None }))
    }

    /// A key with the given text, errors and place in the source.
    pub fn with_parts(value: String, errors: Vec<TomlError>, range: Option<TextRange>) -> (r: Key)
        ensures
            r.0.value == value,
            r.0.errors == errors,
            r.0.range == range,
    {
        Key(Arc::new(KeyData { value, errors, range }))
    }

    /// The key's text, unescaped.
    pub fn value(&self) -> (r: &str)
        ensures
            r@ == self.0.value@,
    {
        self.0.value.as_str()
    }

    /// The places in the source where the key stands.
    pub fn text_ranges(&self) -> (r: Vec<TextRange>)
        ensures
            r@ == key_ranges(*self),
    {
        let mut r: Vec<TextRange> = Vec::new();
        match self.0.range {
            Some(range) => {
                r.push(range);
            },
            None => {},
        }
        assert(r@ =~= key_ranges(*self));
        r
    }
}

/// The places in the source where the key `k` stands.
pub open spec fn key_ranges(k: Key) -> Seq<TextRange> {
    match k.0.range {
        Some(r) => seq![r],
        None => Seq::empty(),
    }
}

impl Clone for Key {
    fn clone(&self) -> (r: Self)
        ensures
            r == *self,
    {
        Key(share(&self.0))
    }
}

/// A step of a path: a key of a table or an index of an array.
pub enum KeyOrIndex {
    /// A key of a table.
    Key(Key),
    /// An index of an array.
    Index(usize),
}

impl Clone for KeyOrIndex {
    fn clone(&self) -> (r: Self)
        ensures
            r == *self,
    {
        match self {
            KeyOrIndex::Key(k) => KeyOrIndex::Key(k.clone()),
            KeyOrIndex::Index(i) => KeyOrIndex::Index(*i),
        }
    }
}

/// A path from a node down to one of its descendants. Copies share their contents.
pub struct Keys {
    all: Arc<Vec<KeyOrIndex>>,
}

impl View for Keys {
    type V = Seq<KeyOrIndex>;

    closed spec fn view(&self) -> Seq<KeyOrIndex> {
        self.all@
    }
}

/// The dotted form of a path: keys joined by `.`, indices written as `[n]`.
pub open spec fn dotted_of(ks: Seq<KeyOrIndex>) -> Seq<char>
    decreases ks.len(),
{
    if ks.len() == 0 {
        Seq::empty()
    } else {
        let d = dotted_of(ks.drop_last());
        match ks.last() {
            KeyOrIndex::Key(k) => if d.len() == 0 {
                k.0.value@
            } else {
                d.push('.') + k.0.value@
            },
            KeyOrIndex::Index(i) => d.push('[') + decimal(i as nat).push(']'),
        }
    }
}

impl Keys {
    /// The empty path.
    pub fn empty() -> (r: Keys)
        ensures
            r@ == Seq::<KeyOrIndex>::empty(),
    {
        Keys { all: Arc::new(Vec::new()) }
    }

    /// The path made of the given steps.
    pub fn new(steps: Vec<KeyOrIndex>) -> (r: Keys)
        ensures
            r@ == steps@,
    {
        Keys { all: Arc::new(steps) }
    }

    /// This path followed by one more step.
    pub fn join(&self, step: KeyOrIndex) -> (r: Keys)
        ensures
            r@ == self@.push(step),
    {
        let mut v: Vec<KeyOrIndex> = Vec::new();
        let mut i: usize = 0;
        while i < self.all.len()
            invariant
                0 <= i <= self.all@.len(),
                v@ == self.all@.take(i as int),
            decreases self.all@.len() - i,
        {
            v.push(self.all[i].clone());
            proof {
                assert(self.all@.take(i + 1) =~= self.all@.take(i as int).push(self.all@[i as int]));
            }
            i = i + 1;
        }
        assert(self.all@.take(self.all@.len() as int) =~= self.all@);
        v.push(step);
        Keys { all: Arc::new(v) }
    }

    /// The number of steps.
    pub fn len(&self) -> (r: usize)
        ensures
            r == self@.len(),
    {
        self.all.len()
    }

    /// The step at position `i`.
    pub fn step(&self, i: usize) -> (r: &KeyOrIndex)
        requires
            i < self@.len(),
        ensures
            *r == self@[i as int],
    {
        &self.all[i]
    }

    /// The dotted form of the path.
    pub fn dotted(&self) -> (r: String)
        ensures
            r@ == dotted_of(self@),
    {
        let mut d = String::new();
        let mut i: usize = 0;
        while i < self.all.len()
            invariant
                0 <= i <= self.all@.len(),
                d@ == dotted_of(self.all@.take(i as int)),
            decreases self.all@.len() - i,
        {
            proof {
                assert(self.all@.take(i + 1).drop_last() =~= self.all@.take(i as int));
            }
            match &self.all[i] {
                KeyOrIndex::Key(k) => {
                    if d.as_str().is_empty() {
                        d = owned(k.value());
                    } else {
                        d.append(".");
                        d.append(k.value());
                    }
                },
                KeyOrIndex::Index(idx) => {
                    d.append("[");
                    d.append(usize_to_string(*idx).as_str());
                    d.append("]");
                },
            }
            proof {
                reveal_strlit(".");
                reveal_strlit("[");
                reveal_strlit("]");
                assert(d@ =~= dotted_of(self.all@.take(i + 1)));
            }
            i = i + 1;
        }
        assert(self.all@.take(self.all@.len() as int) =~= self.all@);
        d
    }
}

impl Clone for Keys {
    fn clone(&self) -> (r: Self)
        ensures
            r@ == self@,
    {
        Keys { all: share(&self.all) }
    }
}

} // verus!
