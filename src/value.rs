//! The value model, the line model, and the lines a value is written as.
use vstd::prelude::*;

use crate::text::dec;

verus! {

/// A nested value: a scalar rendered as text, an ordered sequence, or an
/// ordered list of named entries. A tagged variant is a keyed value whose
/// first entry is `type`, holding the variant's index.
#[derive(Debug, PartialEq, Eq)]
pub enum Value {
    Scalar(String),
    Sequence(Vec<Value>),
    Keyed(Vec<(String, Value)>),
}

/// The shape a decoder is asked to read.
#[derive(Debug, PartialEq, Eq)]
pub enum Shape {
    Scalar,
    Sequence(Box<Shape>),
    Keyed(Vec<(String, Shape)>),
    /// A tagged variant: the `type` entry holds an index into this list,
    /// and the fields that follow are read with the keyed shape found there.
    Variant(Vec<Shape>),
}

/// A line of a document, as its path segments and its value text.
pub type LineModel = (Seq<Seq<char>>, Seq<char>);

/// A line of a document: the segments of its path and its value text.
#[derive(Debug, PartialEq, Eq)]
pub struct Line {
    pub path: Vec<String>,
    pub value: String,
}

pub open spec fn path_view(p: Seq<String>) -> Seq<Seq<char>> {
    p.map_values(|s: String| s@)
}

impl View for Line {
    type V = LineModel;

    open spec fn view(&self) -> LineModel {
        (path_view(self.path@), self.value@)
    }
}

pub open spec fn lines_view(ls: Seq<Line>) -> Seq<LineModel> {
    ls.map_values(|l: Line| l@)
}

/// The label of the trailing entry of an encoded sequence.
pub open spec fn length_label() -> Seq<char> {
    seq!['l', 'e', 'n', 'g', 't', 'h']
}

/// The label of the discriminant entry of a tagged variant.
pub open spec fn type_label() -> Seq<char> {
    seq!['t', 'y', 'p', 'e']
}

/// `lines` with `prefix` put in front of every path.
pub open spec fn prefixed(prefix: Seq<Seq<char>>, lines: Seq<LineModel>) -> Seq<LineModel> {
    lines.map_values(|l: LineModel| (prefix + l.0, l.1))
}

/// The lines of `v`, with paths relative to `v`'s own position.
pub open spec fn value_lines(v: Value) -> Seq<LineModel>
    decreases v,
{
    match v {
        Value::Scalar(s) => seq![(Seq::<Seq<char>>::empty(), s@)],
        Value::Sequence(items) => elements_lines(items@) + seq![
            (seq![length_label()], dec(items@.len())),
        ],
        Value::Keyed(entries) => entries_lines(entries@),
    }
}

/// The lines of the elements of a sequence, element `i` under label `i`.
pub open spec fn elements_lines(items: Seq<Value>) -> Seq<LineModel>
    decreases items,
{
    if items.len() == 0 {
        seq![]
    } else {
        elements_lines(items.subrange(0, items.len() - 1)) + prefixed(
            seq![dec((items.len() - 1) as nat)],
            value_lines(items[items.len() - 1]),
        )
    }
}

/// The lines of keyed entries, each value under its key.
pub open spec fn entries_lines(entries: Seq<(String, Value)>) -> Seq<LineModel>
    decreases entries,
{
    if entries.len() == 0 {
        seq![]
    } else {
        entries_lines(entries.subrange(0, entries.len() - 1)) + prefixed(
            seq![entries[entries.len() - 1].0@],
            value_lines(entries[entries.len() - 1].1),
        )
    }
}

/// Every keyed value inside `v` (and `v` itself) has at least one entry, so
/// that every interior node of its tree has a leaf below it; every key is a
/// segment and no scalar text holds a newline.
pub open spec fn nested_ok(v: Value) -> bool
    decreases v,
{
    match v {
        Value::Scalar(s) => scalar_ok(s@),
        Value::Sequence(items) => elements_ok(items@),
        Value::Keyed(entries) => entries@.len() > 0 && entries_ok(entries@),
    }
}

pub open spec fn elements_ok(items: Seq<Value>) -> bool
    decreases items,
{
    items.len() == 0 || (elements_ok(items.subrange(0, items.len() - 1)) && nested_ok(
        items[items.len() - 1],
    ))
}

pub open spec fn entries_ok(entries: Seq<(String, Value)>) -> bool
    decreases entries,
{
    entries.len() == 0 || (entries_ok(entries.subrange(0, entries.len() - 1)) && segment_ok(
        entries[entries.len() - 1].0@,
    ) && nested_ok(entries[entries.len() - 1].1))
}

/// A path segment: not empty, and without `.`, `=` or newline.
pub open spec fn segment_ok(s: Seq<char>) -> bool {
    s.len() > 0 && forall|i: int| 0 <= i < s.len() ==> s[i] != '.' && s[i] != '=' && s[i] != '\n'
}

/// Scalar text that fits on one line.
pub open spec fn scalar_ok(s: Seq<char>) -> bool {
    forall|i: int| 0 <= i < s.len() ==> s[i] != '\n'
}

/// A value that can stand as a whole document: not a bare scalar (its line
/// would have an empty path), no keyed value below the top is empty, every
/// key is a segment and no scalar text holds a newline.
pub open spec fn well_shaped(v: Value) -> bool {
    match v {
        Value::Scalar(_) => false,
        Value::Sequence(items) => elements_ok(items@),
        Value::Keyed(entries) => entries_ok(entries@),
    }
}

} // verus!
