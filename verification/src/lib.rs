//! Encoding and decoding of `RESULT` measurement lines.
//!
//! A result line is one line of text of the form `RESULT key=value key2=value2 ...`,
//! a compact format for emitting key/value measurement records.  [`from_string`]
//! parses such a line into an ordered sequence of `(key, value)` pairs with typed
//! values, and the encoder around [`ResultLineStructurizer`] walks a structured
//! value, collects its fields as named items, and renders them back into one line.
//!
//! A key or value whose rendered text contains whitespace is wrapped in double
//! quotes on output; there are no escape sequences, so text holding a literal
//! `"` cannot round-trip.

use vstd::prelude::*;

pub mod de;
pub mod props;
pub mod render;
pub mod ser;

pub use de::from_string;
pub use de::ParseError;

verus! {

/// The possible types a result item's value (or key) can have.
#[derive(Debug, PartialEq)]
pub enum ResultItem {
    /// A full named item, e.g. `a="some value"`, wrapped up as one value.
    Named(Box<NamedItem>),
    /// An integer, e.g. `123`.
    Integer(i64),
    /// A floating-point number, kept as the text of its token, e.g. `123.456`.
    Float(String),
    /// A boolean, e.g. `true`.
    Boolean(bool),
    /// A character, e.g. `a`.
    Character(char),
    /// A text string, e.g. `some value`.
    Text(String),
    /// An empty item; a named item whose value is empty is left out of an
    /// encoded line.
    Empty,
}

/// A named item, e.g. `a="some value"`: one `key=value` unit of a result line.
#[derive(Debug, PartialEq)]
pub struct NamedItem {
    /// The name of the item.
    pub name: ResultItem,
    /// The value of the item.
    pub value: ResultItem,
}

/// The mathematical model of a [`ResultItem`]: strings become sequences of
/// characters and integers become unbounded.
#[verifier::ext_equal]
pub enum ItemModel {
    Named(Box<ItemModel>, Box<ItemModel>),
    Integer(int),
    Float(Seq<char>),
    Boolean(bool),
    Character(char),
    Text(Seq<char>),
    Empty,
}

/// Whether an item is a scalar: an integer, a float, a boolean, a
/// character or text.  The key half of a named item must be one — never
/// another named item, and never the empty item.
pub open spec fn is_scalar(m: ItemModel) -> bool {
    ||| m is Integer
    ||| m is Float
    ||| m is Boolean
    ||| m is Character
    ||| m is Text
}

impl View for ResultItem {
    type V = ItemModel;

    open spec fn view(&self) -> ItemModel
        decreases self,
    {
        match self {
            ResultItem::Named(b) => ItemModel::Named(
                Box::new(b.name.view()),
                Box::new(b.value.view()),
            ),
            ResultItem::Integer(i) => ItemModel::Integer(*i as int),
            ResultItem::Float(t) => ItemModel::Float(t@),
            ResultItem::Boolean(b) => ItemModel::Boolean(*b),
            ResultItem::Character(c) => ItemModel::Character(*c),
            ResultItem::Text(t) => ItemModel::Text(t@),
            ResultItem::Empty => ItemModel::Empty,
        }
    }
}

impl NamedItem {
    /// Pairs a name with a value.
    pub fn new(name: ResultItem, value: ResultItem) -> (r: Self)
        ensures
            r.name == name,
            r.value == value,
    {
        Self { name, value }
    }
}

impl View for NamedItem {
    type V = (ItemModel, ItemModel);

    open spec fn view(&self) -> (ItemModel, ItemModel) {
        (self.name@, self.value@)
    }
}

impl ResultItem {
    /// Reports whether this item is the empty item.
    pub fn is_empty(&self) -> (r: bool)
        ensures
            r == (self@ is Empty),
    {
        matches!(self, ResultItem::Empty)
    }
}

impl Default for ResultItem {
    /// The default item is the empty item.
    fn default() -> (r: Self)
        ensures
            r@ is Empty,
    {
        ResultItem::Empty
    }
}

impl Default for NamedItem {
    /// The default named item pairs an empty name with an empty value.
    fn default() -> (r: Self)
        ensures
            r.name@ is Empty,
            r.value@ is Empty,
    {
        NamedItem { name: ResultItem::Empty, value: ResultItem::Empty }
    }
}

} // verus!
