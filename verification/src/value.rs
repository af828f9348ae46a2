//! Values of attributes, keywords, and index positions.

use vstd::prelude::*;

use crate::byte_string::{copy_bytes, same_bytes};
use crate::clock::{self, instant_text};
use crate::text::{
    self, bits_text, bytes_text, decimal_text, followed_by, quote, uuid_text, whole_text,
};

verus! {

/// A keyword such as `db/ident`, held without its colon.
#[derive(Debug, PartialEq, Eq, Hash)]
pub struct Keyword {
    pub name: String,
}

impl View for Keyword {
    type V = Seq<char>;

    open spec fn view(&self) -> Seq<char> {
        self.name@
    }
}

impl DeepView for Keyword {
    type V = Seq<char>;

    open spec fn deep_view(&self) -> Seq<char> {
        self.name@
    }
}

impl Clone for Keyword {
    fn clone(&self) -> (r: Self)
        ensures
            r@ == self@,
    {
        Keyword { name: self.name.clone() }
    }
}

impl Keyword {
    /// The keyword of that name.
    pub fn new(name: &str) -> (r: Self)
        ensures
            r@ == name@,
    {
        Keyword { name: name.to_owned() }
    }

    /// Whether two keywords are the same one.
    pub fn same(&self, other: &Keyword) -> (r: bool)
        ensures
            r == (self@ == other@),
    {
        self.name == other.name
    }

    /// Whether this is the keyword of that name.
    pub fn is(&self, name: &str) -> (r: bool)
        ensures
            r == (self@ == name@),
    {
        self.name == name.to_owned()
    }

    /// The keyword as it is written, with its colon.
    pub fn text(&self) -> (r: String)
        ensures
            r@ == ":"@ + self@,
    {
        followed_by(":".to_owned(), self.name.as_str())
    }
}

/// The value of an attribute.
///
/// Floating-point numbers are held as their bit patterns and instants as microseconds since
/// the epoch. A vector or a map holds its members' encodings, one after another.
#[derive(Debug, PartialEq, Eq, Hash)]
pub enum DataType {
    BigInt(i128),
    Boolean(bool),
    Bytes(Vec<u8>),
    Double(u64),
    Float(u32),
    Instant(i64),
    Keyword(Keyword),
    Long(i64),
    String(String),
    Uuid(u128),
    Vector(Vec<u8>),
    Document(Vec<u8>),
}

/// What a value is.
pub enum Value {
    BigInt(i128),
    Boolean(bool),
    Bytes(Seq<u8>),
    Double(u64),
    Float(u32),
    Instant(i64),
    Keyword(Seq<char>),
    Long(i64),
    String(Seq<char>),
    Uuid(u128),
    Vector(Seq<u8>),
    Document(Seq<u8>),
}

impl View for DataType {
    type V = Value;

    open spec fn view(&self) -> Value {
        match self {
            DataType::BigInt(x) => Value::BigInt(*x),
            DataType::Boolean(x) => Value::Boolean(*x),
            DataType::Bytes(x) => Value::Bytes(x@),
            DataType::Double(x) => Value::Double(*x),
            DataType::Float(x) => Value::Float(*x),
            DataType::Instant(x) => Value::Instant(*x),
            DataType::Keyword(x) => Value::Keyword(x@),
            DataType::Long(x) => Value::Long(*x),
            DataType::String(x) => Value::String(x@),
            DataType::Uuid(x) => Value::Uuid(*x),
            DataType::Vector(x) => Value::Vector(x@),
            DataType::Document(x) => Value::Document(x@),
        }
    }
}

impl DeepView for DataType {
    type V = Value;

    open spec fn deep_view(&self) -> Value {
        self@
    }
}

impl Clone for DataType {
    fn clone(&self) -> (r: Self)
        ensures
            r@ == self@,
    {
        match self {
            DataType::BigInt(x) => DataType::BigInt(*x),
            DataType::Boolean(x) => DataType::Boolean(*x),
            DataType::Bytes(x) => DataType::Bytes(copy_bytes(x)),
            DataType::Double(x) => DataType::Double(*x),
            DataType::Float(x) => DataType::Float(*x),
            DataType::Instant(x) => DataType::Instant(*x),
            DataType::Keyword(x) => DataType::Keyword(x.clone()),
            DataType::Long(x) => DataType::Long(*x),
            DataType::String(x) => DataType::String(x.clone()),
            DataType::Uuid(x) => DataType::Uuid(*x),
            DataType::Vector(x) => DataType::Vector(copy_bytes(x)),
            DataType::Document(x) => DataType::Document(copy_bytes(x)),
        }
    }
}

impl DataType {
    /// Whether two values are the same: of one kind, and equal.
    pub fn same(&self, other: &DataType) -> (r: bool)
        ensures
            r == (self@ == other@),
    {
        match (self, other) {
            (DataType::BigInt(a), DataType::BigInt(b)) => *a == *b,
            (DataType::Boolean(a), DataType::Boolean(b)) => *a == *b,
            (DataType::Bytes(a), DataType::Bytes(b)) => same_bytes(a, b),
            (DataType::Double(a), DataType::Double(b)) => *a == *b,
            (DataType::Float(a), DataType::Float(b)) => *a == *b,
            (DataType::Instant(a), DataType::Instant(b)) => *a == *b,
            (DataType::Keyword(a), DataType::Keyword(b)) => a.same(b),
            (DataType::Long(a), DataType::Long(b)) => *a == *b,
            (DataType::String(a), DataType::String(b)) => *a == *b,
            (DataType::Uuid(a), DataType::Uuid(b)) => *a == *b,
            (DataType::Vector(a), DataType::Vector(b)) => same_bytes(a, b),
            (DataType::Document(a), DataType::Document(b)) => same_bytes(a, b),
            _ => false,
        }
    }
}

/// A copy of a list of values.
pub fn copy_values(values: &[DataType]) -> (r: Vec<DataType>)
    ensures
        r.deep_view() == values.deep_view(),
{
    let mut out: Vec<DataType> = Vec::new();
    let mut i: usize = 0;
    while i < values.len()
        invariant
            i <= values@.len(),
            out.deep_view() == values.deep_view().take(i as int),
        decreases values@.len() - i,
    {
        let value = values[i].clone();
        let ghost earlier = out;
        out.push(value);
        proof {
            crate::byte_string::lemma_deep_push(earlier, out, value);
        }
        i += 1;
        assert(out.deep_view() =~= values.deep_view().take(i as int));
    }
    assert(values.deep_view().take(i as int) =~= values.deep_view());
    out
}

/// The orders in which the facts are indexed.
#[derive(Clone, Copy, Debug, PartialEq, Eq, Structural)]
pub enum IndexType {
    EAV,
    AVE,
    AEV,
    VAE,
    AE,
    AV,
}

/// A value in words, as errors name it. A floating-point number is shown by its bits, a vector or a
/// document by its bytes.
pub open spec fn shown(value: Value) -> Seq<char> {
    match value {
        Value::BigInt(x) => "BigInt("@ + text::decimal(x as int) + ")"@,
        Value::Boolean(x) => if x {
            "Boolean(true)"@
        } else {
            "Boolean(false)"@
        },
        Value::Bytes(x) => "Bytes("@ + text::listed(text::byte_numbers(x)) + ")"@,
        Value::Double(bits) => "Double("@ + text::bits_shown(bits as nat, 16) + ")"@,
        Value::Float(bits) => "Float("@ + text::bits_shown(bits as nat, 8) + ")"@,
        Value::Instant(x) => "Instant("@ + clock::instant_shown(x) + ")"@,
        Value::Keyword(x) => "Keyword(:"@ + x + ")"@,
        Value::Long(x) => "Long("@ + text::decimal(x as int) + ")"@,
        Value::String(x) => "String("@ + text::quoted(x) + ")"@,
        Value::Uuid(x) => "Uuid("@ + text::uuid_shown(x as nat) + ")"@,
        Value::Vector(x) => "Vector("@ + text::listed(text::byte_numbers(x)) + ")"@,
        Value::Document(x) => "Document("@ + text::listed(text::byte_numbers(x)) + ")"@,
    }
}

/// A text between two others.
fn inside(before: &str, middle: &str, after: &str) -> (r: String)
    ensures
        r@ == before@ + middle@ + after@,
{
    followed_by(followed_by(before.to_owned(), middle), after)
}

/// A value in words, as errors name it.
pub fn value_text(value: &DataType) -> (r: String)
    ensures
        r@ == shown(value@),
{
    match value {
        DataType::BigInt(x) => inside("BigInt(", whole_text(*x).as_str(), ")"),
        DataType::Boolean(x) => if *x {
            "Boolean(true)".to_owned()
        } else {
            "Boolean(false)".to_owned()
        },
        DataType::Bytes(x) => inside("Bytes(", bytes_text(x).as_str(), ")"),
        DataType::Double(bits) => inside("Double(", bits_text(*bits as u128, 16).as_str(), ")"),
        DataType::Float(bits) => inside("Float(", bits_text(*bits as u128, 8).as_str(), ")"),
        DataType::Instant(x) => inside("Instant(", instant_text(*x).as_str(), ")"),
        DataType::Keyword(x) => inside("Keyword(:", x.name.as_str(), ")"),
        DataType::Long(x) => inside("Long(", decimal_text(*x).as_str(), ")"),
        DataType::String(x) => inside("String(", quote(x.as_str()).as_str(), ")"),
        DataType::Uuid(x) => inside("Uuid(", uuid_text(*x).as_str(), ")"),
        DataType::Vector(x) => inside("Vector(", bytes_text(x).as_str(), ")"),
        DataType::Document(x) => inside("Document(", bytes_text(x).as_str(), ")"),
    }
}

} // verus!
