//! How values are encoded, and in which order their encodings stand.

use vstd::prelude::*;

use crate::byte_string;
use crate::codec::{self, decode, encode, index_type_to_prefix};
use crate::error::Error;
use crate::ops::Datom;
use crate::value::{DataType, IndexType, Value};

verus! {

/// What contracts say of a value, or of a fact, is what it holds.
pub proof fn law_values_are_seen_as_they_are(v: DataType, d: Datom)
    ensures
        match v {
            DataType::BigInt(x) => v@ == Value::BigInt(x),
            DataType::Boolean(x) => v@ == Value::Boolean(x),
            DataType::Bytes(x) => v@ == Value::Bytes(x@),
            DataType::Double(x) => v@ == Value::Double(x),
            DataType::Float(x) => v@ == Value::Float(x),
            DataType::Instant(x) => v@ == Value::Instant(x),
            DataType::Keyword(x) => v@ == Value::Keyword(x.name@),
            DataType::Long(x) => v@ == Value::Long(x),
            DataType::String(x) => v@ == Value::String(x@),
            DataType::Uuid(x) => v@ == Value::Uuid(x),
            DataType::Vector(x) => v@ == Value::Vector(x@),
            DataType::Document(x) => v@ == Value::Document(x@),
        },
        d@.entity == d.entity,
        d@.attribute == d.attribute.name@,
        d@.value == d.value@,
        d@.op == d.op,
{
}

/// What was encoded is read back, also where something follows it.
pub proof fn law_encoded_values_are_read_back(
    v: DataType,
    bytes: Vec<u8>,
    stored: &[u8],
    r: Result<DataType, Error>,
)
    requires
        call_ensures(encode, (&v,), bytes),
        byte_string::begins_with(stored@, bytes@),
        call_ensures(decode, (stored,), r),
    ensures
        r matches Ok(w) && w@ == v@,
{
    let rest = stored@.skip(bytes@.len() as int);
    assert(stored@ =~= bytes@ + rest);
    codec::law_decode_encoded(v@, rest);
}

/// An encoding begins with the number of the value's kind. Of a truth value it goes on with one
/// byte, of numbers, times and identifiers with as many bytes as they have, of everything else with
/// bytes that tell their own end.
pub proof fn law_layout_of_encodings(v: DataType, bytes: Vec<u8>)
    requires
        call_ensures(encode, (&v,), bytes),
    ensures
        match v {
            DataType::BigInt(_) => bytes@.len() == 17 && bytes@[0] == 1,
            DataType::Boolean(x) => bytes@ == seq![2u8, if x { 1u8 } else { 0u8 }],
            DataType::Bytes(_) => bytes@[0] == 3,
            DataType::Double(_) => bytes@.len() == 9 && bytes@[0] == 4,
            DataType::Float(_) => bytes@.len() == 5 && bytes@[0] == 5,
            DataType::Instant(_) => bytes@.len() == 9 && bytes@[0] == 6,
            DataType::Long(_) => bytes@.len() == 9 && bytes@[0] == 7,
            DataType::String(_) => bytes@[0] == 9,
            DataType::Uuid(_) => bytes@.len() == 17 && bytes@[0] == 10,
            DataType::Vector(_) => bytes@[0] == 11,
            DataType::Document(_) => bytes@[0] == 12,
            DataType::Keyword(_) => bytes@[0] == 13,
        },
{
    match v {
        DataType::BigInt(x) => {
            codec::lemma_be_len((i128::MAX - x) as nat, 16);
        },
        DataType::Double(x) => {
            codec::lemma_be_len(x as nat, 8);
        },
        DataType::Float(x) => {
            codec::lemma_be_len(x as nat, 4);
        },
        DataType::Instant(x) => {
            codec::law_i64_order(x, x);
        },
        DataType::Long(x) => {
            codec::law_i64_order(x, x);
        },
        DataType::Uuid(x) => {
            codec::lemma_be_len(x as nat, 16);
        },
        _ => {},
    }
}

/// Byte strings with the same first byte stand as what follows it.
proof fn lemma_same_tag(tag: u8, a: Seq<u8>, b: Seq<u8>)
    ensures
        byte_string::before(seq![tag] + a, seq![tag] + b) == byte_string::before(a, b),
{
    let p = seq![tag] + a;
    let q = seq![tag] + b;
    assert(p[0] == tag && q[0] == tag);
    assert(p.drop_first() =~= a);
    assert(q.drop_first() =~= b);
}

/// Encodings of one kind stand in order: whole numbers and times the larger first, false before
/// true, identifiers and bit patterns the smaller first, byte strings and texts as their bytes.
pub proof fn law_order_of_encodings(a: DataType, b: DataType, p: Vec<u8>, q: Vec<u8>)
    requires
        call_ensures(encode, (&a,), p),
        call_ensures(encode, (&b,), q),
    ensures
        match (a, b) {
            (DataType::Long(x), DataType::Long(y)) => byte_string::before(p@, q@) == (x > y),
            (DataType::Instant(x), DataType::Instant(y)) => byte_string::before(p@, q@) == (x > y),
            (DataType::BigInt(x), DataType::BigInt(y)) => byte_string::before(p@, q@) == (x > y),
            (DataType::Boolean(x), DataType::Boolean(y)) => byte_string::before(p@, q@) == (!x
                && y),
            (DataType::Uuid(x), DataType::Uuid(y)) => byte_string::before(p@, q@) == (x < y),
            (DataType::Double(x), DataType::Double(y)) => byte_string::before(p@, q@) == (x < y),
            (DataType::Float(x), DataType::Float(y)) => byte_string::before(p@, q@) == (x < y),
            (DataType::Bytes(x), DataType::Bytes(y)) => byte_string::before(p@, q@)
                == byte_string::before(x@, y@),
            (DataType::String(x), DataType::String(y)) => byte_string::before(p@, q@)
                == byte_string::before(
                vstd::utf8::encode_utf8(x@),
                vstd::utf8::encode_utf8(y@),
            ),
            (DataType::Keyword(x), DataType::Keyword(y)) => byte_string::before(p@, q@)
                == byte_string::before(
                vstd::utf8::encode_utf8(x.name@),
                vstd::utf8::encode_utf8(y.name@),
            ),
            _ => true,
        },
{
    codec::lemma_pow256_bound(4);
    codec::lemma_pow256_bound(8);
    codec::lemma_pow256_bound(16);
    match (a, b) {
        (DataType::Long(x), DataType::Long(y)) => {
            codec::law_i64_order(x, y);
            lemma_same_tag(crate::protocol::TAG_LONG, codec::i64_bytes(x), codec::i64_bytes(y));
        },
        (DataType::Instant(x), DataType::Instant(y)) => {
            codec::law_i64_order(x, y);
            lemma_same_tag(crate::protocol::TAG_INSTANT, codec::i64_bytes(x), codec::i64_bytes(y));
        },
        (DataType::BigInt(x), DataType::BigInt(y)) => {
            lemma_numbers(
                crate::protocol::TAG_BIG_INT,
                (i128::MAX - x) as nat,
                (i128::MAX - y) as nat,
                16,
            );
        },
        (DataType::Boolean(x), DataType::Boolean(y)) => {
            reveal_with_fuel(byte_string::before, 4);
            assert(p@.drop_first()[0] == if x { 1u8 } else { 0u8 });
            assert(q@.drop_first()[0] == if y { 1u8 } else { 0u8 });
        },
        (DataType::Uuid(x), DataType::Uuid(y)) => {
            lemma_numbers(crate::protocol::TAG_UUID, x as nat, y as nat, 16);
        },
        (DataType::Double(x), DataType::Double(y)) => {
            lemma_numbers(crate::protocol::TAG_DOUBLE, x as nat, y as nat, 8);
        },
        (DataType::Float(x), DataType::Float(y)) => {
            lemma_numbers(crate::protocol::TAG_FLOAT, x as nat, y as nat, 4);
        },
        (DataType::Bytes(x), DataType::Bytes(y)) => {
            lemma_texts(crate::protocol::TAG_BYTES, x@, y@);
        },
        (DataType::String(x), DataType::String(y)) => {
            lemma_texts(
                crate::protocol::TAG_STRING,
                vstd::utf8::encode_utf8(x@),
                vstd::utf8::encode_utf8(y@),
            );
        },
        (DataType::Keyword(x), DataType::Keyword(y)) => {
            lemma_texts(
                crate::protocol::TAG_KEYWORD,
                vstd::utf8::encode_utf8(x.name@),
                vstd::utf8::encode_utf8(y.name@),
            );
        },
        _ => {},
    }
}

/// Numbers of one length behind the same byte.
proof fn lemma_numbers(tag: u8, x: nat, y: nat, n: nat)
    requires
        x < codec::pow256(n),
        y < codec::pow256(n),
    ensures
        byte_string::before(
            seq![tag] + codec::be_bytes(x, n),
            seq![tag] + codec::be_bytes(y, n),
        ) == (x < y),
{
    lemma_same_tag(tag, codec::be_bytes(x, n), codec::be_bytes(y, n));
    codec::lemma_number_order(x, y, n);
}

/// Byte strings that tell their own end behind the same byte.
proof fn lemma_texts(tag: u8, x: Seq<u8>, y: Seq<u8>)
    ensures
        byte_string::before(seq![tag] + codec::escaped(x), seq![tag] + codec::escaped(y))
            == byte_string::before(x, y),
{
    let nothing = Seq::<u8>::empty();
    lemma_same_tag(tag, codec::escaped(x), codec::escaped(y));
    if x != y {
        codec::law_escaped_order(x, y, nothing, nothing);
        assert(codec::escaped(x) + nothing =~= codec::escaped(x));
        assert(codec::escaped(y) + nothing =~= codec::escaped(y));
    } else {
        byte_string::lemma_before_irreflexive(x);
        byte_string::lemma_before_irreflexive(codec::escaped(x));
    }
}

/// The first byte of the keys of each index, and what stands for an assertion and for a retraction.
pub proof fn law_bytes_of_indexes(index_type: IndexType, r: u8)
    requires
        call_ensures(index_type_to_prefix, (index_type,), r),
    ensures
        r == (match index_type {
            IndexType::EAV => 0u8,
            IndexType::AVE => 1,
            IndexType::AEV => 2,
            IndexType::AE => 3,
            IndexType::AV => 4,
            IndexType::VAE => 5,
        }),
        codec::RETRACT == 0,
        codec::ADD == 1,
{
}

} // verus!
