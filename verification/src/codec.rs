//! The byte encodings of numbers, values and index keys.
//!
//! Every value is encoded as a tag byte and a payload that tells its own end, so that no
//! encoding is a prefix of another. Signed numbers are encoded so that the larger number comes
//! first in byte order.

use vstd::prelude::*;

use crate::byte_string;
use crate::error::{Error, ErrorView};
use crate::protocol::{
    TAG_BIG_INT, TAG_BOOLEAN, TAG_BYTES, TAG_DOUBLE, TAG_FLOAT, TAG_INSTANT, TAG_KEYWORD, TAG_LONG,
    TAG_MAP, TAG_STRING, TAG_UUID, TAG_VECTOR,
};
use crate::value::{DataType, IndexType, Keyword, Value};

verus! {

/// First byte of the keys of each index.
pub const EAV: u8 = 0;

pub const AVE: u8 = 1;

pub const AEV: u8 = 2;

pub const AE: u8 = 3;

pub const AV: u8 = 4;

pub const VAE: u8 = 5;

/// Last byte of a key: the fact was retracted.
pub const RETRACT: u8 = 0;

/// Last byte of a key: the fact was asserted.
pub const ADD: u8 = 1;

/// Length of the operation at the end of a temporal key.
pub const OP_LENGTH: usize = 1;

/// Length of the transaction and the operation at the end of a temporal key.
pub const TX_EID_OP_SUFFIX: usize = 9;

/// 256 to the power `n`.
pub open spec fn pow256(n: nat) -> nat
    decreases n,
{
    if n == 0 {
        1
    } else {
        256 * pow256((n - 1) as nat)
    }
}

/// The `n` low bytes of a number, the most significant first.
pub open spec fn be_bytes(x: nat, n: nat) -> Seq<u8>
    decreases n,
{
    if n == 0 {
        Seq::empty()
    } else {
        be_bytes(x / 256, (n - 1) as nat).push((x % 256) as u8)
    }
}

/// The number that the bytes spell, the most significant first.
pub open spec fn be_value(s: Seq<u8>) -> nat
    decreases s.len(),
{
    if s.len() == 0 {
        0
    } else {
        be_value(s.drop_last()) * 256 + s.last() as nat
    }
}

/// The encoding of a signed number: the larger number first in byte order.
pub open spec fn i64_bytes(x: i64) -> Seq<u8> {
    be_bytes((i64::MAX - x) as nat, 8)
}

/// The encoding of a value.
pub open spec fn encoding(v: Value) -> Seq<u8> {
    match v {
        Value::BigInt(x) => seq![TAG_BIG_INT] + be_bytes((i128::MAX - x) as nat, 16),
        Value::Boolean(x) => seq![TAG_BOOLEAN, if x { 1u8 } else { 0u8 }],
        Value::Bytes(x) => seq![TAG_BYTES] + escaped(x),
        Value::Double(x) => seq![TAG_DOUBLE] + be_bytes(x as nat, 8),
        Value::Float(x) => seq![TAG_FLOAT] + be_bytes(x as nat, 4),
        Value::Instant(x) => seq![TAG_INSTANT] + i64_bytes(x),
        Value::Keyword(x) => seq![TAG_KEYWORD] + escaped(vstd::utf8::encode_utf8(x)),
        Value::Long(x) => seq![TAG_LONG] + i64_bytes(x),
        Value::String(x) => seq![TAG_STRING] + escaped(vstd::utf8::encode_utf8(x)),
        Value::Uuid(x) => seq![TAG_UUID] + be_bytes(x as nat, 16),
        Value::Vector(x) => seq![TAG_VECTOR] + escaped(x),
        Value::Document(x) => seq![TAG_MAP] + escaped(x),
    }
}

/// A byte string that tells its own end: every zero byte is followed by 255, and two zero
/// bytes end it.
pub open spec fn escaped(s: Seq<u8>) -> Seq<u8>
    decreases s.len(),
{
    if s.len() == 0 {
        seq![0u8, 0u8]
    } else {
        escaped_byte(s[0]) + escaped(s.drop_first())
    }
}

/// One byte of it.
pub open spec fn escaped_byte(b: u8) -> Seq<u8> {
    if b == 0 {
        seq![0u8, 255u8]
    } else {
        seq![b]
    }
}

/// The value that a byte string begins with, and the length of its encoding.
pub open spec fn decoded(s: Seq<u8>) -> Option<(Value, int)> {
    if s.len() == 0 {
        None
    } else {
        let body = s.skip(1);
        let tag = s[0];
        if tag == TAG_BIG_INT {
            if body.len() < 16 {
                None
            } else {
                Some((Value::BigInt((i128::MAX - be_value(body.take(16))) as i128), 17))
            }
        } else if tag == TAG_BOOLEAN {
            if body.len() < 1 || body[0] > 1 {
                None
            } else {
                Some((Value::Boolean(body[0] == 1), 2))
            }
        } else if tag == TAG_DOUBLE {
            if body.len() < 8 {
                None
            } else {
                Some((Value::Double(be_value(body.take(8)) as u64), 9))
            }
        } else if tag == TAG_FLOAT {
            if body.len() < 4 {
                None
            } else {
                Some((Value::Float(be_value(body.take(4)) as u32), 5))
            }
        } else if tag == TAG_INSTANT {
            if body.len() < 8 {
                None
            } else {
                Some((Value::Instant((i64::MAX - be_value(body.take(8))) as i64), 9))
            }
        } else if tag == TAG_LONG {
            if body.len() < 8 {
                None
            } else {
                Some((Value::Long((i64::MAX - be_value(body.take(8))) as i64), 9))
            }
        } else if tag == TAG_UUID {
            if body.len() < 16 {
                None
            } else {
                Some((Value::Uuid(be_value(body.take(16)) as u128), 17))
            }
        } else {
            match unescaped(body) {
                None => None,
                Some((payload, used)) => {
                    let len = 1 + used;
                    if tag == TAG_BYTES {
                        Some((Value::Bytes(payload), len))
                    } else if tag == TAG_VECTOR {
                        Some((Value::Vector(payload), len))
                    } else if tag == TAG_MAP {
                        Some((Value::Document(payload), len))
                    } else if tag == TAG_KEYWORD && vstd::utf8::valid_utf8(payload) {
                        Some((Value::Keyword(vstd::utf8::decode_utf8(payload)), len))
                    } else if tag == TAG_STRING && vstd::utf8::valid_utf8(payload) {
                        Some((Value::String(vstd::utf8::decode_utf8(payload)), len))
                    } else {
                        None
                    }
                },
            }
        }
    }
}

/// The byte string whose escaped form `t` begins with, and the length of that form.
pub open spec fn unescaped(t: Seq<u8>) -> Option<(Seq<u8>, int)>
    decreases t.len(),
{
    if t.len() == 0 {
        None
    } else if t[0] != 0 {
        put_front(t[0], 1, unescaped(t.skip(1)))
    } else if t.len() < 2 {
        None
    } else if t[1] == 0 {
        Some((Seq::empty(), 2))
    } else if t[1] == 255 {
        put_front(0, 2, unescaped(t.skip(2)))
    } else {
        None
    }
}

/// One more byte, spelt with `n` bytes, in front of what the rest spells.
pub open spec fn put_front(b: u8, n: int, rest: Option<(Seq<u8>, int)>) -> Option<
    (Seq<u8>, int),
> {
    match rest {
        Some((s, used)) => Some((seq![b] + s, used + n)),
        None => None,
    }
}

/// Bytes already read, with `n` bytes, in front of what the rest spells.
spec fn put_all_front(a: Seq<u8>, n: int, rest: Option<(Seq<u8>, int)>) -> Option<
    (Seq<u8>, int),
> {
    match rest {
        Some((s, used)) => Some((a + s, used + n)),
        None => None,
    }
}

/// The string whose UTF-8 encoding the bytes are, if they are one.
///
/// Calls `String::from_utf8`, which accepts exactly the valid encodings.
#[verifier::external_body]
fn utf8_string(bytes: Vec<u8>) -> (r: Option<String>)
    ensures
        match r {
            Some(s) => vstd::utf8::valid_utf8(bytes@) && s@ == vstd::utf8::decode_utf8(bytes@),
            None => !vstd::utf8::valid_utf8(bytes@),
        },
{
    String::from_utf8(bytes).ok()
}

/// Appends the `n` low bytes of a number, the most significant first.
fn push_number(out: &mut Vec<u8>, x: u128, n: u8)
    ensures
        final(out)@ == old(out)@ + be_bytes(x as nat, n as nat),
    decreases n,
{
    if n > 0 {
        push_number(out, x / 256, n - 1);
        out.push((x % 256) as u8);
        assert(out@ =~= old(out)@ + be_bytes(x as nat, n as nat));
    } else {
        assert(out@ =~= old(out)@ + be_bytes(x as nat, n as nat));
    }
}

/// The number that `n` bytes from position `at` on spell.
fn read_number(s: &[u8], at: usize, n: usize) -> (r: u128)
    requires
        n <= 16,
        at + n <= s@.len(),
    ensures
        r == be_value(s@.subrange(at as int, at + n)),
        r < pow256(n as nat),
{
    let mut value: u128 = 0;
    let mut i: usize = 0;
    proof {
        reveal_with_fuel(pow256, 17);
        assert(s@.subrange(at as int, at as int) =~= Seq::<u8>::empty());
    }
    while i < n
        invariant
            i <= n <= 16,
            at + n <= s.len(),
            value == be_value(s@.subrange(at as int, at + i)),
            value < pow256(i as nat),
        decreases n - i,
    {
        proof {
            assert(s@.subrange(at as int, at + i + 1).drop_last() =~= s@.subrange(
                at as int,
                at + i,
            ));
            lemma_pow256_bound(i as nat + 1);
        }
        value = value * 256 + s[at + i] as u128;
        i += 1;
    }
    value
}

/// The powers that fit in 128 bits.
pub proof fn lemma_pow256_bound(n: nat)
    requires
        n <= 16,
    ensures
        pow256(n) <= 0x1_0000_0000_0000_0000_0000_0000_0000_0000,
        n <= 8 ==> pow256(n) <= 0x1_0000_0000_0000_0000,
        n <= 4 ==> pow256(n) <= 0x1_0000_0000,
        pow256(8) == 0x1_0000_0000_0000_0000,
        pow256(4) == 0x1_0000_0000,
        pow256(16) == 0x1_0000_0000_0000_0000_0000_0000_0000_0000,
    decreases 16 - n,
{
    reveal_with_fuel(pow256, 17);
    if n < 16 {
        lemma_pow256_bound(n + 1);
    }
}

/// What the bytes of a number spell is the number.
pub proof fn lemma_number_round_trip(x: nat, n: nat)
    requires
        x < pow256(n),
    ensures
        be_value(be_bytes(x, n)) == x,
        be_bytes(x, n).len() == n,
    decreases n,
{
    if n > 0 {
        lemma_number_round_trip(x / 256, (n - 1) as nat);
        assert(be_bytes(x, n).drop_last() =~= be_bytes(x / 256, (n - 1) as nat));
    }
}

/// A number has as many bytes as asked for.
pub proof fn lemma_be_len(x: nat, n: nat)
    ensures
        be_bytes(x, n).len() == n,
    decreases n,
{
    if n > 0 {
        lemma_be_len(x / 256, (n - 1) as nat);
    }
}

/// Bytes spell a number that fits their length.
pub proof fn lemma_be_value_bound(s: Seq<u8>)
    ensures
        be_value(s) < pow256(s.len()),
    decreases s.len(),
{
    if s.len() > 0 {
        lemma_be_value_bound(s.drop_last());
    }
}

/// Appends the encoding of a signed number.
pub fn encode_i64(x: i64, out: &mut Vec<u8>)
    ensures
        final(out)@ == old(out)@ + i64_bytes(x),
{
    let distance: u128 = (i64::MAX as i128 - x as i128) as u128;
    push_number(out, distance, 8);
}

/// The encoding of a signed number.
pub fn encode_i64_bytes(x: i64) -> (r: Vec<u8>)
    ensures
        r@ == i64_bytes(x),
        r@.len() == 8,
{
    let mut out: Vec<u8> = Vec::new();
    encode_i64(x, &mut out);
    proof {
        lemma_be_len((i64::MAX - x) as nat, 8);
    }
    assert(out@ =~= i64_bytes(x));
    out
}

/// The signed number encoded at position `at`, and the position behind it.
pub fn decode_i64(s: &[u8], at: usize) -> (r: Result<(i64, usize), Error>)
    requires
        at <= s@.len(),
    ensures
        match r {
            Ok((x, next)) => next == at + 8 && next <= s@.len() && x == i64::MAX - be_value(
                s@.subrange(at as int, at + 8),
            ),
            Err(e) => e@ == ErrorView::Decode && s@.len() - at < 8,
        },
{
    if s.len() - at < 8 {
        return Err(Error::Decode);
    }
    let value: u128 = read_number(s, at, 8);
    proof {
        lemma_pow256_bound(8);
    }
    Ok(((i64::MAX as i128 - value as i128) as i64, at + 8))
}

/// Appends a byte string in its escaped form.
fn push_escaped(out: &mut Vec<u8>, s: &[u8])
    ensures
        final(out)@ == old(out)@ + escaped(s@),
{
    let mut i: usize = 0;
    assert(s@.skip(0) =~= s@);
    while i < s.len()
        invariant
            i <= s@.len(),
            out@ + escaped(s@.skip(i as int)) == old(out)@ + escaped(s@),
        decreases s@.len() - i,
    {
        let ghost before = out@;
        let ghost rest = s@.skip(i as int);
        proof {
            assert(rest[0] == s@[i as int]);
            assert(rest.drop_first() =~= s@.skip(i + 1));
        }
        let b: u8 = s[i];
        out.push(b);
        if b == 0 {
            out.push(255);
        }
        assert(out@ =~= before + escaped_byte(b));
        assert(before + (escaped_byte(b) + escaped(s@.skip(i + 1))) =~= out@ + escaped(
            s@.skip(i + 1),
        ));
        i += 1;
    }
    assert(s@.skip(i as int) =~= Seq::<u8>::empty());
    let ghost before = out@;
    out.push(0);
    out.push(0);
    assert(out@ =~= before + seq![0u8, 0u8]);
}

/// The byte string whose escaped form stands at position `at`, and the position behind it.
fn read_escaped(s: &[u8], at: usize) -> (r: Option<(Vec<u8>, usize)>)
    requires
        at <= s@.len(),
    ensures
        match r {
            Some((payload, next)) => at < next <= s@.len() && unescaped(s@.skip(at as int))
                == Some((payload@, next - at)),
            None => unescaped(s@.skip(at as int)) is None,
        },
{
    let ghost whole = unescaped(s@.skip(at as int));
    let mut payload: Vec<u8> = Vec::new();
    let mut i: usize = at;
    proof {
        match whole {
            Some((t, n)) => {
                assert(Seq::<u8>::empty() + t =~= t);
            },
            None => {},
        }
    }
    while i < s.len()
        invariant
            at <= i <= s@.len(),
            whole == unescaped(s@.skip(at as int)),
            whole == put_all_front(payload@, i - at, unescaped(s@.skip(i as int))),
        decreases s@.len() - i,
    {
        let ghost rest = s@.skip(i as int);
        let ghost before = payload@;
        assert(rest[0] == s@[i as int]);
        let b: u8 = s[i];
        if b != 0 {
            assert(rest.skip(1) =~= s@.skip(i + 1));
            payload.push(b);
            proof {
                lemma_put_front(before, i - at, b, 1, unescaped(s@.skip(i + 1)));
            }
            i += 1;
        } else {
            if s.len() - i < 2 {
                return None;
            }
            assert(rest[1] == s@[i + 1]);
            if s[i + 1] == 0 {
                assert(payload@ + Seq::<u8>::empty() =~= payload@);
                return Some((payload, i + 2));
            }
            if s[i + 1] != 255 {
                return None;
            }
            assert(rest.skip(2) =~= s@.skip(i + 2));
            payload.push(0);
            proof {
                lemma_put_front(before, i - at, 0, 2, unescaped(s@.skip(i + 2)));
            }
            i += 2;
        }
    }
    None
}

proof fn lemma_put_front(a: Seq<u8>, m: int, b: u8, n: int, rest: Option<(Seq<u8>, int)>)
    ensures
        put_all_front(a, m, put_front(b, n, rest)) == put_all_front(a.push(b), m + n, rest),
{
    match rest {
        Some((s, used)) => {
            assert(a + (seq![b] + s) =~= a.push(b) + s);
        },
        None => {},
    }
}

/// Appends the encoding of a value.
pub fn encode_datatype(dt: &DataType, out: &mut Vec<u8>)
    ensures
        final(out)@ == old(out)@ + encoding(dt@),
{
    match dt {
        DataType::BigInt(x) => {
            out.push(TAG_BIG_INT);
            let distance: u128 = if *x >= 0 {
                (i128::MAX - *x) as u128
            } else {
                i128::MAX as u128 + 1 + (-(*x + 1)) as u128
            };
            push_number(out, distance, 16);
        },
        DataType::Boolean(x) => {
            out.push(TAG_BOOLEAN);
            out.push(if *x { 1 } else { 0 });
        },
        DataType::Bytes(x) => {
            out.push(TAG_BYTES);
            push_escaped(out, x);
        },
        DataType::Double(x) => {
            out.push(TAG_DOUBLE);
            push_number(out, *x as u128, 8);
        },
        DataType::Float(x) => {
            out.push(TAG_FLOAT);
            push_number(out, *x as u128, 4);
        },
        DataType::Instant(x) => {
            out.push(TAG_INSTANT);
            encode_i64(*x, out);
        },
        DataType::Keyword(x) => {
            out.push(TAG_KEYWORD);
            push_escaped(out, x.name.as_str().as_bytes());
        },
        DataType::Long(x) => {
            out.push(TAG_LONG);
            encode_i64(*x, out);
        },
        DataType::String(x) => {
            out.push(TAG_STRING);
            push_escaped(out, x.as_str().as_bytes());
        },
        DataType::Uuid(x) => {
            out.push(TAG_UUID);
            push_number(out, *x, 16);
        },
        DataType::Vector(x) => {
            out.push(TAG_VECTOR);
            push_escaped(out, x);
        },
        DataType::Document(x) => {
            out.push(TAG_MAP);
            push_escaped(out, x);
        },
    }
    assert(out@ =~= old(out)@ + encoding(dt@));
}

/// The encoding of a value.
pub fn encode(dt: &DataType) -> (r: Vec<u8>)
    ensures
        r@ == encoding(dt@),
{
    let mut out: Vec<u8> = Vec::new();
    encode_datatype(dt, &mut out);
    assert(out@ =~= encoding(dt@));
    out
}

/// The value encoded at position `at`, and the position behind it.
pub fn decode_datatype(s: &[u8], at: usize) -> (r: Result<(DataType, usize), Error>)
    requires
        at <= s@.len(),
    ensures
        match r {
            Ok((v, next)) => at < next <= s@.len() && decoded(s@.skip(at as int)) == Some(
                (v@, next - at),
            ),
            Err(e) => e@ == ErrorView::Decode && decoded(s@.skip(at as int)) is None,
        },
{
    let ghost rest = s@.skip(at as int);
    if at == s.len() {
        return Err(Error::Decode);
    }
    let tag: u8 = s[at];
    let left: usize = s.len() - at - 1;
    proof {
        lemma_pow256_bound(16);
        assert forall|n: int| 0 <= n <= left implies #[trigger] rest.skip(1).take(n)
            =~= s@.subrange(at + 1, at + 1 + n) by {}
    }
    if tag == TAG_BIG_INT || tag == TAG_UUID {
        if left < 16 {
            return Err(Error::Decode);
        }
        let value: u128 = read_number(s, at + 1, 16);
        assert(rest.skip(1).take(16) =~= s@.subrange(at + 1, at + 17));
        if tag == TAG_UUID {
            return Ok((DataType::Uuid(value), at + 17));
        }
        let x: i128 = if value <= i128::MAX as u128 {
            i128::MAX - value as i128
        } else {
            -((value - i128::MAX as u128 - 1) as i128) - 1
        };
        return Ok((DataType::BigInt(x), at + 17));
    }
    if tag == TAG_BOOLEAN {
        if left < 1 || s[at + 1] > 1 {
            return Err(Error::Decode);
        }
        return Ok((DataType::Boolean(s[at + 1] == 1), at + 2));
    }
    if tag == TAG_FLOAT {
        if left < 4 {
            return Err(Error::Decode);
        }
        let value: u128 = read_number(s, at + 1, 4);
        assert(rest.skip(1).take(4) =~= s@.subrange(at + 1, at + 5));
        return Ok((DataType::Float(value as u32), at + 5));
    }
    if tag == TAG_DOUBLE || tag == TAG_INSTANT || tag == TAG_LONG {
        if left < 8 {
            return Err(Error::Decode);
        }
        let value: u128 = read_number(s, at + 1, 8);
        assert(rest.skip(1).take(8) =~= s@.subrange(at + 1, at + 9));
        if tag == TAG_DOUBLE {
            return Ok((DataType::Double(value as u64), at + 9));
        }
        let x: i64 = (i64::MAX as i128 - value as i128) as i64;
        if tag == TAG_INSTANT {
            return Ok((DataType::Instant(x), at + 9));
        }
        return Ok((DataType::Long(x), at + 9));
    }
    assert(rest.skip(1) =~= s@.skip(at + 1));
    let (payload, end) = match read_escaped(s, at + 1) {
        Some(found) => found,
        None => {
            return Err(Error::Decode);
        },
    };
    if tag == TAG_BYTES {
        return Ok((DataType::Bytes(payload), end));
    }
    if tag == TAG_VECTOR {
        return Ok((DataType::Vector(payload), end));
    }
    if tag == TAG_MAP {
        return Ok((DataType::Document(payload), end));
    }
    if tag == TAG_KEYWORD {
        return match utf8_string(payload) {
            Some(name) => Ok((DataType::Keyword(Keyword { name }), end)),
            None => Err(Error::Decode),
        };
    }
    if tag == TAG_STRING {
        return match utf8_string(payload) {
            Some(text) => Ok((DataType::String(text), end)),
            None => Err(Error::Decode),
        };
    }
    Err(Error::Decode)
}

/// The value that a byte string begins with.
pub fn decode(s: &[u8]) -> (r: Result<DataType, Error>)
    ensures
        match r {
            Ok(v) => decoded(s@) matches Some(found) && found.0 == v@,
            Err(e) => e@ == ErrorView::Decode && decoded(s@) is None,
        },
{
    assert(s@.skip(0) =~= s@);
    match decode_datatype(s, 0) {
        Ok((v, _)) => Ok(v),
        Err(e) => Err(e),
    }
}

/// The first byte of an index's keys.
pub open spec fn index_prefix(index_type: IndexType) -> u8 {
    match index_type {
        IndexType::EAV => EAV,
        IndexType::AVE => AVE,
        IndexType::AEV => AEV,
        IndexType::VAE => VAE,
        IndexType::AE => AE,
        IndexType::AV => AV,
    }
}

/// The first byte of an index's keys.
pub fn index_type_to_prefix(index_type: IndexType) -> (r: u8)
    ensures
        r == index_prefix(index_type),
{
    match index_type {
        IndexType::EAV => EAV,
        IndexType::AVE => AVE,
        IndexType::AEV => AEV,
        IndexType::VAE => VAE,
        IndexType::AE => AE,
        IndexType::AV => AV,
    }
}

/// Decoding gives back the value that was encoded, whatever follows it.
pub proof fn law_decode_encoded(v: Value, rest: Seq<u8>)
    ensures
        decoded(encoding(v) + rest) == Some((v, encoding(v).len() as int)),
{
    broadcast use {vstd::utf8::encode_utf8_valid_utf8, vstd::utf8::encode_utf8_decode_utf8};

    let all = encoding(v) + rest;
    let body = all.skip(1);
    lemma_pow256_bound(16);
    match v {
        Value::BigInt(x) => {
            lemma_number_round_trip((i128::MAX - x) as nat, 16);
            assert(body.take(16) =~= be_bytes((i128::MAX - x) as nat, 16));
        },
        Value::Boolean(x) => {
            assert(body[0] == if x { 1u8 } else { 0u8 });
        },
        Value::Double(x) => {
            lemma_number_round_trip(x as nat, 8);
            assert(body.take(8) =~= be_bytes(x as nat, 8));
        },
        Value::Float(x) => {
            lemma_number_round_trip(x as nat, 4);
            assert(body.take(4) =~= be_bytes(x as nat, 4));
        },
        Value::Instant(x) => {
            lemma_number_round_trip((i64::MAX - x) as nat, 8);
            assert(body.take(8) =~= i64_bytes(x));
        },
        Value::Long(x) => {
            lemma_number_round_trip((i64::MAX - x) as nat, 8);
            assert(body.take(8) =~= i64_bytes(x));
        },
        Value::Uuid(x) => {
            lemma_number_round_trip(x as nat, 16);
            assert(body.take(16) =~= be_bytes(x as nat, 16));
        },
        Value::Bytes(x) => lemma_unescaped(x, rest, all),
        Value::Vector(x) => lemma_unescaped(x, rest, all),
        Value::Document(x) => lemma_unescaped(x, rest, all),
        Value::Keyword(x) => lemma_unescaped(vstd::utf8::encode_utf8(x), rest, all),
        Value::String(x) => lemma_unescaped(vstd::utf8::encode_utf8(x), rest, all),
    }
}

proof fn lemma_unescaped(payload: Seq<u8>, rest: Seq<u8>, all: Seq<u8>)
    requires
        all.len() > 0,
        all == seq![all[0]] + escaped(payload) + rest,
    ensures
        unescaped(all.skip(1)) == Some((payload, escaped(payload).len() as int)),
{
    assert(all.skip(1) =~= escaped(payload) + rest);
    lemma_escaped_round_trip(payload, rest);
}

/// Reading an escaped byte string gives it back, whatever follows.
pub proof fn lemma_escaped_round_trip(s: Seq<u8>, rest: Seq<u8>)
    ensures
        unescaped(escaped(s) + rest) == Some((s, escaped(s).len() as int)),
    decreases s.len(),
{
    let all = escaped(s) + rest;
    if s.len() == 0 {
        assert(all[0] == 0 && all[1] == 0);
        assert(s =~= Seq::<u8>::empty());
    } else {
        let tail = s.drop_first();
        lemma_escaped_round_trip(tail, rest);
        assert(seq![s[0]] + tail =~= s);
        assert(all =~= escaped_byte(s[0]) + (escaped(tail) + rest));
        if s[0] == 0 {
            assert(all[0] == 0 && all[1] == 255);
            assert(all.skip(2) =~= escaped(tail) + rest);
        } else {
            assert(all[0] == s[0]);
            assert(all.skip(1) =~= escaped(tail) + rest);
        }
    }
}

/// Different texts stand in byte order as they stand lexicographically, whatever follows them.
pub proof fn law_escaped_order(a: Seq<u8>, b: Seq<u8>, x: Seq<u8>, y: Seq<u8>)
    requires
        a != b,
    ensures
        byte_string::before(escaped(a) + x, escaped(b) + y) == byte_string::before(a, b),
    decreases a.len(),
{
    reveal_with_fuel(byte_string::before, 3);
    let p = escaped(a) + x;
    let q = escaped(b) + y;
    if a.len() == 0 && b.len() == 0 {
        assert(a =~= b);
    } else if a.len() == 0 {
        assert(p[0] == 0 && p[1] == 0);
        let qq = escaped_byte(b[0]) + (escaped(b.drop_first()) + y);
        assert(q =~= qq);
        lemma_escaped_nonempty(b.drop_first());
        if b[0] == 0 {
            assert(q[0] == 0 && q[1] == 255);
            assert(p.drop_first()[0] == 0);
            assert(q.drop_first()[0] == 255);
        } else {
            assert(q[0] == b[0]);
        }
    } else if b.len() == 0 {
        assert(q[0] == 0 && q[1] == 0);
        let pp = escaped_byte(a[0]) + (escaped(a.drop_first()) + x);
        assert(p =~= pp);
        lemma_escaped_nonempty(a.drop_first());
        if a[0] == 0 {
            assert(p[0] == 0 && p[1] == 255);
            assert(p.drop_first()[0] == 255);
            assert(q.drop_first()[0] == 0);
        } else {
            assert(p[0] == a[0]);
        }
    } else {
        let ta = escaped(a.drop_first()) + x;
        let tb = escaped(b.drop_first()) + y;
        lemma_escaped_nonempty(a.drop_first());
        lemma_escaped_nonempty(b.drop_first());
        assert(p =~= escaped_byte(a[0]) + ta);
        assert(q =~= escaped_byte(b[0]) + tb);
        assert(p[0] == a[0]);
        assert(q[0] == b[0]);
        if a[0] == b[0] {
            if a.drop_first() == b.drop_first() {
                assert(a =~= seq![a[0]] + a.drop_first());
                assert(b =~= seq![b[0]] + b.drop_first());
            }
            law_escaped_order(a.drop_first(), b.drop_first(), x, y);
            if a[0] == 0 {
                assert(p.drop_first()[0] == 255 && q.drop_first()[0] == 255);
                assert(p.drop_first().drop_first() =~= ta);
                assert(q.drop_first().drop_first() =~= tb);
            } else {
                assert(p.drop_first() =~= ta);
                assert(q.drop_first() =~= tb);
            }
        }
    }
}

proof fn lemma_escaped_nonempty(s: Seq<u8>)
    ensures
        escaped(s).len() >= 2,
    decreases s.len(),
{
    if s.len() > 0 {
        lemma_escaped_nonempty(s.drop_first());
    }
}

/// Values that may stand in a longer key are encoded so that no encoding is a prefix of
/// another value's.
pub proof fn law_encodings_prefix_free(a: Value, b: Value)
    requires
        byte_string::begins_with(encoding(b), encoding(a)),
    ensures
        a == b,
{
    let n = encoding(a).len() as int;
    assert(encoding(b) =~= encoding(a) + encoding(b).skip(n));
    law_decode_encoded(a, encoding(b).skip(n));
    law_decode_encoded(b, Seq::empty());
    assert(encoding(b) + Seq::<u8>::empty() =~= encoding(b));
}

/// Numbers of one length stand in byte order as they stand in size.
pub proof fn lemma_number_order(x: nat, y: nat, n: nat)
    requires
        x < pow256(n),
        y < pow256(n),
    ensures
        byte_string::before(be_bytes(x, n), be_bytes(y, n)) == (x < y),
    decreases n,
{
    if n > 0 {
        let m = (n - 1) as nat;
        let a = be_bytes(x / 256, m);
        let b = be_bytes(y / 256, m);
        lemma_number_order(x / 256, y / 256, m);
        lemma_be_len(x / 256, m);
        lemma_be_len(y / 256, m);
        lemma_before_push(a, b, (x % 256) as u8, (y % 256) as u8);
        if a == b {
            lemma_number_round_trip(x / 256, m);
            lemma_number_round_trip(y / 256, m);
        }
    }
}

/// The order of two byte strings of one length with one more byte each.
proof fn lemma_before_push(a: Seq<u8>, b: Seq<u8>, x: u8, y: u8)
    requires
        a.len() == b.len(),
    ensures
        byte_string::before(a.push(x), b.push(y)) == (byte_string::before(a, b) || a == b && x < y),
    decreases a.len(),
{
    if a.len() == 0 {
        assert(a =~= b);
        assert(a.push(x).drop_first() =~= Seq::<u8>::empty());
        assert(b.push(y).drop_first() =~= Seq::<u8>::empty());
        assert(!byte_string::before(Seq::<u8>::empty(), Seq::<u8>::empty()));
    } else {
        assert(a.push(x)[0] == a[0] && b.push(y)[0] == b[0]);
        if a[0] == b[0] {
            lemma_before_push(a.drop_first(), b.drop_first(), x, y);
            assert(a.push(x).drop_first() =~= a.drop_first().push(x));
            assert(b.push(y).drop_first() =~= b.drop_first().push(y));
            if a.drop_first() == b.drop_first() {
                assert(a =~= seq![a[0]] + a.drop_first());
                assert(b =~= seq![b[0]] + b.drop_first());
            }
        }
    }
}

/// Signed numbers are encoded in descending order: the larger comes first.
pub proof fn law_i64_order(x: i64, y: i64)
    ensures
        byte_string::before(i64_bytes(x), i64_bytes(y)) == (y < x),
        i64_bytes(x) == i64_bytes(y) ==> x == y,
        i64_bytes(x).len() == 8,
        be_value(i64_bytes(x)) == i64::MAX - x,
{
    lemma_pow256_bound(8);
    lemma_number_order((i64::MAX - x) as nat, (i64::MAX - y) as nat, 8);
    lemma_number_round_trip((i64::MAX - x) as nat, 8);
    lemma_number_round_trip((i64::MAX - y) as nat, 8);
}

} // verus!
