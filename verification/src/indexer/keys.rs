//! The keys of the indexes.

use vstd::prelude::*;

use crate::byte_string::{append_bytes, slice_of};
use crate::codec::{self, decode_datatype, decode_i64};
use crate::error::{Error, ErrorView};
use crate::ops::{Datom, DatomOp, DatomView};
use crate::schema::{AttributeInfo, Schema};
use crate::value::{DataType, IndexType, Value};

verus! {

/// The end of a key: transaction and operation.
pub open spec fn suffix(tx_eid: i64, op: u8) -> Seq<u8> {
    codec::i64_bytes(tx_eid) + seq![op]
}

/// The key of a fact by entity, attribute and value.
pub open spec fn eav_key(e: Value, a: i64, v: Value, tx_eid: i64, op: u8) -> Seq<u8> {
    seq![codec::EAV] + codec::encoding(e) + codec::i64_bytes(a) + codec::encoding(v) + suffix(
        tx_eid,
        op,
    )
}

/// The key of a fact by attribute, value and entity.
pub open spec fn ave_key(a: i64, v: Value, e: Value, tx_eid: i64, op: u8) -> Seq<u8> {
    seq![codec::AVE] + codec::i64_bytes(a) + codec::encoding(v) + codec::encoding(e) + suffix(
        tx_eid,
        op,
    )
}

/// The key of a fact by attribute, entity and value.
pub open spec fn aev_key(a: i64, e: Value, v: Value, tx_eid: i64, op: u8) -> Seq<u8> {
    seq![codec::AEV] + codec::i64_bytes(a) + codec::encoding(e) + codec::encoding(v) + suffix(
        tx_eid,
        op,
    )
}

/// The key of a fact by value, attribute and entity.
pub open spec fn vae_key(v: Value, a: i64, e: Value, tx_eid: i64, op: u8) -> Seq<u8> {
    seq![codec::VAE] + codec::encoding(v) + codec::i64_bytes(a) + codec::encoding(e) + suffix(
        tx_eid,
        op,
    )
}

/// The key of an attribute and an entity.
pub open spec fn ae_key(a: i64, e: Value) -> Seq<u8> {
    seq![codec::AE] + codec::i64_bytes(a) + codec::encoding(e)
}

/// The key of an attribute and a value.
pub open spec fn av_key(a: i64, v: Value) -> Seq<u8> {
    seq![codec::AV] + codec::i64_bytes(a) + codec::encoding(v)
}

/// The number at a place, and where it ends.
pub open spec fn number_at(s: Seq<u8>, at: int) -> Option<(i64, int)> {
    if s.len() - at < 8 {
        None
    } else {
        Some(((i64::MAX - codec::be_value(s.subrange(at, at + 8))) as i64, at + 8))
    }
}

/// The value at a place, and where it ends.
pub open spec fn value_at(s: Seq<u8>, at: int) -> Option<(Value, int)> {
    match codec::decoded(s.skip(at)) {
        Some((v, n)) => Some((v, at + n)),
        None => None,
    }
}

/// The index of keys that begin with a byte.
pub open spec fn index_of(first: u8) -> IndexType {
    if first == codec::EAV {
        IndexType::EAV
    } else if first == codec::AVE {
        IndexType::AVE
    } else if first == codec::AEV {
        IndexType::AEV
    } else if first == codec::VAE {
        IndexType::VAE
    } else if first == codec::AE {
        IndexType::AE
    } else {
        IndexType::AV
    }
}

/// The index of keys that begin with a byte.
fn index_at(first: u8) -> (r: IndexType)
    ensures
        r == index_of(first),
{
    if first == codec::EAV {
        IndexType::EAV
    } else if first == codec::AVE {
        IndexType::AVE
    } else if first == codec::AEV {
        IndexType::AEV
    } else if first == codec::VAE {
        IndexType::VAE
    } else if first == codec::AE {
        IndexType::AE
    } else {
        IndexType::AV
    }
}

/// What stands between the first byte and the end of a key with transaction and operation, with
/// these two.
pub open spec fn stripped(key: Seq<u8>, index: u8) -> Result<(Seq<u8>, i64, u8), ErrorView> {
    if key.len() == 0 || key[0] != index {
        Err(ErrorView::WrongIndex(index_of(index)))
    } else if key.len() < 1 + codec::TX_EID_OP_SUFFIX {
        Err(ErrorView::KeyTooShort)
    } else {
        Ok(
            (
                key.subrange(1, key.len() - codec::TX_EID_OP_SUFFIX),
                number_at(key, key.len() - codec::TX_EID_OP_SUFFIX).unwrap().0,
                key.last(),
            ),
        )
    }
}

/// What stands behind the first byte of a key without transaction.
pub open spec fn stripped_atemporal(key: Seq<u8>, index: u8) -> Result<Seq<u8>, ErrorView> {
    if key.len() == 0 || key[0] != index {
        Err(ErrorView::WrongIndex(index_of(index)))
    } else if key.len() < 2 {
        Err(ErrorView::KeyTooShort)
    } else {
        Ok(key.skip(1))
    }
}

/// A value, a number and a value.
pub open spec fn value_number_value(s: Seq<u8>) -> Option<(Value, i64, Value)> {
    match value_at(s, 0) {
        None => None,
        Some((x, i)) => match number_at(s, i) {
            None => None,
            Some((a, j)) => match value_at(s, j) {
                None => None,
                Some((y, _)) => Some((x, a, y)),
            },
        },
    }
}

/// A number and two values.
pub open spec fn number_value_value(s: Seq<u8>) -> Option<(i64, Value, Value)> {
    match number_at(s, 0) {
        None => None,
        Some((a, i)) => match value_at(s, i) {
            None => None,
            Some((x, j)) => match value_at(s, j) {
                None => None,
                Some((y, _)) => Some((a, x, y)),
            },
        },
    }
}

/// A number and a value.
pub open spec fn number_value(s: Seq<u8>) -> Option<(i64, Value)> {
    match number_at(s, 0) {
        None => None,
        Some((a, i)) => match value_at(s, i) {
            None => None,
            Some((x, _)) => Some((a, x)),
        },
    }
}

/// The parts of a key whose data are a value, a number and a value.
pub open spec fn vnv_parts(key: Seq<u8>, index: u8) -> Result<(Value, i64, Value, i64, u8), ErrorView> {
    match stripped(key, index) {
        Err(e) => Err(e),
        Ok((data, tx_eid, op)) => match value_number_value(data) {
            Some((x, a, y)) => Ok((x, a, y, tx_eid, op)),
            None => Err(ErrorView::Decode),
        },
    }
}

/// The parts of a key whose data are a number and two values.
pub open spec fn nvv_parts(key: Seq<u8>, index: u8) -> Result<(i64, Value, Value, i64, u8), ErrorView> {
    match stripped(key, index) {
        Err(e) => Err(e),
        Ok((data, tx_eid, op)) => match number_value_value(data) {
            Some((a, x, y)) => Ok((a, x, y, tx_eid, op)),
            None => Err(ErrorView::Decode),
        },
    }
}

/// The parts of a key whose data are a number and a value.
pub open spec fn nv_parts(key: Seq<u8>, index: u8) -> Result<(i64, Value), ErrorView> {
    match stripped_atemporal(key, index) {
        Err(e) => Err(e),
        Ok(data) => match number_value(data) {
            Some(parts) => Ok(parts),
            None => Err(ErrorView::Decode),
        },
    }
}

/// What stands between the first byte and the end of a key, with transaction and operation.
fn strip_temporal_key(key: &[u8], expected_prefix: u8) -> (r: Result<(Vec<u8>, i64, u8), Error>)
    ensures
        match r {
            Ok((data, tx_eid, op)) => stripped(key@, expected_prefix) == Ok::<
                (Seq<u8>, i64, u8),
                ErrorView,
            >((data@, tx_eid, op)),
            Err(e) => stripped(key@, expected_prefix) == Err::<(Seq<u8>, i64, u8), ErrorView>(e@),
        },
{
    if key.len() == 0 || key[0] != expected_prefix {
        return Err(Error::WrongIndex(index_at(expected_prefix)));
    }
    if key.len() < 1 + codec::TX_EID_OP_SUFFIX {
        return Err(Error::KeyTooShort);
    }
    let end: usize = key.len() - codec::TX_EID_OP_SUFFIX;
    let data = slice_of(key, 1, end);
    match decode_i64(key, end) {
        Ok((tx_eid, _)) => Ok((data, tx_eid, key[key.len() - 1])),
        Err(e) => Err(e),
    }
}

/// What stands behind the first byte of a key without transaction.
fn strip_atemporal_key(key: &[u8], expected_prefix: u8) -> (r: Result<Vec<u8>, Error>)
    ensures
        match r {
            Ok(data) => stripped_atemporal(key@, expected_prefix) == Ok::<Seq<u8>, ErrorView>(data@),
            Err(e) => stripped_atemporal(key@, expected_prefix) == Err::<Seq<u8>, ErrorView>(e@),
        },
{
    if key.len() == 0 || key[0] != expected_prefix {
        return Err(Error::WrongIndex(index_at(expected_prefix)));
    }
    if key.len() < 2 {
        return Err(Error::KeyTooShort);
    }
    let data = slice_of(key, 1, key.len());
    assert(data@ =~= key@.skip(1));
    Ok(data)
}

/// Reads a value, a number and a value.
fn read_value_number_value(s: &[u8]) -> (r: Result<(DataType, i64, DataType), Error>)
    ensures
        match r {
            Ok((x, a, y)) => value_number_value(s@) == Some((x@, a, y@)),
            Err(e) => e@ == ErrorView::Decode && value_number_value(s@) is None,
        },
{
    let (x, i) = match decode_datatype(s, 0) {
        Ok(found) => found,
        Err(e) => {
            return Err(e);
        },
    };
    let (a, j) = match decode_i64(s, i) {
        Ok(found) => found,
        Err(e) => {
            return Err(e);
        },
    };
    match decode_datatype(s, j) {
        Ok((y, _)) => Ok((x, a, y)),
        Err(e) => Err(e),
    }
}

/// Reads a number and two values.
fn read_number_value_value(s: &[u8]) -> (r: Result<(i64, DataType, DataType), Error>)
    ensures
        match r {
            Ok((a, x, y)) => number_value_value(s@) == Some((a, x@, y@)),
            Err(e) => e@ == ErrorView::Decode && number_value_value(s@) is None,
        },
{
    let (a, i) = match decode_i64(s, 0) {
        Ok(found) => found,
        Err(e) => {
            return Err(e);
        },
    };
    let (x, j) = match decode_datatype(s, i) {
        Ok(found) => found,
        Err(e) => {
            return Err(e);
        },
    };
    match decode_datatype(s, j) {
        Ok((y, _)) => Ok((a, x, y)),
        Err(e) => Err(e),
    }
}

/// Reads a number and a value.
fn read_number_value(s: &[u8]) -> (r: Result<(i64, DataType), Error>)
    ensures
        match r {
            Ok((a, x)) => number_value(s@) == Some((a, x@)),
            Err(e) => e@ == ErrorView::Decode && number_value(s@) is None,
        },
{
    let (a, i) = match decode_i64(s, 0) {
        Ok(found) => found,
        Err(e) => {
            return Err(e);
        },
    };
    match decode_datatype(s, i) {
        Ok((x, _)) => Ok((a, x)),
        Err(e) => Err(e),
    }
}

/// What the parts of a key with a value, a number and a value are.
pub open spec fn vnv_view(r: Result<(DataType, i64, DataType, i64, u8), Error>) -> Result<
    (Value, i64, Value, i64, u8),
    ErrorView,
> {
    match r {
        Ok((x, a, y, tx_eid, op)) => Ok((x@, a, y@, tx_eid, op)),
        Err(e) => Err(e@),
    }
}

/// What the parts of a key with a number and two values are.
pub open spec fn nvv_view(r: Result<(i64, DataType, DataType, i64, u8), Error>) -> Result<
    (i64, Value, Value, i64, u8),
    ErrorView,
> {
    match r {
        Ok((a, x, y, tx_eid, op)) => Ok((a, x@, y@, tx_eid, op)),
        Err(e) => Err(e@),
    }
}

/// What the parts of a key with a number and a value are.
pub open spec fn nv_view(r: Result<(i64, DataType), Error>) -> Result<(i64, Value), ErrorView> {
    match r {
        Ok((a, x)) => Ok((a, x@)),
        Err(e) => Err(e@),
    }
}

/// The parts of a key of a value, a number and a value, with transaction and operation.
pub fn vnv_key_to_parts(key: &[u8], index: u8) -> (r: Result<
    (DataType, i64, DataType, i64, u8),
    Error,
>)
    ensures
        vnv_view(r) == vnv_parts(key@, index),
{
    let (data, tx_eid, op) = match strip_temporal_key(key, index) {
        Ok(found) => found,
        Err(e) => {
            return Err(e);
        },
    };
    match read_value_number_value(&data) {
        Ok((first, attribute, last)) => Ok((first, attribute, last, tx_eid, op)),
        Err(e) => Err(e),
    }
}

/// Entity, attribute, value, transaction and operation of a key.
pub fn eav_key_to_parts(key: &[u8]) -> (r: Result<(DataType, i64, DataType, i64, u8), Error>)
    ensures
        vnv_view(r) == vnv_parts(key@, codec::EAV),
{
    vnv_key_to_parts(key, codec::EAV)
}

/// Attribute, value, entity, transaction and operation of a key.
pub fn ave_key_to_parts(key: &[u8]) -> (r: Result<(i64, DataType, DataType, i64, u8), Error>)
    ensures
        nvv_view(r) == nvv_parts(key@, codec::AVE),
{
    let (data, tx_eid, op) = match strip_temporal_key(key, codec::AVE) {
        Ok(found) => found,
        Err(e) => {
            return Err(e);
        },
    };
    match read_number_value_value(&data) {
        Ok((attribute, value, entity)) => Ok((attribute, value, entity, tx_eid, op)),
        Err(e) => Err(e),
    }
}

/// Attribute, entity, value, transaction and operation of a key.
pub fn aev_key_to_parts(key: &[u8]) -> (r: Result<(i64, DataType, DataType, i64, u8), Error>)
    ensures
        nvv_view(r) == nvv_parts(key@, codec::AEV),
{
    let (data, tx_eid, op) = match strip_temporal_key(key, codec::AEV) {
        Ok(found) => found,
        Err(e) => {
            return Err(e);
        },
    };
    match read_number_value_value(&data) {
        Ok((attribute, entity, value)) => Ok((attribute, entity, value, tx_eid, op)),
        Err(e) => Err(e),
    }
}

/// Value, attribute, entity, transaction and operation of a key.
pub fn vae_key_to_parts(key: &[u8]) -> (r: Result<(DataType, i64, DataType, i64, u8), Error>)
    ensures
        vnv_view(r) == vnv_parts(key@, codec::VAE),
{
    vnv_key_to_parts(key, codec::VAE)
}

/// Attribute and entity of a key.
pub fn ae_key_to_parts(key: &[u8]) -> (r: Result<(i64, DataType), Error>)
    ensures
        nv_view(r) == nv_parts(key@, codec::AE),
{
    match strip_atemporal_key(key, codec::AE) {
        Ok(data) => read_number_value(&data),
        Err(e) => Err(e),
    }
}

/// Attribute and value of a key.
pub fn av_key_to_parts(key: &[u8]) -> (r: Result<(i64, DataType), Error>)
    ensures
        nv_view(r) == nv_parts(key@, codec::AV),
{
    match strip_atemporal_key(key, codec::AV) {
        Ok(data) => read_number_value(&data),
        Err(e) => Err(e),
    }
}

/// A number reads back from where it was written.
proof fn lemma_number_at(before: Seq<u8>, x: i64, after: Seq<u8>)
    ensures
        number_at(before + codec::i64_bytes(x) + after, before.len() as int) == Some(
            (x, (before.len() + 8) as int),
        ),
{
    let s = before + codec::i64_bytes(x) + after;
    codec::lemma_be_len((i64::MAX - x) as nat, 8);
    assert(s.subrange(before.len() as int, (before.len() + 8) as int) =~= codec::i64_bytes(x));
    codec::law_i64_order(x, x);
}

/// A value reads back from where it was written.
proof fn lemma_value_at(before: Seq<u8>, v: Value, after: Seq<u8>)
    ensures
        value_at(before + codec::encoding(v) + after, before.len() as int) == Some(
            (v, (before.len() + codec::encoding(v).len()) as int),
        ),
{
    let s = before + codec::encoding(v) + after;
    assert(s.skip(before.len() as int) =~= codec::encoding(v) + after);
    codec::law_decode_encoded(v, after);
}

/// A key is stripped of what was put around its data.
proof fn lemma_stripped(index: u8, data: Seq<u8>, tx_eid: i64, op: u8)
    ensures
        stripped(seq![index] + data + suffix(tx_eid, op), index) == Ok::<
            (Seq<u8>, i64, u8),
            ErrorView,
        >((data, tx_eid, op)),
{
    let key = seq![index] + data + suffix(tx_eid, op);
    codec::lemma_be_len((i64::MAX - tx_eid) as nat, 8);
    lemma_number_at(seq![index] + data, tx_eid, seq![op]);
    assert(key =~= seq![index] + data + codec::i64_bytes(tx_eid) + seq![op]);
    assert(key.subrange(1, key.len() - codec::TX_EID_OP_SUFFIX) =~= data);
}

/// The parts of a key are those it was made of: entity, attribute, value, transaction and
/// operation.
pub proof fn law_eav_key_round_trip(e: Value, a: i64, v: Value, tx_eid: i64, op: u8)
    ensures
        vnv_parts(eav_key(e, a, v, tx_eid, op), codec::EAV) == Ok::<
            (Value, i64, Value, i64, u8),
            ErrorView,
        >((e, a, v, tx_eid, op)),
{
    lemma_vnv(codec::EAV, e, a, v, tx_eid, op);
    assert(eav_key(e, a, v, tx_eid, op) =~= seq![codec::EAV] + (codec::encoding(e)
        + codec::i64_bytes(a) + codec::encoding(v)) + suffix(tx_eid, op));
}

/// The parts of a key are those it was made of: value, attribute, entity, transaction and
/// operation.
pub proof fn law_vae_key_round_trip(v: Value, a: i64, e: Value, tx_eid: i64, op: u8)
    ensures
        vnv_parts(vae_key(v, a, e, tx_eid, op), codec::VAE) == Ok::<
            (Value, i64, Value, i64, u8),
            ErrorView,
        >((v, a, e, tx_eid, op)),
{
    lemma_vnv(codec::VAE, v, a, e, tx_eid, op);
    assert(vae_key(v, a, e, tx_eid, op) =~= seq![codec::VAE] + (codec::encoding(v)
        + codec::i64_bytes(a) + codec::encoding(e)) + suffix(tx_eid, op));
}

/// The parts of a key are those it was made of: attribute, value, entity, transaction and
/// operation.
pub proof fn law_ave_key_round_trip(a: i64, v: Value, e: Value, tx_eid: i64, op: u8)
    ensures
        nvv_parts(ave_key(a, v, e, tx_eid, op), codec::AVE) == Ok::<
            (i64, Value, Value, i64, u8),
            ErrorView,
        >((a, v, e, tx_eid, op)),
{
    lemma_nvv(codec::AVE, a, v, e, tx_eid, op);
    assert(ave_key(a, v, e, tx_eid, op) =~= seq![codec::AVE] + (codec::i64_bytes(a)
        + codec::encoding(v) + codec::encoding(e)) + suffix(tx_eid, op));
}

/// The parts of a key are those it was made of: attribute, entity, value, transaction and
/// operation.
pub proof fn law_aev_key_round_trip(a: i64, e: Value, v: Value, tx_eid: i64, op: u8)
    ensures
        nvv_parts(aev_key(a, e, v, tx_eid, op), codec::AEV) == Ok::<
            (i64, Value, Value, i64, u8),
            ErrorView,
        >((a, e, v, tx_eid, op)),
{
    lemma_nvv(codec::AEV, a, e, v, tx_eid, op);
    assert(aev_key(a, e, v, tx_eid, op) =~= seq![codec::AEV] + (codec::i64_bytes(a)
        + codec::encoding(e) + codec::encoding(v)) + suffix(tx_eid, op));
}

/// The parts of a key are those it was made of: attribute and entity.
pub proof fn law_ae_key_round_trip(a: i64, e: Value)
    ensures
        nv_parts(ae_key(a, e), codec::AE) == Ok::<(i64, Value), ErrorView>((a, e)),
{
    lemma_nv(codec::AE, a, e);
}

/// The parts of a key are those it was made of: attribute and value.
pub proof fn law_av_key_round_trip(a: i64, v: Value)
    ensures
        nv_parts(av_key(a, v), codec::AV) == Ok::<(i64, Value), ErrorView>((a, v)),
{
    lemma_nv(codec::AV, a, v);
}

/// A key of a value, a number and a value reads back.
proof fn lemma_vnv(index: u8, x: Value, a: i64, y: Value, tx_eid: i64, op: u8)
    ensures
        vnv_parts(
            seq![index] + (codec::encoding(x) + codec::i64_bytes(a) + codec::encoding(y)) + suffix(
                tx_eid,
                op,
            ),
            index,
        ) == Ok::<(Value, i64, Value, i64, u8), ErrorView>((x, a, y, tx_eid, op)),
{
    let ex = codec::encoding(x);
    let na = codec::i64_bytes(a);
    let ey = codec::encoding(y);
    let none = Seq::<u8>::empty();
    let data = ex + na + ey;
    codec::lemma_be_len((i64::MAX - a) as nat, 8);
    lemma_value_at(none, x, na + ey);
    assert(none + ex + (na + ey) =~= data);
    lemma_number_at(ex, a, ey);
    lemma_value_at(ex + na, y, none);
    assert(ex + na + ey + none =~= data);
    lemma_stripped(index, data, tx_eid, op);
}

/// A key of a number and two values reads back.
proof fn lemma_nvv(index: u8, a: i64, x: Value, y: Value, tx_eid: i64, op: u8)
    ensures
        nvv_parts(
            seq![index] + (codec::i64_bytes(a) + codec::encoding(x) + codec::encoding(y)) + suffix(
                tx_eid,
                op,
            ),
            index,
        ) == Ok::<(i64, Value, Value, i64, u8), ErrorView>((a, x, y, tx_eid, op)),
{
    let na = codec::i64_bytes(a);
    let ex = codec::encoding(x);
    let ey = codec::encoding(y);
    let none = Seq::<u8>::empty();
    let data = na + ex + ey;
    codec::lemma_be_len((i64::MAX - a) as nat, 8);
    lemma_number_at(none, a, ex + ey);
    assert(none + na + (ex + ey) =~= data);
    lemma_value_at(na, x, ey);
    lemma_value_at(na + ex, y, none);
    assert(na + ex + ey + none =~= data);
    lemma_stripped(index, data, tx_eid, op);
}

/// A key of a number and a value reads back.
proof fn lemma_nv(index: u8, a: i64, x: Value)
    ensures
        nv_parts(seq![index] + codec::i64_bytes(a) + codec::encoding(x), index) == Ok::<
            (i64, Value),
            ErrorView,
        >((a, x)),
{
    let key = seq![index] + codec::i64_bytes(a) + codec::encoding(x);
    let na = codec::i64_bytes(a);
    let ex = codec::encoding(x);
    let none = Seq::<u8>::empty();
    codec::lemma_be_len((i64::MAX - a) as nat, 8);
    assert(key.skip(1) =~= na + ex);
    lemma_number_at(none, a, ex);
    assert(none + na + ex =~= na + ex);
    lemma_value_at(na, x, none);
    assert(na + ex + none =~= na + ex);
}

/// The byte of an operation.
pub open spec fn op_byte(op: DatomOp) -> u8 {
    match op {
        DatomOp::Assert => codec::ADD,
        DatomOp::Retract => codec::RETRACT,
    }
}

/// The entries of a fact: one in each of three indexes, one more where the attribute is unique,
/// and two more, without transaction, where it is asserted.
pub open spec fn entries_of(d: DatomView, info: AttributeInfo, tx_eid: i64) -> Seq<Seq<u8>> {
    let e = Value::Long(d.entity);
    let a = info.id;
    let op = op_byte(d.op);
    let always = seq![
        eav_key(e, a, d.value, tx_eid, op),
        ave_key(a, d.value, e, tx_eid, op),
        aev_key(a, e, d.value, tx_eid, op),
    ];
    let unique = if info.unique {
        seq![vae_key(d.value, a, e, tx_eid, op)]
    } else {
        Seq::empty()
    };
    let asserted = if d.op == DatomOp::Assert {
        seq![ae_key(a, e), av_key(a, d.value)]
    } else {
        Seq::empty()
    };
    always + unique + asserted
}

/// The entries of facts, whose attributes are all known.
pub open spec fn all_entries(datoms: Seq<DatomView>, schema: Schema, tx_eid: i64) -> Seq<Seq<u8>>
    decreases datoms.len(),
{
    if datoms.len() == 0 {
        Seq::empty()
    } else {
        all_entries(datoms.drop_last(), schema, tx_eid) + entries_of(
            datoms.last(),
            schema.find(datoms.last().attribute).unwrap(),
            tx_eid,
        )
    }
}

/// Whether the attributes of all facts are known.
pub open spec fn all_known(datoms: Seq<DatomView>, schema: Schema) -> bool {
    forall|i: int| 0 <= i < datoms.len() ==> schema.find((#[trigger] datoms[i]).attribute) is Some
}

/// The attribute of the first fact whose attribute is not known.
pub open spec fn first_unknown(datoms: Seq<DatomView>, schema: Schema) -> Option<Seq<char>>
    decreases datoms.len(),
{
    if datoms.len() == 0 {
        None
    } else {
        match first_unknown(datoms.drop_last(), schema) {
            Some(name) => Some(name),
            None => if schema.find(datoms.last().attribute) is None {
                Some(datoms.last().attribute)
            } else {
                None
            },
        }
    }
}

/// The first fact with an unknown attribute decides.
pub proof fn lemma_first_unknown(datoms: Seq<DatomView>, schema: Schema, n: int)
    requires
        0 <= n < datoms.len(),
        all_known(datoms.take(n), schema),
        schema.find(datoms[n].attribute) is None,
    ensures
        first_unknown(datoms, schema) == Some(datoms[n].attribute),
    decreases datoms.len(),
{
    let front = datoms.drop_last();
    if n < front.len() {
        assert(front.take(n) =~= datoms.take(n));
        lemma_first_unknown(front, schema, n);
    } else {
        assert(front =~= datoms.take(n));
        lemma_none_unknown(front, schema);
    }
}

/// Where there is none, all attributes are known.
pub proof fn lemma_all_known(datoms: Seq<DatomView>, schema: Schema)
    requires
        first_unknown(datoms, schema) is None,
    ensures
        all_known(datoms, schema),
    decreases datoms.len(),
{
    if datoms.len() > 0 {
        let front = datoms.drop_last();
        lemma_all_known(front, schema);
        assert forall|i: int| 0 <= i < datoms.len() implies schema.find(
            (#[trigger] datoms[i]).attribute,
        ) is Some by {
            if i < front.len() {
                assert(front[i] == datoms[i]);
            }
        }
    }
}

/// Among facts with known attributes there is none.
pub proof fn lemma_none_unknown(datoms: Seq<DatomView>, schema: Schema)
    requires
        all_known(datoms, schema),
    ensures
        first_unknown(datoms, schema) is None,
    decreases datoms.len(),
{
    if datoms.len() > 0 {
        assert forall|i: int| 0 <= i < datoms.drop_last().len() implies schema.find(
            (#[trigger] datoms.drop_last()[i]).attribute,
        ) is Some by {
            assert(datoms[i] == datoms.drop_last()[i]);
        }
        lemma_none_unknown(datoms.drop_last(), schema);
        assert(schema.find(datoms[datoms.len() - 1].attribute) is Some);
    }
}

/// Adds a key to a batch.
fn put(batch: &mut Vec<Vec<u8>>, key: Vec<u8>)
    ensures
        final(batch).deep_view() == old(batch).deep_view().push(key@),
{
    let ghost earlier = *batch;
    let ghost bytes = key;
    proof {
        crate::byte_string::lemma_deep_bytes(&key);
    }
    batch.push(key);
    proof {
        crate::byte_string::lemma_deep_push(earlier, *batch, bytes);
    }
}

/// The first byte of a key followed by three parts, transaction and operation.
pub fn temporal_key(
    index: u8,
    first: &[u8],
    second: &[u8],
    third: &[u8],
    tx_eid_bytes: &[u8],
    op: u8,
) -> (r: Vec<u8>)
    ensures
        r@ == seq![index] + first@ + second@ + third@ + (tx_eid_bytes@ + seq![op]),
{
    let mut key: Vec<u8> = Vec::new();
    key.push(index);
    append_bytes(&mut key, first);
    append_bytes(&mut key, second);
    append_bytes(&mut key, third);
    append_bytes(&mut key, tx_eid_bytes);
    key.push(op);
    assert(key@ =~= seq![index] + first@ + second@ + third@ + (tx_eid_bytes@ + seq![op]));
    key
}

/// The first byte of a key followed by two parts.
fn atemporal_key(index: u8, first: &[u8], second: &[u8]) -> (r: Vec<u8>)
    ensures
        r@ == seq![index] + first@ + second@,
{
    let mut key: Vec<u8> = Vec::new();
    key.push(index);
    append_bytes(&mut key, first);
    append_bytes(&mut key, second);
    assert(key@ =~= seq![index] + first@ + second@);
    key
}

/// Adds the entries of facts to a batch. A fact with an unknown attribute is refused; the
/// entries of those before it are then in the batch.
pub fn write_index_entries(
    batch: &mut Vec<Vec<u8>>,
    datoms: &[Datom],
    schema: &Schema,
    tx_eid: i64,
) -> (r: Result<(), Error>)
    ensures
        match r {
            Ok(_) => all_known(datoms.deep_view(), *schema) && final(batch).deep_view() == old(
                batch,
            ).deep_view() + all_entries(datoms.deep_view(), *schema, tx_eid),
            Err(e) => exists|n: int|
                0 <= n < datoms@.len() && e@ == ErrorView::UnknownAttribute(
                    datoms.deep_view()[n].attribute,
                ) && schema.find(
                    (#[trigger] datoms.deep_view()[n]).attribute,
                ) is None && all_known(datoms.deep_view().take(n), *schema)
                    && final(batch).deep_view() == old(batch).deep_view() + all_entries(
                    datoms.deep_view().take(n),
                    *schema,
                    tx_eid,
                ),
        },
{
    let ghost start = batch.deep_view();
    let ghost facts = datoms.deep_view();
    assert(facts.len() == datoms@.len());
    let tx_eid_bytes = codec::encode_i64_bytes(tx_eid);
    let mut i: usize = 0;
    assert(batch.deep_view() =~= start + all_entries(facts.take(0), *schema, tx_eid));
    while i < datoms.len()
        invariant
            i <= datoms@.len() == facts.len(),
            facts == datoms.deep_view(),
            start == old(batch).deep_view(),
            tx_eid_bytes@ == codec::i64_bytes(tx_eid),
            all_known(facts.take(i as int), *schema),
            batch.deep_view() == start + all_entries(facts.take(i as int), *schema, tx_eid),
        decreases datoms@.len() - i,
    {
        let ghost d = facts[i as int];
        proof {
            assert(d == datoms@[i as int]@);
            assert(facts.take(i + 1).drop_last() =~= facts.take(i as int));
            assert(facts.take(i + 1).last() == d);
        }
        let info = match schema.get_attribute(&datoms[i].attribute) {
            Some(info) => info,
            None => {
                return Err(Error::UnknownAttribute(datoms[i].attribute.name.clone()));
            },
        };
        let attr_bytes = codec::encode_i64_bytes(info.id);
        let entity = codec::encode(&DataType::Long(datoms[i].entity));
        let value = codec::encode(&datoms[i].value);
        let op: u8 = match datoms[i].op {
            DatomOp::Assert => codec::ADD,
            DatomOp::Retract => codec::RETRACT,
        };
        let ghost before = batch.deep_view();
        put(batch, temporal_key(codec::EAV, &entity, &attr_bytes, &value, &tx_eid_bytes, op));
        put(batch, temporal_key(codec::AVE, &attr_bytes, &value, &entity, &tx_eid_bytes, op));
        put(batch, temporal_key(codec::AEV, &attr_bytes, &entity, &value, &tx_eid_bytes, op));
        if info.unique {
            put(batch, temporal_key(codec::VAE, &value, &attr_bytes, &entity, &tx_eid_bytes, op));
        }
        if datoms[i].op == DatomOp::Assert {
            put(batch, atemporal_key(codec::AE, &attr_bytes, &entity));
            put(batch, atemporal_key(codec::AV, &attr_bytes, &value));
        }
        proof {
            assert(batch.deep_view() =~= before + entries_of(d, info, tx_eid));
            assert(batch.deep_view() =~= start + all_entries(facts.take(i + 1), *schema, tx_eid));
            assert forall|k: int| 0 <= k < facts.take(i + 1).len() implies schema.find(
                (#[trigger] facts.take(i + 1)[k]).attribute,
            ) is Some by {
                if k < i {
                    assert(facts.take(i as int)[k] == facts.take(i + 1)[k]);
                }
            }
        }
        i += 1;
    }
    assert(facts.take(i as int) =~= facts);
    Ok(())
}

/// Whether a key is not one of an index: it does not begin with the byte of the index.
pub open spec fn foreign(key: Seq<u8>, index_type: IndexType) -> bool {
    key.len() == 0 || key[0] != codec::index_prefix(index_type)
}

/// A key is read only as one of its own index, and only if it is long enough for its transaction and
/// its operation, or for something behind its first byte.
pub proof fn law_foreign_keys(
    key: &[u8],
    eav: Result<(DataType, i64, DataType, i64, u8), Error>,
    ave: Result<(i64, DataType, DataType, i64, u8), Error>,
    aev: Result<(i64, DataType, DataType, i64, u8), Error>,
    vae: Result<(DataType, i64, DataType, i64, u8), Error>,
    ae: Result<(i64, DataType), Error>,
    av: Result<(i64, DataType), Error>,
)
    requires
        call_ensures(eav_key_to_parts, (key,), eav),
        call_ensures(ave_key_to_parts, (key,), ave),
        call_ensures(aev_key_to_parts, (key,), aev),
        call_ensures(vae_key_to_parts, (key,), vae),
        call_ensures(ae_key_to_parts, (key,), ae),
        call_ensures(av_key_to_parts, (key,), av),
    ensures
        foreign(key@, IndexType::EAV) == (eav matches Err(Error::WrongIndex(i)) && i
            == IndexType::EAV),
        foreign(key@, IndexType::AVE) == (ave matches Err(Error::WrongIndex(i)) && i
            == IndexType::AVE),
        foreign(key@, IndexType::AEV) == (aev matches Err(Error::WrongIndex(i)) && i
            == IndexType::AEV),
        foreign(key@, IndexType::VAE) == (vae matches Err(Error::WrongIndex(i)) && i
            == IndexType::VAE),
        foreign(key@, IndexType::AE) == (ae matches Err(Error::WrongIndex(i)) && i
            == IndexType::AE),
        foreign(key@, IndexType::AV) == (av matches Err(Error::WrongIndex(i)) && i
            == IndexType::AV),
        !foreign(key@, IndexType::EAV) ==> (eav matches Err(Error::KeyTooShort)) == (key@.len()
            < 10),
        !foreign(key@, IndexType::AVE) ==> (ave matches Err(Error::KeyTooShort)) == (key@.len()
            < 10),
        !foreign(key@, IndexType::AEV) ==> (aev matches Err(Error::KeyTooShort)) == (key@.len()
            < 10),
        !foreign(key@, IndexType::VAE) ==> (vae matches Err(Error::KeyTooShort)) == (key@.len()
            < 10),
        !foreign(key@, IndexType::AE) ==> (ae matches Err(Error::KeyTooShort)) == (key@.len() < 2),
        !foreign(key@, IndexType::AV) ==> (av matches Err(Error::KeyTooShort)) == (key@.len() < 2),
{
}

} // verus!
