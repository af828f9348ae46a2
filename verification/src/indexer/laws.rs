//! What is read of the indexes as of a transaction is what was written up to it.

use vstd::prelude::*;

use crate::byte_string;
use crate::codec;
use crate::indexer::basis::{self, IndexedFact};
use crate::indexer::keys;
use crate::iterator::temporal_filter_iterator;
use crate::ops::DatomView;
use crate::schema::AttributeInfo;
use crate::value::Value;

verus! {

/// A version of a logical key: the transaction that wrote it, and the operation.
pub struct Version {
    pub logical: Seq<u8>,
    pub tx_eid: i64,
    pub op: u8,
}

/// The keys of versions.
pub open spec fn version_keys(versions: Seq<Version>) -> Seq<Seq<u8>> {
    Seq::new(
        versions.len(),
        |i: int| versions[i].logical + keys::suffix(versions[i].tx_eid, versions[i].op),
    )
}

/// Whether a version comes before another of the same logical key: the later transaction first,
/// and of one transaction the smaller operation.
pub open spec fn newer(a: Version, b: Version) -> bool {
    a.tx_eid > b.tx_eid || (a.tx_eid == b.tx_eid && a.op < b.op)
}

/// Whether a logical key holds as of a transaction: its newest version up to then is no
/// retraction.
pub open spec fn holds(versions: Seq<Version>, logical: Seq<u8>, as_of: i64) -> bool {
    exists|i: int|
        0 <= i < versions.len() && (#[trigger] versions[i]).logical == logical
            && versions[i].tx_eid <= as_of && versions[i].op != codec::RETRACT && forall|j: int|
            0 <= j < versions.len() && (#[trigger] versions[j]).logical == logical
                && versions[j].tx_eid <= as_of ==> !newer(versions[j], versions[i])
}

/// The parts of the key of a version.
pub proof fn lemma_version_parts(v: Version)
    ensures
        ({
            let key = v.logical + keys::suffix(v.tx_eid, v.op);
            &&& temporal_filter_iterator::logical(key) == v.logical
            &&& temporal_filter_iterator::transaction_of(key) == codec::i64_bytes(v.tx_eid)
            &&& key.last() == v.op
            &&& key.len() == v.logical.len() + 9
        }),
{
    codec::law_i64_order(v.tx_eid, v.tx_eid);
    let key = v.logical + keys::suffix(v.tx_eid, v.op);
    assert(temporal_filter_iterator::logical(key) =~= v.logical);
    assert(temporal_filter_iterator::transaction_of(key) =~= codec::i64_bytes(v.tx_eid));
}

/// Versions of one logical key stand with the newer ones first.
proof fn lemma_newer_first(a: Version, b: Version)
    requires
        a.logical == b.logical,
    ensures
        byte_string::before(
            a.logical + keys::suffix(a.tx_eid, a.op),
            b.logical + keys::suffix(b.tx_eid, b.op),
        ) == newer(a, b),
{
    let x = codec::i64_bytes(a.tx_eid);
    let y = codec::i64_bytes(b.tx_eid);
    codec::law_i64_order(a.tx_eid, b.tx_eid);
    codec::law_i64_order(b.tx_eid, a.tx_eid);
    temporal_filter_iterator::lemma_before_common(a.logical, x + seq![a.op], y + seq![b.op]);
    if a.tx_eid == b.tx_eid {
        temporal_filter_iterator::lemma_before_common(x, seq![a.op], seq![b.op]);
        assert(seq![a.op].drop_first() =~= Seq::<u8>::empty());
        assert(seq![b.op].drop_first() =~= Seq::<u8>::empty());
        assert(!byte_string::before(Seq::<u8>::empty(), Seq::<u8>::empty()));
    } else if a.tx_eid > b.tx_eid {
        basis::lemma_before_followed(x, y, seq![a.op], seq![b.op]);
    } else {
        basis::lemma_before_followed(y, x, seq![b.op], seq![a.op]);
        byte_string::lemma_before_asymmetric(y + seq![b.op], x + seq![a.op]);
    }
}

/// A key that is visible is listed.
proof fn lemma_listed(raw: Seq<Seq<u8>>, as_of: Seq<u8>, cut: int, p: int, q: int)
    requires
        0 <= p <= q < raw.len(),
        temporal_filter_iterator::visible_at(raw, as_of, q),
    ensures
        temporal_filter_iterator::visible_from(raw, as_of, cut, p).contains(
            temporal_filter_iterator::middle(raw[q], cut),
        ),
    decreases q - p,
{
    let list = temporal_filter_iterator::visible_from(raw, as_of, cut, p);
    let entry = temporal_filter_iterator::middle(raw[q], cut);
    if p == q {
        assert(list[0] == entry);
    } else {
        lemma_listed(raw, as_of, cut, p + 1, q);
        let rest = temporal_filter_iterator::visible_from(raw, as_of, cut, p + 1);
        let i = rest.index_of(entry);
        if temporal_filter_iterator::visible_at(raw, as_of, p) {
            assert(list[i + 1] == entry);
        } else {
            assert(list[i] == entry);
        }
    }
}

/// A key is visible as of a transaction exactly if it is the newest version of its logical key up
/// to then and no retraction.
proof fn lemma_visible_version(versions: Seq<Version>, prefix: Seq<u8>, as_of: i64, q: int)
    requires
        temporal_filter_iterator::temporal_keys(version_keys(versions), prefix),
        0 <= q < versions.len(),
    ensures
        temporal_filter_iterator::visible_at(
            version_keys(versions),
            codec::i64_bytes(as_of),
            q,
        ) == (versions[q].tx_eid <= as_of && versions[q].op != codec::RETRACT && forall|j: int|
            0 <= j < versions.len() && (#[trigger] versions[j]).logical == versions[q].logical
                && versions[j].tx_eid <= as_of ==> !newer(versions[j], versions[q])),
{
    let raw = version_keys(versions);
    let t = codec::i64_bytes(as_of);
    assert forall|i: int| 0 <= i < versions.len() implies {
        &&& temporal_filter_iterator::logical(#[trigger] raw[i]) == versions[i].logical
        &&& raw[i].last() == versions[i].op
        &&& temporal_filter_iterator::in_time(raw[i], t) == (versions[i].tx_eid <= as_of)
    } by {
        lemma_version_parts(versions[i]);
        codec::law_i64_order(versions[i].tx_eid, as_of);
    }
    assert forall|i: int, j: int|
        0 <= i < versions.len() && 0 <= j < versions.len() && versions[i].logical
            == versions[j].logical && i != j implies (i < j) == newer(
        #[trigger] versions[i],
        #[trigger] versions[j],
    ) by {
        lemma_newer_first(versions[i], versions[j]);
        assert(raw[i] == versions[i].logical + keys::suffix(versions[i].tx_eid, versions[i].op));
        assert(raw[j] == versions[j].logical + keys::suffix(versions[j].tx_eid, versions[j].op));
        if i < j {
            assert(byte_string::before(raw[i], raw[j]));
        } else {
            assert(byte_string::before(raw[j], raw[i]));
            byte_string::lemma_before_asymmetric(raw[j], raw[i]);
        }
    }
    assert(!newer(versions[q], versions[q]));
    if temporal_filter_iterator::visible_at(raw, t, q) {
        assert forall|j: int|
            0 <= j < versions.len() && (#[trigger] versions[j]).logical == versions[q].logical
                && versions[j].tx_eid <= as_of implies !newer(versions[j], versions[q]) by {
            assert(temporal_filter_iterator::logical(raw[j]) == versions[j].logical);
        }
    }
    if versions[q].tx_eid <= as_of && versions[q].op != codec::RETRACT && (forall|j: int|
        0 <= j < versions.len() && (#[trigger] versions[j]).logical == versions[q].logical
            && versions[j].tx_eid <= as_of ==> !newer(versions[j], versions[q])) {
        assert forall|j: int|
            0 <= j < q && temporal_filter_iterator::logical(#[trigger] raw[j])
                == temporal_filter_iterator::logical(
                raw[q],
            ) implies !temporal_filter_iterator::in_time(raw[j], t) by {
            assert(versions[j].logical == versions[q].logical);
            assert((j < q) == newer(versions[j], versions[q]));
        }
    }
}

/// A cursor over an index as of a transaction shows a logical key exactly if it holds as of then:
/// if its newest version up to the transaction is no retraction.
pub proof fn law_visible_is_held(
    versions: Seq<Version>,
    prefix: Seq<u8>,
    as_of: i64,
    logical: Seq<u8>,
)
    requires
        temporal_filter_iterator::temporal_keys(version_keys(versions), prefix),
        byte_string::begins_with(logical, prefix),
    ensures
        temporal_filter_iterator::visible_from(
            version_keys(versions),
            codec::i64_bytes(as_of),
            prefix.len() as int,
            0,
        ).contains(logical.skip(prefix.len() as int)) == holds(versions, logical, as_of),
{
    let raw = version_keys(versions);
    let t = codec::i64_bytes(as_of);
    let cut = prefix.len() as int;
    let list = temporal_filter_iterator::visible_from(raw, t, cut, 0);
    let entry = logical.skip(cut);
    if list.contains(entry) {
        let n = list.index_of(entry);
        let q = temporal_filter_iterator::lemma_visible_source(raw, t, cut, 0, n);
        lemma_version_parts(versions[q]);
        lemma_visible_version(versions, prefix, as_of, q);
        assert(byte_string::begins_with(raw[q], prefix));
        assert(versions[q].logical.take(cut) =~= raw[q].take(cut));
        assert(temporal_filter_iterator::middle(raw[q], cut) =~= versions[q].logical.skip(cut));
        assert(versions[q].logical =~= prefix + versions[q].logical.skip(cut));
        assert(logical =~= prefix + logical.skip(cut));
        assert(versions[q].logical == logical);
    }
    if holds(versions, logical, as_of) {
        let q = choose|i: int|
            0 <= i < versions.len() && (#[trigger] versions[i]).logical == logical
                && versions[i].tx_eid <= as_of && versions[i].op != codec::RETRACT && forall|
                j: int,
            |
                0 <= j < versions.len() && (#[trigger] versions[j]).logical == logical
                    && versions[j].tx_eid <= as_of ==> !newer(versions[j], versions[i]);
        lemma_visible_version(versions, prefix, as_of, q);
        lemma_version_parts(versions[q]);
        lemma_listed(raw, t, cut, 0, q);
        assert(temporal_filter_iterator::middle(raw[q], cut) =~= entry);
    }
}

/// What two byte strings begin with is what begins both, where they have the same length.
proof fn lemma_begin_apart(a: Seq<u8>, b: Seq<u8>, x: Seq<u8>, y: Seq<u8>)
    requires
        a.len() == b.len(),
        byte_string::begins_with(a + x, b + y),
    ensures
        a == b,
        byte_string::begins_with(x, y),
{
    let n = (b + y).len() as int;
    assert((a + x).take(n).take(b.len() as int) =~= a);
    assert((b + y).take(b.len() as int) =~= b);
    assert(x.take(y.len() as int) =~= (a + x).take(n).skip(b.len() as int));
    assert((b + y).skip(b.len() as int) =~= y);
}

/// An encoding that begins another, whatever follows, is the other.
pub proof fn lemma_encoding_apart(v: Value, w: Value, x: Seq<u8>, y: Seq<u8>)
    requires
        byte_string::begins_with(codec::encoding(v) + x, codec::encoding(w) + y),
    ensures
        v == w,
        byte_string::begins_with(x, y),
{
    codec::law_decode_encoded(v, x);
    let s = codec::encoding(v) + x;
    let t = codec::encoding(w) + y;
    let rest = s.skip(t.len() as int);
    assert(s =~= t + rest);
    assert(s =~= codec::encoding(w) + (y + rest));
    codec::law_decode_encoded(w, y + rest);
    lemma_begin_apart(codec::encoding(v), codec::encoding(w), x, y);
}

/// What a key of a value, a number and a value says.
pub open spec fn vnv_logical(index: u8, x: Value, a: i64, y: Value) -> Seq<u8> {
    seq![index] + codec::encoding(x) + codec::i64_bytes(a) + codec::encoding(y)
}

/// What a key of a number and two values says.
pub open spec fn nvv_logical(index: u8, a: i64, x: Value, y: Value) -> Seq<u8> {
    seq![index] + codec::i64_bytes(a) + codec::encoding(x) + codec::encoding(y)
}

/// A key of a value, a number and a value that begins another is the other.
pub proof fn lemma_vnv_apart(index: u8, s: (Value, i64, Value), t: (Value, i64, Value))
    requires
        byte_string::begins_with(
            vnv_logical(index, s.0, s.1, s.2),
            vnv_logical(index, t.0, t.1, t.2),
        ),
    ensures
        s == t,
{
    let (x, a, y) = s;
    let (z, b, w) = t;
    let none = Seq::<u8>::empty();
    let s1 = codec::i64_bytes(a) + (codec::encoding(y) + none);
    let t1 = codec::i64_bytes(b) + (codec::encoding(w) + none);
    codec::law_i64_order(a, b);
    codec::law_i64_order(b, a);
    assert(vnv_logical(index, x, a, y) =~= seq![index] + (codec::encoding(x) + s1));
    assert(vnv_logical(index, z, b, w) =~= seq![index] + (codec::encoding(z) + t1));
    lemma_begin_apart(seq![index], seq![index], codec::encoding(x) + s1, codec::encoding(z) + t1);
    lemma_encoding_apart(x, z, s1, t1);
    lemma_begin_apart(
        codec::i64_bytes(a),
        codec::i64_bytes(b),
        codec::encoding(y) + none,
        codec::encoding(w) + none,
    );
    lemma_encoding_apart(y, w, none, none);
}

/// A key of a number and two values that begins another is the other.
pub proof fn lemma_nvv_apart(index: u8, s: (i64, Value, Value), t: (i64, Value, Value))
    requires
        byte_string::begins_with(
            nvv_logical(index, s.0, s.1, s.2),
            nvv_logical(index, t.0, t.1, t.2),
        ),
    ensures
        s == t,
{
    let (a, x, y) = s;
    let (b, z, w) = t;
    let none = Seq::<u8>::empty();
    let s1 = codec::encoding(x) + (codec::encoding(y) + none);
    let t1 = codec::encoding(z) + (codec::encoding(w) + none);
    codec::law_i64_order(a, b);
    codec::law_i64_order(b, a);
    assert(nvv_logical(index, a, x, y) =~= seq![index] + (codec::i64_bytes(a) + s1));
    assert(nvv_logical(index, b, z, w) =~= seq![index] + (codec::i64_bytes(b) + t1));
    lemma_begin_apart(seq![index], seq![index], codec::i64_bytes(a) + s1, codec::i64_bytes(b) + t1);
    lemma_begin_apart(codec::i64_bytes(a), codec::i64_bytes(b), s1, t1);
    lemma_encoding_apart(x, z, codec::encoding(y) + none, codec::encoding(w) + none);
    lemma_encoding_apart(y, w, none, none);
}

/// Whether versions are those of facts in an index with entity, attribute and value in that order
/// of kinds: a value, a number and a value.
pub open spec fn vnv_versions(versions: Seq<Version>, index: u8) -> bool {
    forall|i: int|
        0 <= i < versions.len() ==> is_vnv((#[trigger] versions[i]).logical, index)
}

/// Whether a logical key says a value, a number and a value.
pub open spec fn is_vnv(logical: Seq<u8>, index: u8) -> bool {
    exists|x: Value, a: i64, y: Value| logical == #[trigger] vnv_logical(index, x, a, y)
}

/// The same for a number and two values.
pub open spec fn nvv_versions(versions: Seq<Version>, index: u8) -> bool {
    forall|i: int|
        0 <= i < versions.len() ==> exists|a: i64, x: Value, y: Value|
            (#[trigger] versions[i]).logical == nvv_logical(index, a, x, y)
}

/// Whether keys stand in order, each once.
pub open spec fn ascending(raw: Seq<Seq<u8>>) -> bool {
    forall|i: int, j: int|
        0 <= i < j < raw.len() ==> byte_string::before(#[trigger] raw[i], #[trigger] raw[j])
}

/// The keys of the index by entity, attribute and value, and of that by value, attribute and
/// entity, can be read as of a transaction: no fact begins another.
pub proof fn law_vnv_keys_are_temporal(versions: Seq<Version>, index: u8)
    requires
        ascending(version_keys(versions)),
        vnv_versions(versions, index),
    ensures
        temporal_filter_iterator::temporal_keys(version_keys(versions), seq![index]),
{
    let raw = version_keys(versions);
    assert forall|i: int| 0 <= i < raw.len() implies byte_string::begins_with(
        #[trigger] raw[i],
        seq![index],
    ) && raw[i].len() >= 1 + 9 by {
        lemma_version_parts(versions[i]);
        assert(is_vnv(versions[i].logical, index));
        let (x, a, y) = choose|x: Value, a: i64, y: Value|
            versions[i].logical == #[trigger] vnv_logical(index, x, a, y);
        assert(raw[i].take(1) =~= seq![index]);
    }
    assert forall|i: int, j: int|
        0 <= i < raw.len() && 0 <= j < raw.len() && byte_string::begins_with(
            temporal_filter_iterator::logical(#[trigger] raw[j]),
            temporal_filter_iterator::logical(#[trigger] raw[i]),
        ) implies temporal_filter_iterator::logical(raw[i]) == temporal_filter_iterator::logical(
        raw[j],
    ) by {
        lemma_version_parts(versions[i]);
        lemma_version_parts(versions[j]);
        assert(is_vnv(versions[j].logical, index) && is_vnv(versions[i].logical, index));
        let (x, a, y) = choose|x: Value, a: i64, y: Value|
            versions[j].logical == #[trigger] vnv_logical(index, x, a, y);
        let (z, b, w) = choose|x: Value, a: i64, y: Value|
            versions[i].logical == #[trigger] vnv_logical(index, x, a, y);
        lemma_vnv_apart(index, (x, a, y), (z, b, w));
    }
}

/// The keys of the indexes by attribute first can be read as of a transaction: no fact begins
/// another.
pub proof fn law_nvv_keys_are_temporal(versions: Seq<Version>, index: u8)
    requires
        ascending(version_keys(versions)),
        nvv_versions(versions, index),
    ensures
        temporal_filter_iterator::temporal_keys(version_keys(versions), seq![index]),
{
    let raw = version_keys(versions);
    assert forall|i: int| 0 <= i < raw.len() implies byte_string::begins_with(
        #[trigger] raw[i],
        seq![index],
    ) && raw[i].len() >= 1 + 9 by {
        lemma_version_parts(versions[i]);
        let (a, x, y) = choose|a: i64, x: Value, y: Value|
            versions[i].logical == nvv_logical(index, a, x, y);
        assert(raw[i].take(1) =~= seq![index]);
    }
    assert forall|i: int, j: int|
        0 <= i < raw.len() && 0 <= j < raw.len() && byte_string::begins_with(
            temporal_filter_iterator::logical(#[trigger] raw[j]),
            temporal_filter_iterator::logical(#[trigger] raw[i]),
        ) implies temporal_filter_iterator::logical(raw[i]) == temporal_filter_iterator::logical(
        raw[j],
    ) by {
        lemma_version_parts(versions[i]);
        lemma_version_parts(versions[j]);
        let (a, x, y) = choose|a: i64, x: Value, y: Value|
            versions[j].logical == nvv_logical(index, a, x, y);
        let (b, z, w) = choose|a: i64, x: Value, y: Value|
            versions[i].logical == nvv_logical(index, a, x, y);
        lemma_nvv_apart(index, (a, x, y), (b, z, w));
    }
}

/// The versions that a written fact adds: one in each index that is read as of a transaction.
pub proof fn law_entries_are_versions(d: DatomView, info: AttributeInfo, tx_eid: i64)
    ensures
        ({
            let e = Value::Long(d.entity);
            let op = keys::op_byte(d.op);
            let entries = keys::entries_of(d, info, tx_eid);
            &&& entries[0] == vnv_logical(codec::EAV, e, info.id, d.value) + keys::suffix(
                tx_eid,
                op,
            )
            &&& entries[1] == nvv_logical(codec::AVE, info.id, d.value, e) + keys::suffix(
                tx_eid,
                op,
            )
            &&& entries[2] == nvv_logical(codec::AEV, info.id, e, d.value) + keys::suffix(
                tx_eid,
                op,
            )
            &&& info.unique ==> entries[3] == vnv_logical(codec::VAE, d.value, info.id, e)
                + keys::suffix(tx_eid, op)
        }),
{
}

/// The facts of an index, as versions.
pub open spec fn versions_of(facts: Seq<IndexedFact>) -> Seq<Version> {
    Seq::new(
        facts.len(),
        |i: int|
            Version {
                logical: vnv_logical(
                    codec::EAV,
                    Value::Long(facts[i].entity),
                    facts[i].attribute,
                    facts[i].value,
                ),
                tx_eid: facts[i].tx_eid,
                op: facts[i].op,
            },
    )
}

/// Whether a fact holds as of a transaction: of what was written of it up to then, the last thing
/// is no retraction.
pub open spec fn fact_holds(
    facts: Seq<IndexedFact>,
    entity: i64,
    attribute: i64,
    value: Value,
    as_of: i64,
) -> bool {
    holds(
        versions_of(facts),
        vnv_logical(codec::EAV, Value::Long(entity), attribute, value),
        as_of,
    )
}

/// Reading the index by entity, attribute and value as of a transaction gives a fact exactly if
/// it holds as of then.
pub proof fn law_read_gives_what_was_written(
    facts: Seq<IndexedFact>,
    entity: i64,
    attribute: i64,
    value: Value,
    as_of: i64,
)
    requires
        ascending(basis::keys_of(facts)),
    ensures
        temporal_filter_iterator::temporal_keys(basis::keys_of(facts), seq![codec::EAV]),
        temporal_filter_iterator::visible_from(
            basis::keys_of(facts),
            codec::i64_bytes(as_of),
            1,
            0,
        ).contains(
            codec::encoding(Value::Long(entity)) + codec::i64_bytes(attribute) + codec::encoding(
                value,
            ),
        ) == fact_holds(facts, entity, attribute, value, as_of),
{
    let versions = versions_of(facts);
    let logical = vnv_logical(codec::EAV, Value::Long(entity), attribute, value);
    assert(version_keys(versions) =~= basis::keys_of(facts));
    assert forall|i: int| 0 <= i < versions.len() implies is_vnv(
        (#[trigger] versions[i]).logical,
        codec::EAV,
    ) by {
        assert(versions[i].logical == vnv_logical(
            codec::EAV,
            Value::Long(facts[i].entity),
            facts[i].attribute,
            facts[i].value,
        ));
    }
    law_vnv_keys_are_temporal(versions, codec::EAV);
    assert(logical.take(1) =~= seq![codec::EAV]);
    law_visible_is_held(versions, seq![codec::EAV], as_of, logical);
    assert(logical.skip(1) =~= codec::encoding(Value::Long(entity)) + codec::i64_bytes(attribute)
        + codec::encoding(value));
}

} // verus!
