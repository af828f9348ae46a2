//! A pattern over the indexes matches exactly the facts that hold.

use vstd::prelude::*;

use crate::algo::generic_join;
use crate::byte_string::{self, Row};
use crate::codec;
use crate::indexer::basis::IndexedFact;
use crate::indexer::keys;
use crate::indexer::laws::{self, Version};
use crate::iterator::generic_prefix_extender;
use crate::iterator::slate_iterator;
use crate::iterator::stored_pattern;
use crate::iterator::temporal_filter_iterator;
use crate::ops::{DatomOp, DatomView};
use crate::query::meaning;
use crate::query::patterns::triple::ScanView;
use crate::schema::AttributeInfo;
use crate::value::{IndexType, Value};

verus! {

/// What the key of a fact says in an index by attribute first.
pub open spec fn said(index: u8, f: IndexedFact) -> Seq<u8> {
    if index == codec::AEV {
        laws::nvv_logical(index, f.attribute, Value::Long(f.entity), f.value)
    } else {
        laws::nvv_logical(index, f.attribute, f.value, Value::Long(f.entity))
    }
}

/// The key of a fact in an index by attribute first.
pub open spec fn versioned_key(index: u8, f: IndexedFact) -> Seq<u8> {
    said(index, f) + keys::suffix(f.tx_eid, f.op)
}

/// The key of a fact in an index without versions.
pub open spec fn plain_key(index: u8, f: IndexedFact) -> Seq<u8> {
    if index == codec::AE {
        keys::ae_key(f.attribute, Value::Long(f.entity))
    } else {
        keys::av_key(f.attribute, f.value)
    }
}

/// Whether an index with versions holds just the keys of facts.
#[verifier::opaque]
pub open spec fn versions_indexed(
    keys: Seq<Seq<u8>>,
    facts: Seq<IndexedFact>,
    index: u8,
) -> bool {
    &&& forall|i: int|
        0 <= i < facts.len() ==> keys.contains(versioned_key(index, #[trigger] facts[i]))
    &&& forall|key: Seq<u8>| #[trigger]
        keys.contains(key) && key.len() > 0 && key[0] == index ==> exists|i: int|
            0 <= i < facts.len() && key == versioned_key(index, #[trigger] facts[i])
}

/// Whether an index without versions holds just the keys of asserted facts.
#[verifier::opaque]
pub open spec fn plainly_indexed(
    keys: Seq<Seq<u8>>,
    facts: Seq<IndexedFact>,
    index: u8,
) -> bool {
    &&& forall|i: int|
        0 <= i < facts.len() && (#[trigger] facts[i]).op != codec::RETRACT ==> keys.contains(
            plain_key(index, facts[i]),
        )
    &&& forall|key: Seq<u8>| #[trigger]
        keys.contains(key) && key.len() > 0 && key[0] == index ==> exists|i: int|
            0 <= i < facts.len() && (#[trigger] facts[i]).op != codec::RETRACT && key == plain_key(
                index,
                facts[i],
            )
}

/// Whether the keys hold facts in the indexes by attribute first.
pub open spec fn indexed(keys: Seq<Seq<u8>>, facts: Seq<IndexedFact>) -> bool {
    &&& versions_indexed(keys, facts, codec::AEV)
    &&& versions_indexed(keys, facts, codec::AVE)
    &&& plainly_indexed(keys, facts, codec::AE)
    &&& plainly_indexed(keys, facts, codec::AV)
}

/// Facts as versions in an index by attribute first.
pub open spec fn versions_in(index: u8, facts: Seq<IndexedFact>) -> Seq<Version> {
    Seq::new(
        facts.len(),
        |i: int|
            Version { logical: said(index, facts[i]), tx_eid: facts[i].tx_eid, op: facts[i].op },
    )
}

/// Facts that are said the same way are the same fact.
proof fn lemma_said_once(index: u8, f: IndexedFact, g: IndexedFact)
    requires
        index == codec::AEV || index == codec::AVE,
        said(index, f) == said(index, g),
    ensures
        f.entity == g.entity,
        f.attribute == g.attribute,
        f.value == g.value,
{
    if index == codec::AEV {
        keys::law_aev_key_round_trip(f.attribute, Value::Long(f.entity), f.value, 0, 0);
        keys::law_aev_key_round_trip(g.attribute, Value::Long(g.entity), g.value, 0, 0);
    } else {
        keys::law_ave_key_round_trip(f.attribute, f.value, Value::Long(f.entity), 0, 0);
        keys::law_ave_key_round_trip(g.attribute, g.value, Value::Long(g.entity), 0, 0);
    }
}

/// Facts that are said the same way by entity first are the same fact.
proof fn lemma_said_once_by_entity(f: IndexedFact, g: IndexedFact)
    requires
        laws::vnv_logical(codec::EAV, Value::Long(f.entity), f.attribute, f.value)
            == laws::vnv_logical(codec::EAV, Value::Long(g.entity), g.attribute, g.value),
    ensures
        f.entity == g.entity,
        f.attribute == g.attribute,
        f.value == g.value,
{
    keys::law_eav_key_round_trip(Value::Long(f.entity), f.attribute, f.value, 0, 0);
    keys::law_eav_key_round_trip(Value::Long(g.entity), g.attribute, g.value, 0, 0);
}

/// Whether a fact holds is the same in every index.
proof fn lemma_holds_in(index: u8, facts: Seq<IndexedFact>, f: IndexedFact, as_of: i64)
    requires
        index == codec::AEV || index == codec::AVE,
    ensures
        laws::holds(versions_in(index, facts), said(index, f), as_of) == laws::fact_holds(
            facts,
            f.entity,
            f.attribute,
            f.value,
            as_of,
        ),
{
    let here = versions_in(index, facts);
    let there = laws::versions_of(facts);
    let this = said(index, f);
    let that = laws::vnv_logical(codec::EAV, Value::Long(f.entity), f.attribute, f.value);
    assert forall|i: int| 0 <= i < facts.len() implies ((#[trigger] here[i]).logical == this) == (
    there[i].logical == that) && here[i].tx_eid == there[i].tx_eid && here[i].op
        == there[i].op by {
        if here[i].logical == this {
            lemma_said_once(index, facts[i], f);
        }
        if there[i].logical == that {
            lemma_said_once_by_entity(facts[i], f);
        }
    }
    if laws::holds(here, this, as_of) {
        let i = choose|i: int|
            0 <= i < here.len() && (#[trigger] here[i]).logical == this && here[i].tx_eid <= as_of
                && here[i].op != codec::RETRACT && forall|j: int|
                0 <= j < here.len() && (#[trigger] here[j]).logical == this && here[j].tx_eid
                    <= as_of ==> !laws::newer(here[j], here[i]);
        assert forall|j: int|
            0 <= j < there.len() && (#[trigger] there[j]).logical == that && there[j].tx_eid
                <= as_of implies !laws::newer(there[j], there[i]) by {
            assert(here[j].logical == this);
        }
        assert(there[i].logical == that);
    }
    if laws::holds(there, that, as_of) {
        let i = choose|i: int|
            0 <= i < there.len() && (#[trigger] there[i]).logical == that && there[i].tx_eid
                <= as_of && there[i].op != codec::RETRACT && forall|j: int|
                0 <= j < there.len() && (#[trigger] there[j]).logical == that && there[j].tx_eid
                    <= as_of ==> !laws::newer(there[j], there[i]);
        assert(here[i].logical == this);
        assert forall|j: int|
            0 <= j < here.len() && (#[trigger] here[j]).logical == this && here[j].tx_eid
                <= as_of implies !laws::newer(here[j], here[i]) by {
            assert(there[j].logical == that);
        }
    }
}

/// The parts of a version follow from its key.
proof fn lemma_version_of_key(v: Version, w: Version)
    requires
        v.logical + keys::suffix(v.tx_eid, v.op) == w.logical + keys::suffix(w.tx_eid, w.op),
    ensures
        v == w,
{
    laws::lemma_version_parts(v);
    laws::lemma_version_parts(w);
    codec::law_i64_order(v.tx_eid, w.tx_eid);
    codec::law_i64_order(w.tx_eid, v.tx_eid);
    byte_string::lemma_before_irreflexive(codec::i64_bytes(v.tx_eid));
}

/// The fact of a key.
spec fn fact_at(facts: Seq<IndexedFact>, index: u8, key: Seq<u8>) -> int {
    choose|i: int| 0 <= i < facts.len() && key == versioned_key(index, #[trigger] facts[i])
}

/// What is selected under a prefix, as versions.
spec fn selected_versions(
    keys: Seq<Seq<u8>>,
    facts: Seq<IndexedFact>,
    index: u8,
    prefix: Seq<u8>,
) -> Seq<Version> {
    let raw = stored_pattern::selected(keys, prefix, 9);
    Seq::new(raw.len(), |k: int| versions_in(index, facts)[fact_at(facts, index, raw[k])])
}

/// What is selected under a prefix are the versions whose keys begin with it.
proof fn lemma_selected_versions(
    keys: Seq<Seq<u8>>,
    facts: Seq<IndexedFact>,
    index: u8,
    prefix: Seq<u8>,
)
    requires
        index == codec::AEV || index == codec::AVE,
        stored_pattern::index_keys(keys),
        versions_indexed(keys, facts, index),
        prefix.len() > 0,
        prefix[0] == index,
    ensures
        laws::version_keys(selected_versions(keys, facts, index, prefix))
            == stored_pattern::selected(keys, prefix, 9),
        forall|k: int|
            0 <= k < selected_versions(keys, facts, index, prefix).len() ==> versions_in(
                index,
                facts,
            ).contains(#[trigger] selected_versions(keys, facts, index, prefix)[k]),
        forall|i: int|
            0 <= i < facts.len() && byte_string::begins_with(
                #[trigger] versions_in(index, facts)[i].logical,
                prefix,
            ) ==> selected_versions(keys, facts, index, prefix).contains(
                versions_in(index, facts)[i],
            ),
{
    reveal(versions_indexed);
    let raw = stored_pattern::selected(keys, prefix, 9);
    let all = versions_in(index, facts);
    let some = selected_versions(keys, facts, index, prefix);
    stored_pattern::lemma_selected(keys, prefix, 9);
    assert forall|k: int| 0 <= k < raw.len() implies {
        &&& all.contains(#[trigger] some[k])
        &&& some[k].logical + keys::suffix(some[k].tx_eid, some[k].op) == raw[k]
    } by {
        assert(raw[k].take(prefix.len() as int)[0] == prefix[0]);
        assert(keys.contains(raw[k]));
        let i = fact_at(facts, index, raw[k]);
        assert(all[i] == some[k]);
    }
    assert(laws::version_keys(some) =~= raw);
    assert forall|i: int|
        0 <= i < facts.len() && byte_string::begins_with(
            #[trigger] all[i].logical,
            prefix,
        ) implies some.contains(all[i]) by {
        let key = versioned_key(index, facts[i]);
        laws::lemma_version_parts(all[i]);
        assert(keys.contains(key));
        assert(key.take(prefix.len() as int) =~= all[i].logical.take(prefix.len() as int));
        assert(raw.contains(key));
        let k = raw.index_of(key);
        assert(some[k].logical + keys::suffix(some[k].tx_eid, some[k].op) == raw[k]);
        lemma_version_of_key(some[k], all[i]);
    }
}

/// Among the versions under a prefix a logical key with that prefix holds exactly if it holds
/// among all.
proof fn lemma_holds_selected(
    keys: Seq<Seq<u8>>,
    facts: Seq<IndexedFact>,
    index: u8,
    prefix: Seq<u8>,
    logical: Seq<u8>,
    as_of: i64,
)
    requires
        index == codec::AEV || index == codec::AVE,
        stored_pattern::index_keys(keys),
        versions_indexed(keys, facts, index),
        prefix.len() > 0,
        prefix[0] == index,
        byte_string::begins_with(logical, prefix),
    ensures
        laws::holds(selected_versions(keys, facts, index, prefix), logical, as_of) == laws::holds(
            versions_in(index, facts),
            logical,
            as_of,
        ),
{
    let all = versions_in(index, facts);
    let some = selected_versions(keys, facts, index, prefix);
    lemma_selected_versions(keys, facts, index, prefix);
    if laws::holds(some, logical, as_of) {
        let k = choose|k: int|
            0 <= k < some.len() && (#[trigger] some[k]).logical == logical && some[k].tx_eid
                <= as_of && some[k].op != codec::RETRACT && forall|j: int|
                0 <= j < some.len() && (#[trigger] some[j]).logical == logical && some[j].tx_eid
                    <= as_of ==> !laws::newer(some[j], some[k]);
        let i = all.index_of(some[k]);
        assert(all.contains(some[k]));
        assert(all[i] == some[k]);
        assert forall|j: int|
            0 <= j < all.len() && (#[trigger] all[j]).logical == logical && all[j].tx_eid
                <= as_of implies !laws::newer(all[j], all[i]) by {
            assert(some.contains(all[j]));
            let m = some.index_of(all[j]);
            assert(some[m] == all[j]);
        }
    }
    if laws::holds(all, logical, as_of) {
        let i = choose|i: int|
            0 <= i < all.len() && (#[trigger] all[i]).logical == logical && all[i].tx_eid <= as_of
                && all[i].op != codec::RETRACT && forall|j: int|
                0 <= j < all.len() && (#[trigger] all[j]).logical == logical && all[j].tx_eid
                    <= as_of ==> !laws::newer(all[j], all[i]);
        assert(some.contains(all[i]));
        let k = some.index_of(all[i]);
        assert(some[k] == all[i]);
        assert forall|j: int|
            0 <= j < some.len() && (#[trigger] some[j]).logical == logical && some[j].tx_eid
                <= as_of implies !laws::newer(some[j], some[k]) by {
            assert(all.contains(some[j]));
            let m = all.index_of(some[j]);
            assert(all[m] == some[j]);
        }
    }
}

/// A scan of an index by attribute first shows, behind whatever it begins with, just what is said
/// of the facts that hold.
pub proof fn law_scan_shows_held_facts(
    keys: Seq<Seq<u8>>,
    facts: Seq<IndexedFact>,
    scan: ScanView,
    f: IndexedFact,
    as_of: i64,
)
    requires
        stored_pattern::index_keys(keys),
        scan.index_type == IndexType::AEV || scan.index_type == IndexType::AVE,
        versions_indexed(keys, facts, codec::index_prefix(scan.index_type)),
        scan.prefix.len() > 0,
        byte_string::begins_with(said(codec::index_prefix(scan.index_type), f), scan.prefix),
    ensures
        stored_pattern::scanned(keys, scan, as_of).contains(
            said(codec::index_prefix(scan.index_type), f).skip(scan.prefix.len() as int),
        ) == laws::fact_holds(facts, f.entity, f.attribute, f.value, as_of),
{
    let index = codec::index_prefix(scan.index_type);
    let logical = said(index, f);
    assert(logical[0] == index);
    assert(logical.take(scan.prefix.len() as int)[0] == logical[0]);
    lemma_selected_versions(keys, facts, index, scan.prefix);
    stored_pattern::lemma_selected_temporal(keys, scan.prefix);
    laws::law_visible_is_held(
        selected_versions(keys, facts, index, scan.prefix),
        scan.prefix,
        as_of,
        logical,
    );
    lemma_holds_selected(keys, facts, index, scan.prefix, logical, as_of);
    lemma_holds_in(index, facts, f, as_of);
}

/// A scan of an index with versions, behind an attribute and a value, shows the values of the
/// facts that hold.
proof fn lemma_scan_shows_held(
    keys: Seq<Seq<u8>>,
    facts: Seq<IndexedFact>,
    index_type: IndexType,
    f: IndexedFact,
    as_of: i64,
)
    requires
        stored_pattern::index_keys(keys),
        index_type == IndexType::AEV || index_type == IndexType::AVE,
        versions_indexed(keys, facts, codec::index_prefix(index_type)),
    ensures
        ({
            let e = codec::encoding(Value::Long(f.entity));
            let v = codec::encoding(f.value);
            let (first, second) = if index_type == IndexType::AEV {
                (e, v)
            } else {
                (v, e)
            };
            let prefix = seq![codec::index_prefix(index_type)] + codec::i64_bytes(f.attribute)
                + first;
            stored_pattern::scanned(keys, ScanView { index_type, prefix }, as_of).contains(second)
                == laws::fact_holds(facts, f.entity, f.attribute, f.value, as_of)
        }),
{
    let index = codec::index_prefix(index_type);
    let e = codec::encoding(Value::Long(f.entity));
    let v = codec::encoding(f.value);
    let (first, second) = if index_type == IndexType::AEV {
        (e, v)
    } else {
        (v, e)
    };
    let prefix = seq![index] + codec::i64_bytes(f.attribute) + first;
    let logical = said(index, f);
    assert(logical =~= prefix + second);
    assert(logical.take(prefix.len() as int) =~= prefix);
    assert(logical.skip(prefix.len() as int) =~= second);
    law_scan_shows_held_facts(keys, facts, ScanView { index_type, prefix }, f, as_of);
}

/// What a scan of an index with versions shows is said, behind what the scan begins with, of some
/// fact.
proof fn lemma_scan_source(
    keys: Seq<Seq<u8>>,
    facts: Seq<IndexedFact>,
    scan: ScanView,
    shown: Seq<u8>,
    as_of: i64,
) -> (i: int)
    requires
        stored_pattern::index_keys(keys),
        scan.index_type == IndexType::AEV || scan.index_type == IndexType::AVE,
        versions_indexed(keys, facts, codec::index_prefix(scan.index_type)),
        scan.prefix.len() > 0,
        scan.prefix[0] == codec::index_prefix(scan.index_type),
        stored_pattern::scanned(keys, scan, as_of).contains(shown),
    ensures
        0 <= i < facts.len(),
        said(codec::index_prefix(scan.index_type), facts[i]) == scan.prefix + shown,
{
    let index = codec::index_prefix(scan.index_type);
    let list = stored_pattern::scanned(keys, scan, as_of);
    let raw = stored_pattern::selected(keys, scan.prefix, 9);
    let cut = scan.prefix.len() as int;
    let n = list.index_of(shown);
    let q = temporal_filter_iterator::lemma_visible_source(
        raw,
        codec::i64_bytes(as_of),
        cut,
        0,
        n,
    );
    let key = raw[q];
    stored_pattern::lemma_selected(keys, scan.prefix, 9);
    assert(raw.contains(key));
    assert(key.take(cut)[0] == scan.prefix[0]);
    reveal(versions_indexed);
    assert(keys.contains(key));
    let i = choose|i: int| 0 <= i < facts.len() && key == versioned_key(index, #[trigger] facts[i]);
    let f = facts[i];
    laws::lemma_version_parts(Version { logical: said(index, f), tx_eid: f.tx_eid, op: f.op });
    assert(temporal_filter_iterator::logical(key) =~= scan.prefix + shown);
    i
}

/// Whether a fact of that entity, which need not be one, holds.
pub open spec fn held(
    facts: Seq<IndexedFact>,
    entity: Value,
    attribute: i64,
    value: Value,
    as_of: i64,
) -> bool {
    entity matches Value::Long(e) && laws::fact_holds(facts, e, attribute, value, as_of)
}

/// A scan of an index with versions, behind an attribute and a value, shows just the values with
/// which there is a fact that holds.
pub proof fn law_scan_shows_just_held(
    keys: Seq<Seq<u8>>,
    facts: Seq<IndexedFact>,
    index_type: IndexType,
    attribute: i64,
    first: Value,
    second: Value,
    as_of: i64,
)
    requires
        stored_pattern::index_keys(keys),
        index_type == IndexType::AEV || index_type == IndexType::AVE,
        versions_indexed(keys, facts, codec::index_prefix(index_type)),
    ensures
        ({
            let prefix = seq![codec::index_prefix(index_type)] + codec::i64_bytes(attribute)
                + codec::encoding(first);
            stored_pattern::scanned(keys, ScanView { index_type, prefix }, as_of).contains(
                codec::encoding(second),
            ) == if index_type == IndexType::AEV {
                held(facts, first, attribute, second, as_of)
            } else {
                held(facts, second, attribute, first, as_of)
            }
        }),
{
    let index = codec::index_prefix(index_type);
    let prefix = seq![index] + codec::i64_bytes(attribute) + codec::encoding(first);
    let scan = ScanView { index_type, prefix };
    let (entity, value) = if index_type == IndexType::AEV {
        (first, second)
    } else {
        (second, first)
    };
    match entity {
        Value::Long(e) => {
            let f = IndexedFact { entity: e, attribute, value, tx_eid: 0, op: 0 };
            lemma_scan_shows_held(keys, facts, index_type, f, as_of);
        },
        _ => {
            if stored_pattern::scanned(keys, scan, as_of).contains(codec::encoding(second)) {
                let i = lemma_scan_source(keys, facts, scan, codec::encoding(second), as_of);
                let f = facts[i];
                let asked = laws::nvv_logical(index, attribute, first, second);
                assert(asked =~= prefix + codec::encoding(second));
                assert(asked.take(asked.len() as int) =~= asked);
                let says = if index_type == IndexType::AEV {
                    (f.attribute, Value::Long(f.entity), f.value)
                } else {
                    (f.attribute, f.value, Value::Long(f.entity))
                };
                laws::lemma_nvv_apart(index, (attribute, first, second), says);
            }
        },
    }
}

/// A scan of an index with versions, behind an attribute alone, shows nothing that is one value.
pub proof fn law_scan_shows_no_lone_value(
    keys: Seq<Seq<u8>>,
    facts: Seq<IndexedFact>,
    index_type: IndexType,
    attribute: i64,
    value: Value,
    as_of: i64,
)
    requires
        stored_pattern::index_keys(keys),
        index_type == IndexType::AEV || index_type == IndexType::AVE,
        versions_indexed(keys, facts, codec::index_prefix(index_type)),
    ensures
        ({
            let prefix = seq![codec::index_prefix(index_type)] + codec::i64_bytes(attribute);
            !stored_pattern::scanned(keys, ScanView { index_type, prefix }, as_of).contains(
                codec::encoding(value),
            )
        }),
{
    let index = codec::index_prefix(index_type);
    let prefix = seq![index] + codec::i64_bytes(attribute);
    let scan = ScanView { index_type, prefix };
    let shown = codec::encoding(value);
    if stored_pattern::scanned(keys, scan, as_of).contains(shown) {
        let i = lemma_scan_source(keys, facts, scan, shown, as_of);
        let f = facts[i];
        let (a, b) = if index_type == IndexType::AEV {
            (Value::Long(f.entity), f.value)
        } else {
            (f.value, Value::Long(f.entity))
        };
        codec::law_i64_order(f.attribute, attribute);
        codec::law_i64_order(attribute, f.attribute);
        assert(said(index, f).skip(9) =~= codec::encoding(a) + codec::encoding(b));
        assert((prefix + shown).skip(9) =~= shown);
        codec::law_decode_encoded(a, codec::encoding(b));
        codec::law_decode_encoded(value, Seq::empty());
        codec::law_decode_encoded(b, Seq::empty());
        assert(shown + Seq::<u8>::empty() =~= shown);
        assert(codec::encoding(b).len() > 0);
    }
}

/// A scan of an index without versions shows what belongs to the attribute in some asserted fact.
proof fn lemma_scan_shows_asserted(
    keys: Seq<Seq<u8>>,
    facts: Seq<IndexedFact>,
    index_type: IndexType,
    f: IndexedFact,
    i: int,
    as_of: i64,
)
    requires
        stored_pattern::index_keys(keys),
        index_type == IndexType::AE || index_type == IndexType::AV,
        plainly_indexed(keys, facts, codec::index_prefix(index_type)),
        0 <= i < facts.len(),
        facts[i].op != codec::RETRACT,
        facts[i].attribute == f.attribute,
        facts[i].entity == f.entity,
        facts[i].value == f.value,
    ensures
        ({
            let shown = if index_type == IndexType::AE {
                codec::encoding(Value::Long(f.entity))
            } else {
                codec::encoding(f.value)
            };
            let prefix = seq![codec::index_prefix(index_type)] + codec::i64_bytes(f.attribute);
            stored_pattern::scanned(keys, ScanView { index_type, prefix }, as_of).contains(shown)
        }),
{
    let index = codec::index_prefix(index_type);
    let shown = if index_type == IndexType::AE {
        codec::encoding(Value::Long(f.entity))
    } else {
        codec::encoding(f.value)
    };
    let prefix = seq![index] + codec::i64_bytes(f.attribute);
    let n = prefix.len() as int;
    reveal(plainly_indexed);
    let key = plain_key(index, facts[i]);
    let raw = stored_pattern::selected(keys, prefix, 0);
    stored_pattern::lemma_selected(keys, prefix, 0);
    assert(key =~= prefix + shown);
    assert(key.take(n) =~= prefix);
    assert(keys.contains(key));
    assert(raw.contains(key));
    let k = raw.index_of(key);
    assert(slate_iterator::behind(raw, n)[k] =~= shown);
}

/// A fact that holds was asserted.
proof fn lemma_held_was_asserted(facts: Seq<IndexedFact>, f: IndexedFact, as_of: i64) -> (i: int)
    requires
        laws::fact_holds(facts, f.entity, f.attribute, f.value, as_of),
    ensures
        0 <= i < facts.len(),
        facts[i].op != codec::RETRACT,
        facts[i].attribute == f.attribute,
        facts[i].entity == f.entity,
        facts[i].value == f.value,
{
    let versions = laws::versions_of(facts);
    let logical = laws::vnv_logical(codec::EAV, Value::Long(f.entity), f.attribute, f.value);
    let i = choose|i: int|
        0 <= i < versions.len() && (#[trigger] versions[i]).logical == logical
            && versions[i].tx_eid <= as_of && versions[i].op != codec::RETRACT && forall|j: int|
            0 <= j < versions.len() && (#[trigger] versions[j]).logical == logical
                && versions[j].tx_eid <= as_of ==> !laws::newer(versions[j], versions[i]);
    lemma_said_once_by_entity(facts[i], f);
    i
}

/// What a pattern shows behind a prefix.
pub open spec fn shown_at(
    keys: Seq<Seq<u8>>,
    as_of: i64,
    indexes: Seq<IndexType>,
    constant: Seq<u8>,
    at: Seq<usize>,
    prefix: Row,
) -> Seq<Seq<u8>> {
    stored_pattern::scanned(keys, meaning::pattern_scan(indexes, constant, at, prefix), as_of)
}

/// The scans of a pattern of two variables.
pub proof fn lemma_two_scans(
    indexes: Seq<IndexType>,
    constant: Seq<u8>,
    at: Seq<usize>,
    row: Row,
)
    requires
        at.len() == 2,
        at[0] < at[1] < row.len(),
    ensures
        ({
            let i = at[0] as int;
            let j = at[1] as int;
            let plain = indexes[0];
            let versioned = indexes[1];
            &&& meaning::pattern_scan(indexes, constant, at, row.take(i)) == (ScanView {
                index_type: plain,
                prefix: seq![codec::index_prefix(plain)] + constant,
            })
            &&& meaning::pattern_scan(indexes, constant, at, row.take(j)) == (ScanView {
                index_type: versioned,
                prefix: seq![codec::index_prefix(versioned)] + constant + row[i],
            })
        }),
{
    let i = at[0] as int;
    let j = at[1] as int;
    assert(at.drop_last().drop_last() =~= Seq::<usize>::empty());
    assert(at.drop_last().last() == at[0]);
    reveal_with_fuel(generic_prefix_extender::levels_before, 3);
    reveal_with_fuel(generic_prefix_extender::bound_values, 3);
    assert(row.take(j)[i] == row[i]);
    let first = meaning::pattern_scan(indexes, constant, at, row.take(i));
    let second = meaning::pattern_scan(indexes, constant, at, row.take(j));
    assert(first.prefix =~= seq![codec::index_prefix(indexes[0])]
        + constant);
    assert(second.prefix =~= seq![codec::index_prefix(indexes[1])]
        + constant + row[i]);
}

/// The scan of a pattern of one variable.
pub proof fn lemma_one_scan(
    indexes: Seq<IndexType>,
    constant: Seq<u8>,
    at: Seq<usize>,
    row: Row,
)
    requires
        at.len() == 1,
        at[0] < row.len(),
    ensures
        meaning::pattern_scan(indexes, constant, at, row.take(at[0] as int)) == (ScanView {
            index_type: indexes[0],
            prefix: seq![codec::index_prefix(indexes[0])] + constant,
        }),
{
    assert(at.drop_last() =~= Seq::<usize>::empty());
    reveal_with_fuel(generic_prefix_extender::levels_before, 2);
    reveal_with_fuel(generic_prefix_extender::bound_values, 2);
    let scan = meaning::pattern_scan(indexes, constant, at, row.take(at[0] as int));
    assert(scan.prefix =~= seq![codec::index_prefix(indexes[0])] + constant);
}

/// A pattern of two variables over the indexes, first the entity and then the value or the other
/// way round, matches values of them exactly if the fact holds as of the transaction.
pub proof fn law_pattern_of_two_variables(
    keys: Seq<Seq<u8>>,
    as_of: i64,
    indexes: Seq<IndexType>,
    constant: Seq<u8>,
    at: Seq<usize>,
    facts: Seq<IndexedFact>,
    entity: i64,
    attribute: i64,
    value: Value,
    row: Row,
)
    requires
        stored_pattern::index_keys(keys),
        indexed(keys, facts),
        constant == codec::i64_bytes(attribute),
        at.len() == 2,
        at[0] < at[1] < row.len(),
        ({
            let first = row[at[0] as int];
            let second = row[at[1] as int];
            let e = codec::encoding(Value::Long(entity));
            let v = codec::encoding(value);
            ||| indexes == seq![IndexType::AE, IndexType::AEV] && first == e
                && second == v
            ||| indexes == seq![IndexType::AV, IndexType::AVE] && first == v
                && second == e
        }),
    ensures
        (shown_at(keys, as_of, indexes, constant, at, row.take(at[0] as int)).contains(
            row[at[0] as int],
        ) && shown_at(keys, as_of, indexes, constant, at, row.take(at[1] as int)).contains(
            row[at[1] as int],
        )) == laws::fact_holds(facts, entity, attribute, value, as_of),
{
    let f = IndexedFact { entity, attribute, value, tx_eid: 0, op: 0 };
    let plain = indexes[0];
    let versioned = indexes[1];
    lemma_two_scans(indexes, constant, at, row);
    lemma_scan_shows_held(keys, facts, versioned, f, as_of);
    if laws::fact_holds(facts, entity, attribute, value, as_of) {
        let n = lemma_held_was_asserted(facts, f, as_of);
        lemma_scan_shows_asserted(keys, facts, plain, f, n, as_of);
    }
}

/// A pattern of one variable over the indexes, with the entity or the value known, matches a value
/// of it exactly if the fact holds as of the transaction.
pub proof fn law_pattern_of_one_variable(
    keys: Seq<Seq<u8>>,
    as_of: i64,
    indexes: Seq<IndexType>,
    constant: Seq<u8>,
    at: Seq<usize>,
    facts: Seq<IndexedFact>,
    entity: i64,
    attribute: i64,
    value: Value,
    row: Row,
)
    requires
        stored_pattern::index_keys(keys),
        indexed(keys, facts),
        at.len() == 1,
        at[0] < row.len(),
        ({
            let found = row[at[0] as int];
            let e = codec::encoding(Value::Long(entity));
            let v = codec::encoding(value);
            let start = codec::i64_bytes(attribute);
            ||| indexes == seq![IndexType::AEV] && constant
                == start + e && found == v
            ||| indexes == seq![IndexType::AVE] && constant
                == start + v && found == e
        }),
    ensures
        shown_at(keys, as_of, indexes, constant, at, row.take(at[0] as int)).contains(
            row[at[0] as int],
        ) == laws::fact_holds(facts, entity, attribute, value, as_of),
{
    let f = IndexedFact { entity, attribute, value, tx_eid: 0, op: 0 };
    let i = at[0] as int;
    lemma_one_scan(indexes, constant, at, row);
    let scan = meaning::pattern_scan(indexes, constant, at, row.take(i));
    let index_type = indexes[0];
    let e = codec::encoding(Value::Long(entity));
    let v = codec::encoding(value);
    let known = if index_type == IndexType::AEV {
        e
    } else {
        v
    };
    assert(scan.prefix =~= seq![codec::index_prefix(index_type)] + codec::i64_bytes(attribute)
        + known);
    lemma_scan_shows_held(keys, facts, index_type, f, as_of);
}

/// What is written of a fact, as it stands in the indexes.
pub open spec fn written(d: DatomView, info: AttributeInfo, tx_eid: i64) -> IndexedFact {
    IndexedFact {
        entity: d.entity,
        attribute: info.id,
        value: d.value,
        tx_eid,
        op: keys::op_byte(d.op),
    }
}

/// The entries of a fact by their first bytes.
proof fn lemma_entries_by_index(d: DatomView, info: AttributeInfo, tx_eid: i64, key: Seq<u8>)
    ensures
        ({
            let f = written(d, info, tx_eid);
            let entries = keys::entries_of(d, info, tx_eid);
            &&& entries.contains(versioned_key(codec::AEV, f))
            &&& entries.contains(versioned_key(codec::AVE, f))
            &&& f.op != codec::RETRACT ==> entries.contains(plain_key(codec::AE, f))
                && entries.contains(plain_key(codec::AV, f))
            &&& entries.contains(key) ==> key.len() > 0
            &&& entries.contains(key) && key[0] == codec::AEV ==> key == versioned_key(
                codec::AEV,
                f,
            )
            &&& entries.contains(key) && key[0] == codec::AVE ==> key == versioned_key(
                codec::AVE,
                f,
            )
            &&& entries.contains(key) && key[0] == codec::AE ==> f.op != codec::RETRACT && key
                == plain_key(codec::AE, f)
            &&& entries.contains(key) && key[0] == codec::AV ==> f.op != codec::RETRACT && key
                == plain_key(codec::AV, f)
        }),
{
    let f = written(d, info, tx_eid);
    let e = Value::Long(d.entity);
    let op = keys::op_byte(d.op);
    let entries = keys::entries_of(d, info, tx_eid);
    let u: int = if info.unique {
        1
    } else {
        0
    };
    assert(entries[1] == versioned_key(codec::AVE, f));
    assert(entries[2] == versioned_key(codec::AEV, f));
    assert(keys::eav_key(e, info.id, d.value, tx_eid, op)[0] == codec::EAV);
    assert(keys::vae_key(d.value, info.id, e, tx_eid, op)[0] == codec::VAE);
    assert(versioned_key(codec::AVE, f)[0] == codec::AVE);
    assert(versioned_key(codec::AEV, f)[0] == codec::AEV);
    assert(plain_key(codec::AE, f)[0] == codec::AE);
    assert(plain_key(codec::AV, f)[0] == codec::AV);
    if f.op != codec::RETRACT {
        assert(entries[3 + u] == plain_key(codec::AE, f));
        assert(entries[4 + u] == plain_key(codec::AV, f));
    }
    if entries.contains(key) {
        let n = entries.index_of(key);
        assert(entries[n] == key);
        assert(n == 0 ==> key == keys::eav_key(e, info.id, d.value, tx_eid, op));
        assert(n == 3 && u == 1 ==> key == keys::vae_key(d.value, info.id, e, tx_eid, op));
        assert(n >= 3 + u ==> d.op == DatomOp::Assert && (n == 3 + u || n == 4 + u));
    }
}

/// Writing a fact adds it to what the indexes hold, and to nothing else.
pub proof fn law_write_adds_the_fact(
    before: Seq<Seq<u8>>,
    after: Seq<Seq<u8>>,
    facts: Seq<IndexedFact>,
    d: DatomView,
    info: AttributeInfo,
    tx_eid: i64,
)
    requires
        indexed(before, facts),
        forall|key: Seq<u8>| #[trigger]
            after.contains(key) == (before.contains(key) || keys::entries_of(
                d,
                info,
                tx_eid,
            ).contains(key)),
    ensures
        indexed(after, facts.push(written(d, info, tx_eid))),
{
    lemma_versions_added(before, after, facts, d, info, tx_eid, codec::AEV);
    lemma_versions_added(before, after, facts, d, info, tx_eid, codec::AVE);
    lemma_plain_added(before, after, facts, d, info, tx_eid, codec::AE);
    lemma_plain_added(before, after, facts, d, info, tx_eid, codec::AV);
}

/// Writing a fact adds its version to an index.
proof fn lemma_versions_added(
    before: Seq<Seq<u8>>,
    after: Seq<Seq<u8>>,
    facts: Seq<IndexedFact>,
    d: DatomView,
    info: AttributeInfo,
    tx_eid: i64,
    index: u8,
)
    requires
        index == codec::AEV || index == codec::AVE,
        versions_indexed(before, facts, index),
        forall|key: Seq<u8>| #[trigger]
            after.contains(key) == (before.contains(key) || keys::entries_of(
                d,
                info,
                tx_eid,
            ).contains(key)),
    ensures
        versions_indexed(after, facts.push(written(d, info, tx_eid)), index),
{
    reveal(versions_indexed);
    let f = written(d, info, tx_eid);
    let more = facts.push(f);
    assert forall|i: int| 0 <= i < more.len() implies after.contains(
        versioned_key(index, #[trigger] more[i]),
    ) by {
        if i < facts.len() {
            assert(more[i] == facts[i]);
            assert(before.contains(versioned_key(index, facts[i])));
        } else {
            lemma_entries_by_index(d, info, tx_eid, Seq::empty());
        }
    }
    assert forall|key: Seq<u8>| #[trigger]
        after.contains(key) && key.len() > 0 && key[0] == index implies exists|i: int|
        0 <= i < more.len() && key == versioned_key(index, #[trigger] more[i]) by {
        if before.contains(key) {
            let i = choose|i: int|
                0 <= i < facts.len() && key == versioned_key(index, #[trigger] facts[i]);
            assert(more[i] == facts[i]);
        } else {
            lemma_entries_by_index(d, info, tx_eid, key);
            assert(more[facts.len() as int] == f);
        }
    }
}

/// Writing an asserted fact adds its key to an index without versions.
proof fn lemma_plain_added(
    before: Seq<Seq<u8>>,
    after: Seq<Seq<u8>>,
    facts: Seq<IndexedFact>,
    d: DatomView,
    info: AttributeInfo,
    tx_eid: i64,
    index: u8,
)
    requires
        index == codec::AE || index == codec::AV,
        plainly_indexed(before, facts, index),
        forall|key: Seq<u8>| #[trigger]
            after.contains(key) == (before.contains(key) || keys::entries_of(
                d,
                info,
                tx_eid,
            ).contains(key)),
    ensures
        plainly_indexed(after, facts.push(written(d, info, tx_eid)), index),
{
    reveal(plainly_indexed);
    let f = written(d, info, tx_eid);
    let more = facts.push(f);
    assert forall|i: int|
        0 <= i < more.len() && (#[trigger] more[i]).op != codec::RETRACT implies after.contains(
        plain_key(index, more[i]),
    ) by {
        if i < facts.len() {
            assert(more[i] == facts[i]);
            assert(before.contains(plain_key(index, facts[i])));
        } else {
            lemma_entries_by_index(d, info, tx_eid, Seq::empty());
        }
    }
    assert forall|key: Seq<u8>| #[trigger]
        after.contains(key) && key.len() > 0 && key[0] == index implies exists|i: int|
        0 <= i < more.len() && (#[trigger] more[i]).op != codec::RETRACT && key == plain_key(
            index,
            more[i],
        ) by {
        if before.contains(key) {
            let i = choose|i: int|
                0 <= i < facts.len() && (#[trigger] facts[i]).op != codec::RETRACT && key
                    == plain_key(index, facts[i]);
            assert(more[i] == facts[i]);
        } else {
            lemma_entries_by_index(d, info, tx_eid, key);
            assert(more[facts.len() as int] == f);
        }
    }
}

/// Whether a key is an entry of some fact.
pub open spec fn is_entry(key: Seq<u8>) -> bool {
    exists|d: DatomView, info: AttributeInfo, tx_eid: i64| #[trigger]
        keys::entries_of(d, info, tx_eid).contains(key)
}

/// What an entry with a version says.
proof fn lemma_entry_says(key: Seq<u8>) -> (r: (Value, i64, Value))
    requires
        is_entry(key),
        stored_pattern::versioned(key),
    ensures
        key[0] == codec::EAV || key[0] == codec::VAE ==> temporal_filter_iterator::logical(key)
            == laws::vnv_logical(key[0], r.0, r.1, r.2),
        key[0] != codec::EAV && key[0] != codec::VAE ==> temporal_filter_iterator::logical(key)
            == laws::nvv_logical(key[0], r.1, r.0, r.2),
{
    let (d, info, tx_eid) = choose|d: DatomView, info: AttributeInfo, tx_eid: i64| #[trigger]
        keys::entries_of(d, info, tx_eid).contains(key);
    let entries = keys::entries_of(d, info, tx_eid);
    let e = Value::Long(d.entity);
    let a = info.id;
    let op = keys::op_byte(d.op);
    let n = entries.index_of(key);
    assert(entries[n] == key);
    lemma_entries_by_index(d, info, tx_eid, key);
    let says = if key[0] == codec::EAV || key[0] == codec::AEV {
        (e, a, d.value)
    } else {
        (d.value, a, e)
    };
    let logical = if key[0] == codec::EAV || key[0] == codec::VAE {
        laws::vnv_logical(key[0], says.0, a, says.2)
    } else {
        laws::nvv_logical(key[0], a, says.0, says.2)
    };
    laws::lemma_version_parts(Version { logical, tx_eid, op });
    assert(keys::eav_key(e, a, d.value, tx_eid, op)[0] == codec::EAV);
    assert(keys::vae_key(d.value, a, e, tx_eid, op)[0] == codec::VAE);
    assert(versioned_key(codec::AVE, written(d, info, tx_eid))[0] == codec::AVE);
    assert(versioned_key(codec::AEV, written(d, info, tx_eid))[0] == codec::AEV);
    assert(plain_key(codec::AE, written(d, info, tx_eid))[0] == codec::AE);
    assert(plain_key(codec::AV, written(d, info, tx_eid))[0] == codec::AV);
    assert(key =~= logical + keys::suffix(tx_eid, op));
    says
}

/// Entries in order make indexes that can be read as of a transaction: no fact begins another.
pub proof fn law_entries_are_index_keys(list: Seq<Seq<u8>>)
    requires
        generic_join::ascending(list),
        forall|i: int| 0 <= i < list.len() ==> is_entry(#[trigger] list[i]),
    ensures
        stored_pattern::index_keys(list),
{
    assert forall|i: int, j: int|
        0 <= i < list.len() && 0 <= j < list.len() && stored_pattern::versioned(list[i])
            && stored_pattern::versioned(list[j]) && byte_string::begins_with(
            temporal_filter_iterator::logical(#[trigger] list[j]),
            temporal_filter_iterator::logical(#[trigger] list[i]),
        ) implies temporal_filter_iterator::logical(list[i]) == temporal_filter_iterator::logical(
        list[j],
    ) by {
        let s = temporal_filter_iterator::logical(list[j]);
        let t = temporal_filter_iterator::logical(list[i]);
        assert(s.take(t.len() as int)[0] == t[0]);
        let x = lemma_entry_says(list[j]);
        let y = lemma_entry_says(list[i]);
        if list[i][0] == codec::EAV || list[i][0] == codec::VAE {
            laws::lemma_vnv_apart(list[i][0], x, y);
        } else {
            laws::lemma_nvv_apart(list[i][0], (x.1, x.0, x.2), (y.1, y.0, y.2));
        }
    }
}

} // verus!
