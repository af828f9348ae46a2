//! Who owns unique values.

use vstd::prelude::*;

use crate::byte_string;
use crate::codec::{self, decode, encode, encode_i64};
use crate::error::{self, Error, ErrorView};
use crate::indexer::basis::IndexedFact;
use crate::indexer::commit::{self, read_first};
use crate::indexer::laws::{self, Version};
use crate::indexer::one_value;
use crate::indexer::unique_value;
use crate::iterator::index::Index;
use crate::iterator::temporal_filter_iterator;
use crate::value::{DataType, Keyword, Value};

verus! {

/// With what the entries of a value's owners begin, in the index by value, attribute and entity.
pub open spec fn owner_prefix(attribute: i64, value: Value) -> Seq<u8> {
    codec::encoding(value) + codec::i64_bytes(attribute)
}

/// The owner that stands behind a prefix.
pub open spec fn owner_of(rest: Option<Seq<u8>>) -> Result<Option<i64>, ErrorView> {
    match rest {
        None => Ok(None),
        Some(bytes) => match codec::decoded(bytes) {
            None => Err(ErrorView::Decode),
            Some((Value::Long(entity), _)) => Ok(Some(entity)),
            Some((other, _)) => Err(ErrorView::OwnerNotLong(other)),
        },
    }
}

/// The owner of a value among the visible entries of the index by value, attribute and entity:
/// the entity of the first entry of the value and the attribute.
pub open spec fn owner_in(entries: Seq<Seq<u8>>, attribute: i64, value: Value) -> Result<
    Option<i64>,
    ErrorView,
> {
    owner_of(commit::first_rest(entries, owner_prefix(attribute, value)))
}

/// The owner that stands behind a prefix.
fn read_owner(rest: &Option<Vec<u8>>) -> (r: Result<Option<i64>, Error>)
    ensures
        error::told(r) == owner_of(commit::bytes_of(*rest)),
{
    match rest {
        None => Ok(None),
        Some(bytes) => match decode(bytes) {
            Ok(DataType::Long(entity)) => Ok(Some(entity)),
            Ok(other) => Err(Error::OwnerNotLong(other)),
            Err(e) => Err(e),
        },
    }
}

/// The owners of values, looked up with a cursor over the visible entries of the index by value,
/// attribute and entity.
pub fn find_owners<I: Index>(
    lookups: &Vec<(i64, DataType, i64, Keyword)>,
    iterator: &mut I,
) -> (r: Result<Vec<Option<i64>>, Error>)
    requires
        old(iterator).inv(),
        old(iterator).position() == 0,
    ensures
        match r {
            Ok(owners) => owners@.len() == lookups@.len() && forall|i: int|
                0 <= i < owners@.len() ==> owner_in(
                    old(iterator).entries(),
                    lookups@[i].0,
                    lookups@[i].1@,
                ) == Ok::<Option<i64>, ErrorView>(#[trigger] owners@[i]),
            Err(e) => !old(iterator).reliable() || exists|i: int|
                0 <= i < lookups@.len() && owner_in(
                    old(iterator).entries(),
                    (#[trigger] lookups@[i]).0,
                    lookups@[i].1@,
                ) == Err::<Option<i64>, ErrorView>(e@) && forall|j: int|
                    0 <= j < i ==> owner_in(
                        old(iterator).entries(),
                        (#[trigger] lookups@[j]).0,
                        lookups@[j].1@,
                    ) is Ok,
        },
{
    let ghost entries = iterator.entries();
    let mut prefixes: Vec<Vec<u8>> = Vec::new();
    let mut i: usize = 0;
    while i < lookups.len()
        invariant
            i <= lookups@.len(),
            prefixes@.len() == i,
            prefixes.deep_view().len() == i,
            forall|j: int|
                0 <= j < i ==> #[trigger] prefixes.deep_view()[j] == owner_prefix(
                    lookups@[j].0,
                    lookups@[j].1@,
                ),
        decreases lookups@.len() - i,
    {
        let mut prefix = encode(&lookups[i].1);
        encode_i64(lookups[i].0, &mut prefix);
        let ghost earlier = prefixes;
        let ghost added = prefix;
        prefixes.push(prefix);
        proof {
            byte_string::lemma_deep_bytes(&added);
            byte_string::lemma_deep_push(earlier, prefixes, added);
        }
        i += 1;
    }
    let found = match read_first(&prefixes, iterator) {
        Ok(found) => found,
        Err(e) => {
            return Err(e);
        },
    };
    let mut owners: Vec<Option<i64>> = Vec::new();
    let mut k: usize = 0;
    while k < found.len()
        invariant
            k <= found@.len() == lookups@.len(),
            owners@.len() == k,
            entries == old(iterator).entries(),
            forall|j: int|
                0 <= j < found@.len() ==> commit::bytes_of(#[trigger] found@[j])
                    == commit::first_rest(
                    entries,
                    owner_prefix(lookups@[j].0, lookups@[j].1@),
                ),
            forall|j: int|
                0 <= j < k ==> owner_in(entries, lookups@[j].0, lookups@[j].1@) == Ok::<
                    Option<i64>,
                    ErrorView,
                >(#[trigger] owners@[j]),
        decreases found@.len() - k,
    {
        match read_owner(&found[k]) {
            Ok(owner) => {
                owners.push(owner);
            },
            Err(e) => {
                proof {
                    assert(owner_in(entries, lookups@[k as int].0, lookups@[k as int].1@) == Err::<
                        Option<i64>,
                        ErrorView,
                    >(e@));
                    assert forall|j: int| 0 <= j < k implies owner_in(
                        entries,
                        (#[trigger] lookups@[j]).0,
                        lookups@[j].1@,
                    ) is Ok by {
                        assert(owner_in(entries, lookups@[j].0, lookups@[j].1@) == Ok::<
                            Option<i64>,
                            ErrorView,
                        >(owners@[j]));
                    }
                }
                return Err(e);
            },
        }
        k += 1;
    }
    Ok(owners)
}

/// The facts in the index by value, attribute and entity, as versions.
pub open spec fn owner_versions(facts: Seq<IndexedFact>) -> Seq<Version> {
    Seq::new(
        facts.len(),
        |i: int|
            Version {
                logical: laws::vnv_logical(
                    codec::VAE,
                    facts[i].value,
                    facts[i].attribute,
                    Value::Long(facts[i].entity),
                ),
                tx_eid: facts[i].tx_eid,
                op: facts[i].op,
            },
    )
}

/// What is visible now in the index by value, attribute and entity.
pub open spec fn visible_owners(facts: Seq<IndexedFact>) -> Seq<Seq<u8>> {
    temporal_filter_iterator::visible_from(
        laws::version_keys(owner_versions(facts)),
        codec::i64_bytes(i64::MAX),
        1,
        0,
    )
}

/// Keys tell their facts apart.
proof fn lemma_apart(f: IndexedFact, entity: i64, attribute: i64, value: Value)
    ensures
        (laws::vnv_logical(codec::VAE, f.value, f.attribute, Value::Long(f.entity))
            == laws::vnv_logical(codec::VAE, value, attribute, Value::Long(entity)))
            == one_value::says(f, entity, attribute, value),
{
    let a = laws::vnv_logical(codec::VAE, f.value, f.attribute, Value::Long(f.entity));
    let b = laws::vnv_logical(codec::VAE, value, attribute, Value::Long(entity));
    if a == b {
        assert(a.take(b.len() as int) =~= b);
        laws::lemma_vnv_apart(
            codec::VAE,
            (f.value, f.attribute, Value::Long(f.entity)),
            (value, attribute, Value::Long(entity)),
        );
    }
}

/// An entry is visible just where its fact holds.
proof fn lemma_visible_owner(facts: Seq<IndexedFact>, entity: i64, attribute: i64, value: Value)
    requires
        laws::ascending(laws::version_keys(owner_versions(facts))),
    ensures
        visible_owners(facts).contains(
            owner_prefix(attribute, value) + codec::encoding(Value::Long(entity)),
        ) == laws::fact_holds(facts, entity, attribute, value, i64::MAX),
{
    let versions = owner_versions(facts);
    let logical = laws::vnv_logical(codec::VAE, value, attribute, Value::Long(entity));
    assert forall|i: int| 0 <= i < versions.len() implies laws::is_vnv(
        (#[trigger] versions[i]).logical,
        codec::VAE,
    ) by {
        assert(versions[i].logical == laws::vnv_logical(
            codec::VAE,
            facts[i].value,
            facts[i].attribute,
            Value::Long(facts[i].entity),
        ));
    }
    laws::law_vnv_keys_are_temporal(versions, codec::VAE);
    assert(logical.take(1) =~= seq![codec::VAE]);
    laws::law_visible_is_held(versions, seq![codec::VAE], i64::MAX, logical);
    assert(logical.skip(1) =~= owner_prefix(attribute, value) + codec::encoding(
        Value::Long(entity),
    ));
    one_value::lemma_holds(facts, entity, attribute, value, i64::MAX);
    assert forall|i: int| 0 <= i < facts.len() implies ((#[trigger] versions[i]).logical
        == logical) == one_value::says(facts[i], entity, attribute, value) by {
        lemma_apart(facts[i], entity, attribute, value);
    }
    if laws::holds(versions, logical, i64::MAX) {
        let i = choose|i: int|
            0 <= i < versions.len() && (#[trigger] versions[i]).logical == logical
                && versions[i].tx_eid <= i64::MAX && versions[i].op != codec::RETRACT && forall|
                j: int,
            |
                0 <= j < versions.len() && (#[trigger] versions[j]).logical == logical
                    && versions[j].tx_eid <= i64::MAX ==> !laws::newer(versions[j], versions[i]);
        assert forall|j: int|
            0 <= j < facts.len() && one_value::says(#[trigger] facts[j], entity, attribute, value)
                && facts[j].tx_eid <= i64::MAX implies !one_value::newer_fact(
            facts[j],
            facts[i],
        ) by {
            assert(versions[j].logical == logical);
        }
        assert(one_value::decides(facts, i, entity, attribute, value, i64::MAX));
    }
    if laws::fact_holds(facts, entity, attribute, value, i64::MAX) {
        let i = choose|i: int|
            0 <= i < facts.len() && #[trigger] one_value::decides(
                facts,
                i,
                entity,
                attribute,
                value,
                i64::MAX,
            );
        assert(versions[i].logical == logical);
        assert forall|j: int|
            0 <= j < versions.len() && (#[trigger] versions[j]).logical == logical
                && versions[j].tx_eid <= i64::MAX implies !laws::newer(
            versions[j],
            versions[i],
        ) by {
            assert(one_value::says(facts[j], entity, attribute, value));
        }
    }
}

/// A visible entry of a value and an attribute names an entity.
proof fn lemma_entry_entity(
    facts: Seq<IndexedFact>,
    attribute: i64,
    value: Value,
    n: int,
) -> (entity: i64)
    requires
        0 <= n < visible_owners(facts).len(),
        byte_string::begins_with(visible_owners(facts)[n], owner_prefix(attribute, value)),
    ensures
        visible_owners(facts)[n] == owner_prefix(attribute, value) + codec::encoding(
            Value::Long(entity),
        ),
{
    let versions = owner_versions(facts);
    let raw = laws::version_keys(versions);
    let q = temporal_filter_iterator::lemma_visible_source(
        raw,
        codec::i64_bytes(i64::MAX),
        1,
        0,
        n,
    );
    let f = facts[q];
    let entry = visible_owners(facts)[n];
    laws::lemma_version_parts(versions[q]);
    let last = codec::encoding(Value::Long(f.entity));
    let middle = codec::i64_bytes(f.attribute) + last;
    assert(entry =~= codec::encoding(f.value) + middle);
    laws::lemma_encoding_apart(f.value, value, middle, codec::i64_bytes(attribute));
    codec::law_i64_order(f.attribute, attribute);
    codec::law_i64_order(attribute, f.attribute);
    assert(middle.take(8) =~= codec::i64_bytes(f.attribute));
    assert(entry =~= owner_prefix(attribute, value) + last);
    f.entity
}

/// The owner that is read of a value, which at most one entity has, is the entity that has it.
pub proof fn law_owner_is_read(facts: Seq<IndexedFact>, attribute: i64, value: Value)
    requires
        laws::ascending(laws::version_keys(owner_versions(facts))),
        forall|e: i64, f: i64|
            #![trigger laws::fact_holds(facts, e, attribute, value, i64::MAX), laws::fact_holds(facts, f, attribute, value, i64::MAX)]
            laws::fact_holds(facts, e, attribute, value, i64::MAX) && laws::fact_holds(
                facts,
                f,
                attribute,
                value,
                i64::MAX,
            ) ==> e == f,
    ensures
        owner_in(visible_owners(facts), attribute, value) matches Ok(owner)
            && unique_value::is_owner(facts, attribute, value, owner),
{
    let entries = visible_owners(facts);
    let prefix = owner_prefix(attribute, value);
    one_value::lemma_first_rest(entries, prefix);
    match commit::first_rest(entries, prefix) {
        Some(rest) => {
            let i = choose|i: int|
                0 <= i < entries.len() && #[trigger] entries[i] == prefix + rest;
            assert(entries[i].take(prefix.len() as int) =~= prefix);
            let entity = lemma_entry_entity(facts, attribute, value, i);
            let last = codec::encoding(Value::Long(entity));
            assert((prefix + rest).skip(prefix.len() as int) =~= rest);
            assert((prefix + last).skip(prefix.len() as int) =~= last);
            codec::law_decode_encoded(Value::Long(entity), Seq::empty());
            assert(last + Seq::<u8>::empty() =~= rest);
            lemma_visible_owner(facts, entity, attribute, value);
            assert(entries.contains(prefix + last));
            assert forall|e: i64| #[trigger]
                laws::fact_holds(facts, e, attribute, value, i64::MAX) == (Some(entity) == Some(
                    e,
                )) by {}
        },
        None => {
            assert forall|e: i64| !#[trigger] laws::fact_holds(
                facts,
                e,
                attribute,
                value,
                i64::MAX,
            ) by {
                lemma_visible_owner(facts, e, attribute, value);
                let entry = prefix + codec::encoding(Value::Long(e));
                if entries.contains(entry) {
                    let i = entries.index_of(entry);
                    assert(entries[i].take(prefix.len() as int) =~= prefix);
                    assert(byte_string::begins_with(entries[i], prefix));
                }
            }
        },
    }
}

/// What is read of an owner: nobody where nothing is stored, the entity whose number is stored, and an error
/// where something else is.
pub proof fn law_what_an_owner_is(v: Value)
    ensures
        owner_of(None) == Ok::<Option<i64>, ErrorView>(None),
        v matches Value::Long(e) ==> owner_of(Some(codec::encoding(v))) == Ok::<
            Option<i64>,
            ErrorView,
        >(Some(e)),
        !(v is Long) ==> owner_of(Some(codec::encoding(v))) == Err::<Option<i64>, ErrorView>(
            ErrorView::OwnerNotLong(v),
        ),
{
    codec::law_decode_encoded(v, Seq::empty());
    assert(codec::encoding(v) + Seq::<u8>::empty() =~= codec::encoding(v));
}

} // verus!
