//! When written facts hold, and what is written of a transaction.

use vstd::prelude::*;

use crate::error::{Error, ErrorView};
use crate::indexer::basis::{build_tx_entity_datoms, IndexedFact, TxVocabulary};
use crate::indexer::commit;
use crate::indexer::keys;
use crate::indexer::laws;
use crate::indexer::one_value;
use crate::indexer::state::{self, Indexer};
use crate::indexer::transact::{self, TxWrite, Verdict};
use crate::indexer::unique_laws;
use crate::metadata::{self, PartitionMap};
use crate::ops::{Datom, DatomOp, DatomView};
use crate::partition;
use crate::schema::{AttributeInfo, Schema};
use crate::text;
use crate::transaction::TxKey;
use crate::value::{Keyword, Value};

verus! {

/// Whether a written fact says of an entity that an attribute of that number has a value.
pub open spec fn on(d: DatomView, schema: Schema, entity: i64, attribute: i64, value: Value) -> bool {
    d.entity == entity && d.value == value && (schema.find(d.attribute) matches Some(info) && info.id
        == attribute)
}

/// Whether facts retract a value, or assert it.
pub open spec fn writes(
    written: Seq<DatomView>,
    schema: Schema,
    entity: i64,
    attribute: i64,
    value: Value,
    op: DatomOp,
) -> bool {
    exists|i: int|
        0 <= i < written.len() && on(#[trigger] written[i], schema, entity, attribute, value)
            && written[i].op == op
}

/// What was written as facts.
proof fn lemma_written(
    facts: Seq<IndexedFact>,
    written: Seq<DatomView>,
    schema: Schema,
    tx_eid: i64,
)
    ensures
        ({
            let after = one_value::with_written(facts, written, schema, tx_eid);
            &&& after.len() == facts.len() + written.len()
            &&& forall|i: int| 0 <= i < facts.len() ==> #[trigger] after[i] == facts[i]
            &&& forall|i: int|
                facts.len() <= i < after.len() ==> #[trigger] after[i] == one_value::indexed(
                    written[i - facts.len()],
                    schema,
                    tx_eid,
                )
        }),
{
}

/// What was written does not change what held before.
pub proof fn law_the_past_is_kept(
    facts: Seq<IndexedFact>,
    written: Seq<DatomView>,
    schema: Schema,
    tx_eid: i64,
    as_of: i64,
    entity: i64,
    attribute: i64,
    value: Value,
)
    requires
        as_of < tx_eid,
    ensures
        laws::fact_holds(
            one_value::with_written(facts, written, schema, tx_eid),
            entity,
            attribute,
            value,
            as_of,
        ) == laws::fact_holds(facts, entity, attribute, value, as_of),
{
    let after = one_value::with_written(facts, written, schema, tx_eid);
    lemma_written(facts, written, schema, tx_eid);
    one_value::lemma_holds(facts, entity, attribute, value, as_of);
    one_value::lemma_holds(after, entity, attribute, value, as_of);
    assert forall|i: int| 0 <= i < facts.len() implies one_value::decides(
        facts,
        i,
        entity,
        attribute,
        value,
        as_of,
    ) == #[trigger] one_value::decides(after, i, entity, attribute, value, as_of) by {
        if one_value::decides(facts, i, entity, attribute, value, as_of) {
            assert forall|j: int|
                0 <= j < after.len() && one_value::says(
                    #[trigger] after[j],
                    entity,
                    attribute,
                    value,
                ) && after[j].tx_eid <= as_of implies !one_value::newer_fact(
                after[j],
                after[i],
            ) by {
                if j < facts.len() {
                    assert(after[j] == facts[j]);
                }
            }
        }
        if one_value::decides(after, i, entity, attribute, value, as_of) {
            assert forall|j: int|
                0 <= j < facts.len() && one_value::says(
                    #[trigger] facts[j],
                    entity,
                    attribute,
                    value,
                ) && facts[j].tx_eid <= as_of implies !one_value::newer_fact(
                facts[j],
                facts[i],
            ) by {
                assert(after[j] == facts[j]);
            }
        }
    }
    if laws::fact_holds(after, entity, attribute, value, as_of) {
        let i = choose|i: int|
            0 <= i < after.len() && #[trigger] one_value::decides(
                after,
                i,
                entity,
                attribute,
                value,
                as_of,
            );
        assert(i < facts.len());
    }
    if laws::fact_holds(facts, entity, attribute, value, as_of) {
        let i = choose|i: int|
            0 <= i < facts.len() && #[trigger] one_value::decides(
                facts,
                i,
                entity,
                attribute,
                value,
                as_of,
            );
        assert(one_value::decides(after, i, entity, attribute, value, as_of));
    }
}

/// From the transaction on a fact holds that was asserted with it and not retracted with it, a fact
/// that was retracted with it does not hold, and every other fact holds as it did before.
pub proof fn law_what_is_written_takes_effect(
    facts: Seq<IndexedFact>,
    written: Seq<DatomView>,
    schema: Schema,
    tx_eid: i64,
    as_of: i64,
    entity: i64,
    attribute: i64,
    value: Value,
)
    requires
        keys::all_known(written, schema),
        forall|i: int| 0 <= i < facts.len() ==> (#[trigger] facts[i]).tx_eid < tx_eid,
        tx_eid <= as_of,
    ensures
        laws::fact_holds(
            one_value::with_written(facts, written, schema, tx_eid),
            entity,
            attribute,
            value,
            as_of,
        ) == (if writes(written, schema, entity, attribute, value, DatomOp::Retract) {
            false
        } else if writes(written, schema, entity, attribute, value, DatomOp::Assert) {
            true
        } else {
            laws::fact_holds(facts, entity, attribute, value, as_of)
        }),
{
    let after = one_value::with_written(facts, written, schema, tx_eid);
    let n = facts.len() as int;
    lemma_written(facts, written, schema, tx_eid);
    one_value::lemma_holds(facts, entity, attribute, value, as_of);
    one_value::lemma_holds(after, entity, attribute, value, as_of);
    assert forall|k: int| 0 <= k < written.len() implies one_value::says(
        #[trigger] after[n + k],
        entity,
        attribute,
        value,
    ) == on(written[k], schema, entity, attribute, value) by {
        assert(schema.find(written[k].attribute) is Some);
    }
    if writes(written, schema, entity, attribute, value, DatomOp::Retract) {
        let k = choose|k: int|
            0 <= k < written.len() && on(#[trigger] written[k], schema, entity, attribute, value)
                && written[k].op == DatomOp::Retract;
        let late = after[n + k];
        assert(one_value::says(late, entity, attribute, value));
        assert forall|i: int| 0 <= i < after.len() implies !#[trigger] one_value::decides(
            after,
            i,
            entity,
            attribute,
            value,
            as_of,
        ) by {
            if one_value::decides(after, i, entity, attribute, value, as_of) {
                assert(!one_value::newer_fact(after[n + k], after[i]));
                if i < n {
                    assert(facts[i].tx_eid < tx_eid);
                }
            }
        }
    } else if writes(written, schema, entity, attribute, value, DatomOp::Assert) {
        let k = choose|k: int|
            0 <= k < written.len() && on(#[trigger] written[k], schema, entity, attribute, value)
                && written[k].op == DatomOp::Assert;
        assert(one_value::says(after[n + k], entity, attribute, value));
        assert forall|j: int|
            0 <= j < after.len() && one_value::says(#[trigger] after[j], entity, attribute, value)
                && after[j].tx_eid <= as_of implies !one_value::newer_fact(
            after[j],
            after[n + k],
        ) by {
            if j < n {
                assert(facts[j].tx_eid < tx_eid);
            } else {
                assert(after[n + (j - n)] == after[j]);
                assert(on(written[j - n], schema, entity, attribute, value));
                assert(written[j - n].op == DatomOp::Assert);
            }
        }
        assert(one_value::decides(after, n + k, entity, attribute, value, as_of));
    } else {
        assert forall|j: int| n <= j < after.len() implies !one_value::says(
            #[trigger] after[j],
            entity,
            attribute,
            value,
        ) by {
            assert(after[n + (j - n)] == after[j]);
            if on(written[j - n], schema, entity, attribute, value) {
                assert(written[j - n].op == DatomOp::Assert || written[j - n].op
                    == DatomOp::Retract);
            }
        }
        assert forall|i: int| 0 <= i < n implies one_value::decides(
            facts,
            i,
            entity,
            attribute,
            value,
            as_of,
        ) == #[trigger] one_value::decides(after, i, entity, attribute, value, as_of) by {
            assert(after[i] == facts[i]);
            if one_value::decides(facts, i, entity, attribute, value, as_of) {
                assert forall|j: int|
                    0 <= j < after.len() && one_value::says(
                        #[trigger] after[j],
                        entity,
                        attribute,
                        value,
                    ) && after[j].tx_eid <= as_of implies !one_value::newer_fact(
                    after[j],
                    after[i],
                ) by {
                    assert(after[j] == facts[j]);
                }
            }
            if one_value::decides(after, i, entity, attribute, value, as_of) {
                assert forall|j: int|
                    0 <= j < facts.len() && one_value::says(
                        #[trigger] facts[j],
                        entity,
                        attribute,
                        value,
                    ) && facts[j].tx_eid <= as_of implies !one_value::newer_fact(
                    facts[j],
                    facts[i],
                ) by {
                    assert(after[j] == facts[j]);
                }
            }
        }
        if laws::fact_holds(after, entity, attribute, value, as_of) {
            let i = choose|i: int|
                0 <= i < after.len() && #[trigger] one_value::decides(
                    after,
                    i,
                    entity,
                    attribute,
                    value,
                    as_of,
                );
            assert(i < n);
        }
        if laws::fact_holds(facts, entity, attribute, value, as_of) {
            let i = choose|i: int|
                0 <= i < facts.len() && #[trigger] one_value::decides(
                    facts,
                    i,
                    entity,
                    attribute,
                    value,
                    as_of,
                );
            assert(one_value::decides(after, i, entity, attribute, value, as_of));
        }
    }
}

/// Nothing is looked up of a retraction, of an attribute with several values, or of an entity that
/// has not been given out, and such a fact is written as it is.
pub proof fn law_what_has_no_old_value(
    datoms: Seq<DatomView>,
    schema: Schema,
    counters: Map<u32, i64>,
    entries: Seq<Seq<u8>>,
    d: DatomView,
)
    requires
        datoms.contains(d),
        d.op == DatomOp::Retract || (schema.find(d.attribute) matches Some(info) && info.multival)
            || !metadata::given_out(counters, d.entity as int),
    ensures
        commit::committed(datoms, schema, counters, entries).contains(d),
{
    commit::law_new_kept(datoms, schema, counters, entries, d);
}

/// The entries of facts are those of each of them, and nothing else.
pub proof fn law_entries_of_facts(
    datoms: Seq<DatomView>,
    schema: Schema,
    tx_eid: i64,
    key: Seq<u8>,
)
    ensures
        keys::all_entries(datoms, schema, tx_eid).contains(key) == exists|i: int|
            0 <= i < datoms.len() && keys::entries_of(
                #[trigger] datoms[i],
                schema.find(datoms[i].attribute).unwrap(),
                tx_eid,
            ).contains(key),
    decreases datoms.len(),
{
    if datoms.len() > 0 {
        let front = datoms.drop_last();
        let last = datoms.last();
        law_entries_of_facts(front, schema, tx_eid, key);
        crate::query::plan::lemma_concat_contains(
            keys::all_entries(front, schema, tx_eid),
            keys::entries_of(last, schema.find(last.attribute).unwrap(), tx_eid),
            key,
        );
        if keys::all_entries(front, schema, tx_eid).contains(key) {
            let i = choose|i: int|
                0 <= i < front.len() && keys::entries_of(
                    #[trigger] front[i],
                    schema.find(front[i].attribute).unwrap(),
                    tx_eid,
                ).contains(key);
            assert(datoms[i] == front[i]);
        }
        if keys::entries_of(last, schema.find(last.attribute).unwrap(), tx_eid).contains(key) {
            assert(datoms[datoms.len() - 1] == last);
        }
        if exists|i: int|
            0 <= i < datoms.len() && keys::entries_of(
                #[trigger] datoms[i],
                schema.find(datoms[i].attribute).unwrap(),
                tx_eid,
            ).contains(key) {
            let i = choose|i: int|
                0 <= i < datoms.len() && keys::entries_of(
                    #[trigger] datoms[i],
                    schema.find(datoms[i].attribute).unwrap(),
                    tx_eid,
                ).contains(key);
            if i < front.len() {
                assert(front[i] == datoms[i]);
            }
        }
    }
}

/// The entries of a fact: by entity, by attribute and value, by attribute and entity; by value for
/// a unique attribute; and, of an assertion, one for its attribute with its entity and one for its
/// attribute with its value. The operation at the end of a key is zero for a retraction and one for
/// an assertion.
pub proof fn law_entries_of_a_fact(d: DatomView, info: AttributeInfo, tx_eid: i64, key: Seq<u8>)
    ensures
        ({
            let e = Value::Long(d.entity);
            let op: u8 = if d.op == DatomOp::Assert {
                1
            } else {
                0
            };
            keys::entries_of(d, info, tx_eid).contains(key) == ({
                ||| key == keys::eav_key(e, info.id, d.value, tx_eid, op)
                ||| key == keys::ave_key(info.id, d.value, e, tx_eid, op)
                ||| key == keys::aev_key(info.id, e, d.value, tx_eid, op)
                ||| info.unique && key == keys::vae_key(d.value, info.id, e, tx_eid, op)
                ||| d.op == DatomOp::Assert && (key == keys::ae_key(info.id, e) || key
                    == keys::av_key(info.id, d.value))
            })
        }),
{
    let e = Value::Long(d.entity);
    let op = keys::op_byte(d.op);
    let list = keys::entries_of(d, info, tx_eid);
    let u: int = if info.unique {
        1
    } else {
        0
    };
    assert(list[0] == keys::eav_key(e, info.id, d.value, tx_eid, op));
    assert(list[1] == keys::ave_key(info.id, d.value, e, tx_eid, op));
    assert(list[2] == keys::aev_key(info.id, e, d.value, tx_eid, op));
    if info.unique {
        assert(list[3] == keys::vae_key(d.value, info.id, e, tx_eid, op));
    }
    if d.op == DatomOp::Assert {
        assert(list[3 + u] == keys::ae_key(info.id, e));
        assert(list[4 + u] == keys::av_key(info.id, d.value));
    }
    if list.contains(key) {
        let i = list.index_of(key);
        assert(i == 0 || i == 1 || i == 2 || (i == 3 && info.unique) || (d.op == DatomOp::Assert
            && (i == 3 + u || i == 4 + u)));
    }
}

/// A transaction is described by facts of its entity: its time, its number, that it was committed or
/// aborted, and why it was aborted.
pub proof fn law_facts_of_a_transaction(
    tx_eid: i64,
    tx_key: TxKey,
    committed: bool,
    error: Option<String>,
    vocabulary: TxVocabulary,
    r: Vec<Datom>,
    d: DatomView,
)
    requires
        call_ensures(
            build_tx_entity_datoms,
            (tx_eid, tx_key, committed, error, &vocabulary),
            r,
        ),
    ensures
        r.deep_view().contains(d) == (d.entity == tx_eid && d.op == DatomOp::Assert && {
            ||| d.attribute == "db/txInstant"@ && d.value == Value::Instant(tx_key.system_time)
            ||| d.attribute == "db/txId"@ && d.value == Value::Long(tx_key.tx_id)
            ||| d.attribute == "db/txResult"@ && d.value == Value::Long(
                if committed {
                    vocabulary.committed
                } else {
                    vocabulary.aborted
                },
            )
            ||| error matches Some(text) && d.attribute == "db/txError"@ && d.value
                == Value::String(text@)
        }),
{
    let list = r.deep_view();
    assert(list[0].attribute == "db/txInstant"@);
    assert(list[1].attribute == "db/txId"@);
    assert(list[2].attribute == "db/txResult"@);
    if error is Some {
        assert(list[3].attribute == "db/txError"@);
    }
    if list.contains(d) {
        let i = list.index_of(d);
        assert(i == 0 || i == 1 || i == 2 || i == 3);
    }
    if d.entity == tx_eid && d.op == DatomOp::Assert {
        if d.attribute == "db/txInstant"@ && d.value == Value::Instant(tx_key.system_time) {
            assert(list[0] == d);
        }
        if d.attribute == "db/txId"@ && d.value == Value::Long(tx_key.tx_id) {
            assert(list[1] == d);
        }
        if d.attribute == "db/txResult"@ && d.value == Value::Long(
            if committed {
                vocabulary.committed
            } else {
                vocabulary.aborted
            },
        ) {
            assert(list[2] == d);
        }
        if error matches Some(text) && d.attribute == "db/txError"@ && d.value == Value::String(
            text@,
        ) {
            assert(list[3] == d);
        }
    }
}

/// A transaction that the rules accept is written as committed, with the pending counters, the
/// changed schema and the entries of its facts; one that they refuse is written as aborted, for the
/// reason that they give, with the counters of before but for its own number, and without a change
/// of the schema.
pub proof fn law_the_verdict_decides(
    indexer: Indexer,
    tx_key: TxKey,
    tx_eid: i64,
    pending: PartitionMap,
    written: Vec<Datom>,
    verdict: Verdict,
    vocabulary: TxVocabulary,
    r: Result<TxWrite, String>,
)
    requires
        call_ensures(
            Indexer::conclude,
            (&indexer, tx_key, tx_eid, pending, &written, verdict, &vocabulary),
            r,
        ),
        keys::first_unknown(written.deep_view(), indexer.metadata.schema) is None,
    ensures
        match verdict {
            Verdict::Accepted(schema) => r matches Ok(write) && write.error is None && write.tx_key
                == tx_key && write.tx_eid == tx_eid && write.pending == pending && write.schema
                == schema && write.entries.deep_view() == keys::all_entries(
                written.deep_view(),
                indexer.metadata.schema,
                tx_eid,
            ),
            Verdict::Refused(error) => r matches Ok(write) ==> {
                &&& write.error matches Some(told) && told@ == error@
                &&& write.tx_key == tx_key
                &&& write.schema is None
                &&& partition::next_counter(write.pending@, 1) == (partition::next_counter(
                    indexer.metadata.partition_map@,
                    1,
                ) + 1) as i64
                &&& partition::next_counter(write.pending@, 2) == partition::next_counter(
                    indexer.metadata.partition_map@,
                    2,
                )
            },
        },
{
}

/// An attribute is known by the first entry of its name.
pub proof fn law_attributes_by_name(schema: Schema, name: Keyword, r: Option<AttributeInfo>)
    requires
        call_ensures(Schema::get_attribute, (&schema, &name), r),
    ensures
        match r {
            Some(info) => exists|i: int|
                0 <= i < schema.attributes@.len() && (#[trigger] schema.attributes@[i]).0.name@
                    == name.name@ && schema.attributes@[i].1 == info && forall|j: int|
                    0 <= j < i ==> (#[trigger] schema.attributes@[j]).0.name@ != name.name@,
            None => forall|i: int|
                0 <= i < schema.attributes@.len() ==> (#[trigger] schema.attributes@[i]).0.name@
                    != name.name@,
        },
{
    lemma_first_attribute(schema.attributes@, name.name@);
}

/// The first entry of a name decides.
proof fn lemma_first_attribute(entries: Seq<(Keyword, AttributeInfo)>, name: Seq<char>)
    ensures
        match crate::schema::attribute(entries, name) {
            Some(info) => exists|i: int|
                0 <= i < entries.len() && (#[trigger] entries[i]).0.name@ == name && entries[i].1
                    == info && forall|j: int|
                    0 <= j < i ==> (#[trigger] entries[j]).0.name@ != name,
            None => forall|i: int|
                0 <= i < entries.len() ==> (#[trigger] entries[i]).0.name@ != name,
        },
    decreases entries.len(),
{
    if entries.len() > 0 {
        let rest = entries.drop_first();
        lemma_first_attribute(rest, name);
        if entries[0].0.name@ == name {
            assert(crate::schema::attribute(entries, name) == Some(entries[0].1));
        } else {
            match crate::schema::attribute(rest, name) {
                Some(info) => {
                    let i = choose|i: int|
                        0 <= i < rest.len() && (#[trigger] rest[i]).0.name@ == name && rest[i].1
                            == info && forall|j: int|
                            0 <= j < i ==> (#[trigger] rest[j]).0.name@ != name;
                    assert(entries[i + 1] == rest[i]);
                    assert forall|j: int| 0 <= j < i + 1 implies (#[trigger] entries[j]).0.name@
                        != name by {
                        if j > 0 {
                            assert(rest[j - 1] == entries[j]);
                        }
                    }
                },
                None => {
                    assert forall|j: int| 0 <= j < entries.len() implies (
                    #[trigger] entries[j]).0.name@ != name by {
                        if j > 0 {
                            assert(rest[j - 1] == entries[j]);
                        }
                    }
                },
            }
        }
    }
}

/// A transaction that is refused is written as aborted: with facts of its own entity alone, which say
/// when it came, which it is, that it was aborted and why.
pub proof fn law_a_refused_transaction(
    indexer: Indexer,
    tx_key: TxKey,
    error: String,
    vocabulary: TxVocabulary,
    write: TxWrite,
    facts: Vec<Datom>,
)
    requires
        call_ensures(
            Indexer::refuse,
            (&indexer, tx_key, error, &vocabulary),
            Ok::<TxWrite, String>(write),
        ),
        call_ensures(
            build_tx_entity_datoms,
            (write.tx_eid, tx_key, false, Some(error), &vocabulary),
            facts,
        ),
        state::may_begin(indexer.metadata.partition_map@),
    ensures
        write.tx_key == tx_key,
        write.tx_eid == 0x400_0000_0000 + partition::next_counter(
            indexer.metadata.partition_map@,
            1,
        ),
        write.error matches Some(told) && told@ == error@,
        write.schema is None,
        write.entries.deep_view() == keys::all_entries(
            facts.deep_view(),
            indexer.metadata.schema,
            write.tx_eid,
        ),
{
}

/// Where a write of a committed transaction fails, the transaction is refused for that; where that of
/// an aborted one fails, it is told why nothing was written.
pub proof fn law_failed_writes(
    indexer: Indexer,
    write: TxWrite,
    cause: String,
    vocabulary: TxVocabulary,
    r: Result<TxWrite, String>,
)
    requires
        call_ensures(Indexer::write_failed, (&indexer, write, cause, &vocabulary), r),
    ensures
        write.error is None ==> (r matches Ok(next) ==> (next.error matches Some(told) && told@
            == cause@) && next.tx_key == write.tx_key && next.schema is None),
        write.error matches Some(first) ==> (r matches Err(told) && told@
            == "Failed to write aborted tx entity for "@ + text::decimal(write.tx_key.tx_id as int)
            + ": "@ + cause@ + "; original transaction error: "@ + first@),
{
}

/// Facts have entries exactly if all their attributes are known; else the error names an attribute of
/// one of them that is not.
pub proof fn law_unknown_attributes(
    indexer: Indexer,
    datoms: &[Datom],
    tx_eid: i64,
    r: Result<Vec<Vec<u8>>, Error>,
)
    requires
        call_ensures(Indexer::index_entries, (&indexer, datoms, tx_eid), r),
    ensures
        r is Ok == (forall|i: int|
            0 <= i < datoms@.len() ==> indexer.metadata.schema.find(
                (#[trigger] datoms@[i]).attribute.name@,
            ) is Some),
        r matches Err(e) ==> (e matches Error::UnknownAttribute(said) && exists|i: int|
            0 <= i < datoms@.len() && (#[trigger] datoms@[i]).attribute.name@ == said@
                && indexer.metadata.schema.find(said@) is None),
{
    let facts = datoms.deep_view();
    let schema = indexer.metadata.schema;
    assert(facts.len() == datoms@.len());
    assert forall|i: int| 0 <= i < facts.len() implies #[trigger] facts[i] == datoms@[i]@ by {}
    lemma_unknown(facts, schema);
    if r is Err {
        let name = keys::first_unknown(facts, schema).unwrap();
        let i = choose|i: int|
            0 <= i < facts.len() && (#[trigger] facts[i]).attribute == name && schema.find(name)
                is None;
        assert(datoms@[i].attribute.name@ == name);
    } else {
        assert forall|i: int| 0 <= i < datoms@.len() implies schema.find(
            (#[trigger] datoms@[i]).attribute.name@,
        ) is Some by {
            assert(schema.find(facts[i].attribute) is Some);
        }
    }
}

/// The first attribute that is not known.
proof fn lemma_unknown(datoms: Seq<DatomView>, schema: Schema)
    ensures
        keys::first_unknown(datoms, schema) matches Some(name) ==> exists|i: int|
            0 <= i < datoms.len() && (#[trigger] datoms[i]).attribute == name && schema.find(name)
                is None,
    decreases datoms.len(),
{
    if datoms.len() > 0 {
        let front = datoms.drop_last();
        lemma_unknown(front, schema);
        if let Some(name) = keys::first_unknown(front, schema) {
            let i = choose|i: int|
                0 <= i < front.len() && (#[trigger] front[i]).attribute == name && schema.find(
                    name,
                ) is None;
            assert(datoms[i] == front[i]);
        } else {
            assert(datoms[datoms.len() - 1] == datoms.last());
        }
    }
}

/// Facts pass the checks before a write exactly if no fact asserts a value of an unknown attribute,
/// the old values can be read, and what is to be written keeps unique values unique; what passes is
/// what is to be written.
pub proof fn law_which_facts_pass(
    datoms: Seq<DatomView>,
    schema: Schema,
    counters: Map<u32, i64>,
    current: Seq<Seq<u8>>,
    owned: Seq<Seq<u8>>,
)
    ensures
        ({
            let written = commit::committed(datoms, schema, counters, current);
            let passed = transact::checked(datoms, schema, counters, current, owned);
            &&& passed is Ok == ((forall|i: int|
                0 <= i < datoms.len() ==> !unique_laws::asserts_unknown(
                    #[trigger] datoms[i],
                    schema,
                )) && commit::readable(datoms, schema, counters, current) && transact::unique_fault(
                written,
                schema,
                owned,
            ) is None)
            &&& passed is Ok ==> passed->Ok_0 == written
        }),
{
    lemma_asserted_unknown(datoms, schema);
}

/// Whether some fact asserts a value of an unknown attribute.
proof fn lemma_asserted_unknown(datoms: Seq<DatomView>, schema: Schema)
    ensures
        commit::first_unknown(datoms, schema) is None == (forall|i: int|
            0 <= i < datoms.len() ==> !unique_laws::asserts_unknown(#[trigger] datoms[i], schema)),
    decreases datoms.len(),
{
    if datoms.len() > 0 {
        let front = datoms.drop_last();
        lemma_asserted_unknown(front, schema);
        assert(datoms[datoms.len() - 1] == datoms.last());
        assert forall|i: int| 0 <= i < front.len() implies front[i] == #[trigger] datoms[i] by {}
        if forall|i: int|
            0 <= i < datoms.len() ==> !unique_laws::asserts_unknown(#[trigger] datoms[i], schema) {
            assert forall|i: int| 0 <= i < front.len() implies !unique_laws::asserts_unknown(
                #[trigger] front[i],
                schema,
            ) by {
                assert(!unique_laws::asserts_unknown(datoms[i], schema));
            }
            assert(!unique_laws::asserts_unknown(datoms[datoms.len() - 1], schema));
        }
        if commit::first_unknown(datoms, schema) is None {
            assert forall|i: int| 0 <= i < datoms.len() implies !unique_laws::asserts_unknown(
                #[trigger] datoms[i],
                schema,
            ) by {
                if i < front.len() {
                    assert(!unique_laws::asserts_unknown(front[i], schema));
                }
            }
        }
    }
}

/// An assertion of the value that is there already is not written; and what is written is written once.
pub proof fn law_known_values_are_not_written(
    datoms: Seq<DatomView>,
    schema: Schema,
    counters: Map<u32, i64>,
    entries: Seq<Seq<u8>>,
    d: DatomView,
)
    ensures
        d.op == DatomOp::Assert && commit::old_value(d, schema, counters, entries) == Ok::<
            Option<Value>,
            ErrorView,
        >(Some(d.value)) ==> !commit::committed(datoms, schema, counters, entries).contains(d),
        commit::committed(datoms, schema, counters, entries).no_duplicates(),
    decreases datoms.len(),
{
    if datoms.len() > 0 {
        let before = commit::committed(datoms.drop_last(), schema, counters, entries);
        let last = datoms.last();
        law_known_values_are_not_written(datoms.drop_last(), schema, counters, entries, d);
        match commit::old_value(last, schema, counters, entries) {
            Ok(Some(v)) => {
                if v != last.value {
                    let gone = commit::retraction(last, v);
                    let middle = commit::with_new(before, gone);
                    lemma_added_once(before, gone, d);
                    lemma_added_once(middle, last, d);
                }
            },
            _ => {
                lemma_added_once(before, last, d);
            },
        }
    }
}

/// What a list holds with one more fact.
proof fn lemma_added_once(list: Seq<DatomView>, more: DatomView, d: DatomView)
    requires
        list.no_duplicates(),
    ensures
        commit::with_new(list, more).no_duplicates(),
        commit::with_new(list, more).contains(d) ==> list.contains(d) || d == more,
{
    let all = commit::with_new(list, more);
    if !list.contains(more) {
        assert forall|i: int, j: int| 0 <= i < all.len() && 0 <= j < all.len() && i != j implies all[i]
            != all[j] by {
            if i < list.len() && j < list.len() {
                assert(list[i] != list[j]);
            } else if i < list.len() {
                assert(list.contains(list[i]));
            } else {
                assert(list.contains(list[j]));
            }
        }
        if all.contains(d) {
            let i = all.index_of(d);
            if i < list.len() {
                assert(list[i] == d);
            }
        }
    }
}

} // verus!
