//! A unique value belongs to one entity after every transaction.

use vstd::prelude::*;

use crate::indexer::basis::IndexedFact;
use crate::indexer::commit;
use crate::indexer::keys;
use crate::indexer::laws;
use crate::indexer::one_value;
use crate::ops::{DatomOp, DatomView};
use crate::schema::Schema;
use crate::value::Value;

verus! {

/// Whether an owner is the entity that has a value, if one has it.
pub open spec fn is_owner(
    facts: Seq<IndexedFact>,
    attribute: i64,
    value: Value,
    owner: Option<i64>,
) -> bool {
    forall|e: i64| #[trigger]
        laws::fact_holds(facts, e, attribute, value, i64::MAX) == (owner == Some(e))
}

/// What an asserted fact claims is among the claims of all the facts.
proof fn lemma_claimed(datoms: Seq<DatomView>, schema: Schema, i: int) -> (k: int)
    requires
        0 <= i < datoms.len(),
        commit::claim(datoms[i], schema) is Some,
    ensures
        0 <= k < commit::claims(datoms, schema).len(),
        commit::claims(datoms, schema)[k] == commit::claim(datoms[i], schema).unwrap(),
    decreases datoms.len(),
{
    let shorter = datoms.drop_last();
    if i == datoms.len() - 1 {
        (commit::claims(datoms, schema).len() - 1) as int
    } else {
        assert(shorter[i] == datoms[i]);
        lemma_claimed(shorter, schema, i)
    }
}

/// An entity that has a value after a transaction either had it before, and the transaction does
/// not retract it, or the transaction asserts it.
proof fn lemma_has(
    facts: Seq<IndexedFact>,
    datoms: Seq<DatomView>,
    schema: Schema,
    tx_eid: i64,
    as_of: i64,
    entity: i64,
    name: Seq<char>,
    value: Value,
)
    requires
        forall|i: int| 0 <= i < facts.len() ==> (#[trigger] facts[i]).tx_eid < tx_eid,
        tx_eid <= as_of,
        one_value::numbers_apart(schema),
        keys::all_known(datoms, schema),
        schema.find(name) is Some,
        laws::fact_holds(
            one_value::with_written(facts, datoms, schema, tx_eid),
            entity,
            schema.find(name).unwrap().id,
            value,
            as_of,
        ),
    ensures
        ({
            let a = schema.find(name).unwrap().id;
            ||| datoms.contains(
                DatomView { entity, attribute: name, value, op: DatomOp::Assert },
            )
            ||| laws::fact_holds(facts, entity, a, value, i64::MAX) && !datoms.contains(
                DatomView { entity, attribute: name, value, op: DatomOp::Retract },
            )
        }),
{
    let a = schema.find(name).unwrap().id;
    let after = one_value::with_written(facts, datoms, schema, tx_eid);
    let n = facts.len() as int;
    one_value::lemma_holds(after, entity, a, value, as_of);
    one_value::lemma_holds(facts, entity, a, value, i64::MAX);
    let i = choose|i: int|
        0 <= i < after.len() && #[trigger] one_value::decides(
            after,
            i,
            entity,
            a,
            value,
            as_of,
        );
    if i >= n {
        let x = datoms[i - n];
        assert(after[i] == one_value::indexed(x, schema, tx_eid));
        assert(schema.find(x.attribute) is Some);
        assert(x.attribute == name);
        assert(x == (DatomView { entity, attribute: name, value, op: DatomOp::Assert }));
    } else {
        assert(after[i] == facts[i]);
        let gone = DatomView { entity, attribute: name, value, op: DatomOp::Retract };
        if datoms.contains(gone) {
            let k = n + datoms.index_of(gone);
            assert(after[k] == one_value::indexed(gone, schema, tx_eid));
            assert(one_value::says(after[k], entity, a, value));
            assert(one_value::newer_fact(after[k], after[i]));
        }
        assert forall|j: int|
            0 <= j < facts.len() && one_value::says(#[trigger] facts[j], entity, a, value)
                && facts[j].tx_eid <= i64::MAX implies !one_value::newer_fact(
            facts[j],
            facts[i],
        ) by {
            assert(after[j] == facts[j]);
        }
        assert(one_value::decides(facts, i, entity, a, value, i64::MAX));
    }
}

/// Two entities do not have the same value of a unique attribute after a transaction that was
/// found valid, where the owners were those before it.
pub proof fn law_unique_kept(
    facts: Seq<IndexedFact>,
    datoms: Seq<DatomView>,
    schema: Schema,
    owners: Seq<Option<i64>>,
    tx_eid: i64,
    as_of: i64,
    name: Seq<char>,
    value: Value,
    owner: Option<i64>,
    e: i64,
    f: i64,
)
    requires
        forall|i: int| 0 <= i < facts.len() ==> (#[trigger] facts[i]).tx_eid < tx_eid,
        tx_eid <= as_of,
        one_value::numbers_apart(schema),
        keys::all_known(datoms, schema),
        schema.find(name) is Some,
        schema.find(name).unwrap().unique,
        is_owner(facts, schema.find(name).unwrap().id, value, owner),
        commit::batch_fault(datoms, schema) is None,
        owners.len() == commit::claims(datoms, schema).len(),
        forall|k: int|
            0 <= k < owners.len() ==> is_owner(
                facts,
                commit::claims(datoms, schema)[k].attribute,
                commit::claims(datoms, schema)[k].value,
                #[trigger] owners[k],
            ),
        forall|k: int|
            0 <= k < owners.len() ==> !commit::taken(
                datoms,
                schema,
                commit::claims(datoms, schema)[k],
                #[trigger] owners[k],
            ),
        ({
            let a = schema.find(name).unwrap().id;
            let after = one_value::with_written(facts, datoms, schema, tx_eid);
            laws::fact_holds(after, e, a, value, as_of) && laws::fact_holds(
                after,
                f,
                a,
                value,
                as_of,
            )
        }),
    ensures
        e == f,
{
    let a = schema.find(name).unwrap().id;
    let all = commit::claims(datoms, schema);
    let new_e = DatomView { entity: e, attribute: name, value, op: DatomOp::Assert };
    let new_f = DatomView { entity: f, attribute: name, value, op: DatomOp::Assert };
    lemma_has(facts, datoms, schema, tx_eid, as_of, e, name, value);
    lemma_has(facts, datoms, schema, tx_eid, as_of, f, name, value);
    if datoms.contains(new_e) && datoms.contains(new_f) {
        let i = lemma_claimed(datoms, schema, datoms.index_of(new_e));
        let j = lemma_claimed(datoms, schema, datoms.index_of(new_f));
        if i < j {
            commit::law_claims_agree(datoms, schema, i, j);
        } else if j < i {
            commit::law_claims_agree(datoms, schema, j, i);
        }
    } else if datoms.contains(new_e) {
        lemma_claim_beats(facts, datoms, schema, owners, name, value, new_e, f);
    } else if datoms.contains(new_f) {
        lemma_claim_beats(facts, datoms, schema, owners, name, value, new_f, e);
    }
}

/// Whoever had a value that another entity claims gives it up.
proof fn lemma_claim_beats(
    facts: Seq<IndexedFact>,
    datoms: Seq<DatomView>,
    schema: Schema,
    owners: Seq<Option<i64>>,
    name: Seq<char>,
    value: Value,
    claimed: DatomView,
    old_owner: i64,
)
    requires
        one_value::numbers_apart(schema),
        schema.find(name) is Some,
        schema.find(name).unwrap().unique,
        owners.len() == commit::claims(datoms, schema).len(),
        forall|k: int|
            0 <= k < owners.len() ==> is_owner(
                facts,
                commit::claims(datoms, schema)[k].attribute,
                commit::claims(datoms, schema)[k].value,
                #[trigger] owners[k],
            ),
        forall|k: int|
            0 <= k < owners.len() ==> !commit::taken(
                datoms,
                schema,
                commit::claims(datoms, schema)[k],
                #[trigger] owners[k],
            ),
        datoms.contains(claimed),
        claimed.attribute == name,
        claimed.value == value,
        claimed.op == DatomOp::Assert,
        laws::fact_holds(facts, old_owner, schema.find(name).unwrap().id, value, i64::MAX),
        !datoms.contains(
            DatomView { entity: old_owner, attribute: name, value, op: DatomOp::Retract },
        ),
    ensures
        old_owner == claimed.entity,
{
    let a = schema.find(name).unwrap().id;
    let k = lemma_claimed(datoms, schema, datoms.index_of(claimed));
    let c = commit::claims(datoms, schema)[k];
    assert(is_owner(facts, c.attribute, c.value, owners[k]));
    assert(owners[k] == Some(old_owner));
    assert(!commit::taken(datoms, schema, c, owners[k]));
    if old_owner != c.entity {
        assert(commit::retracts(datoms, schema, old_owner, a, value));
        let i = choose|i: int|
            0 <= i < datoms.len() && (#[trigger] datoms[i]).op == DatomOp::Retract
                && datoms[i].entity == old_owner && datoms[i].value == value && (
            match schema.find(datoms[i].attribute) {
                Some(info) => info.unique && info.id == a,
                None => false,
            });
        assert(datoms[i].attribute == name);
        assert(datoms[i] == (DatomView {
            entity: old_owner,
            attribute: name,
            value,
            op: DatomOp::Retract,
        }));
    }
}

} // verus!
