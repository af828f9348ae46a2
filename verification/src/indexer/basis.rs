//! Transactions as entities: what is written of one, and the latest one.

use vstd::prelude::*;

use crate::byte_string;
use crate::codec;
use crate::error::{self, Error, ErrorView};
use crate::indexer::keys::{self, eav_key_to_parts};
use crate::ops::{Datom, DatomOp, DatomView};
use crate::transaction::{TxBasis, TxKey};
use crate::value::{DataType, Keyword, Value};

verus! {

/// The entities that describe a transaction: the attributes for its number and time, and what
/// stands for its outcomes.
#[derive(Clone, Copy, Debug, PartialEq, Eq, Structural)]
pub struct TxVocabulary {
    pub tx_id: i64,
    pub tx_instant: i64,
    pub committed: i64,
    pub aborted: i64,
}

/// What has been found of the latest transaction.
#[derive(Clone, Copy, Debug, PartialEq, Eq, Structural)]
pub struct BasisScan {
    pub first_eid: Option<i64>,
    pub tx_id: Option<i64>,
    pub system_time: Option<i64>,
}

/// Nothing has been found.
pub open spec fn nothing_found() -> BasisScan {
    BasisScan { first_eid: None, tx_id: None, system_time: None }
}

/// What is found with one more fact, if it is one of the first entity.
pub open spec fn found_with(
    scan: BasisScan,
    key: Seq<u8>,
    vocabulary: TxVocabulary,
) -> Result<Option<BasisScan>, ErrorView> {
    match keys::vnv_parts(key, codec::EAV) {
        Err(e) => Err(e),
        Ok((entity, attribute, value, _, _)) => match entity {
            Value::Long(eid) => if scan.first_eid is Some && scan.first_eid != Some(eid) {
                Ok(None)
            } else {
                Ok(
                    Some(
                        BasisScan {
                            first_eid: Some(eid),
                            tx_id: if attribute == vocabulary.tx_id && value is Long {
                                Some(value->Long_0)
                            } else {
                                scan.tx_id
                            },
                            system_time: if attribute == vocabulary.tx_instant
                                && value is Instant {
                                Some(value->Instant_0)
                            } else {
                                scan.system_time
                            },
                        },
                    ),
                )
            },
            other => Err(ErrorView::EntityNotLong(other)),
        },
    }
}

/// What is found in facts, up to the first of a second entity.
pub open spec fn found_in(scan: BasisScan, facts: Seq<Seq<u8>>, vocabulary: TxVocabulary) -> Result<
    BasisScan,
    ErrorView,
>
    decreases facts.len(),
{
    if facts.len() == 0 {
        Ok(scan)
    } else {
        match found_with(scan, facts[0], vocabulary) {
            Err(e) => Err(e),
            Ok(None) => Ok(scan),
            Ok(Some(next)) => found_in(next, facts.drop_first(), vocabulary),
        }
    }
}

/// The transaction that was found.
pub open spec fn basis_of(scan: BasisScan) -> Result<TxBasis, ErrorView> {
    match (scan.first_eid, scan.tx_id, scan.system_time) {
        (Some(tx_eid), Some(tx_id), Some(system_time)) => Ok(
            TxBasis { tx_key: TxKey { tx_id, system_time }, tx_eid },
        ),
        (None, _, _) => Err(ErrorView::NoTransaction),
        (Some(eid), tid, st) => Err(ErrorView::TransactionIncomplete(eid, tid, st)),
    }
}

/// The latest transaction, of the facts of transactions in order: the later a transaction, the
/// earlier its facts.
pub open spec fn latest(facts: Seq<Seq<u8>>, vocabulary: TxVocabulary) -> Result<TxBasis, ErrorView> {
    match found_in(nothing_found(), facts, vocabulary) {
        Ok(scan) => basis_of(scan),
        Err(e) => Err(e),
    }
}

impl BasisScan {
    /// Nothing has been found.
    pub fn new() -> (r: Self)
        ensures
            r == nothing_found(),
    {
        BasisScan { first_eid: None, tx_id: None, system_time: None }
    }

    /// Takes in the next fact. Tells whether it is one of the first entity; the others need not
    /// be read.
    pub fn step(&mut self, key: &[u8], vocabulary: &TxVocabulary) -> (r: Result<bool, Error>)
        ensures
            match (r, found_with(*old(self), key@, *vocabulary)) {
                (Ok(true), Ok(Some(next))) => *final(self) == next,
                (Ok(false), Ok(None)) => *final(self) == *old(self),
                (Err(e), Err(f)) => e@ == f && *final(self) == *old(self),
                _ => false,
            },
    {
        let (entity, attribute, value) = match eav_key_to_parts(key) {
            Ok((entity, attribute, value, _, _)) => (entity, attribute, value),
            Err(e) => {
                return Err(e);
            },
        };
        let eid: i64 = match entity {
            DataType::Long(eid) => eid,
            other => {
                return Err(Error::EntityNotLong(other));
            },
        };
        match self.first_eid {
            Some(first) => {
                if first != eid {
                    return Ok(false);
                }
            },
            None => {
                self.first_eid = Some(eid);
            },
        }
        if attribute == vocabulary.tx_id {
            match &value {
                DataType::Long(id) => {
                    self.tx_id = Some(*id);
                },
                _ => {},
            }
        }
        if attribute == vocabulary.tx_instant {
            match &value {
                DataType::Instant(time) => {
                    self.system_time = Some(*time);
                },
                _ => {},
            }
        }
        Ok(true)
    }

    /// The transaction that was found.
    pub fn finish(&self) -> (r: Result<TxBasis, Error>)
        ensures
            error::told(r) == basis_of(*self),
    {
        match (self.first_eid, self.tx_id, self.system_time) {
            (Some(tx_eid), Some(tx_id), Some(system_time)) => Ok(
                TxBasis { tx_key: TxKey { tx_id, system_time }, tx_eid },
            ),
            (None, _, _) => Err(Error::NoTransaction),
            (Some(eid), tid, st) => Err(Error::TransactionIncomplete(eid, tid, st)),
        }
    }
}

/// The latest transaction, of the facts of transactions in order.
pub fn latest_tx_basis(facts: &[Vec<u8>], vocabulary: &TxVocabulary) -> (r: Result<TxBasis, Error>)
    ensures
        error::told(r) == latest(facts.deep_view(), *vocabulary),
{
    let ghost all = facts.deep_view();
    assert(all.len() == facts@.len());
    let mut scan = BasisScan::new();
    let mut i: usize = 0;
    assert(all.skip(0) =~= all);
    while i < facts.len()
        invariant
            i <= facts@.len() == all.len(),
            all == facts.deep_view(),
            found_in(nothing_found(), all, *vocabulary) == found_in(
                scan,
                all.skip(i as int),
                *vocabulary,
            ),
        decreases facts@.len() - i,
    {
        proof {
            byte_string::lemma_deep_bytes(&facts@[i as int]);
            assert(all.skip(i as int)[0] == facts@[i as int]@);
            assert(all.skip(i as int).drop_first() =~= all.skip(i + 1));
        }
        match scan.step(&facts[i], vocabulary) {
            Ok(true) => {},
            Ok(false) => {
                return scan.finish();
            },
            Err(e) => {
                return Err(e);
            },
        }
        i += 1;
    }
    scan.finish()
}

/// A difference decides whatever follows.
pub proof fn lemma_before_followed(a: Seq<u8>, b: Seq<u8>, x: Seq<u8>, y: Seq<u8>)
    requires
        a.len() == b.len(),
        byte_string::before(a, b),
    ensures
        byte_string::before(a + x, b + y),
    decreases a.len(),
{
    assert((a + x)[0] == a[0]);
    assert((b + y)[0] == b[0]);
    if a[0] == b[0] {
        lemma_before_followed(a.drop_first(), b.drop_first(), x, y);
        assert((a + x).drop_first() =~= a.drop_first() + x);
        assert((b + y).drop_first() =~= b.drop_first() + y);
    }
}

/// The later an entity, the earlier its facts: entities stand in descending order.
pub proof fn law_later_entity_first(
    e: i64,
    a: i64,
    v: Value,
    tx_eid: i64,
    op: u8,
    earlier: i64,
    b: i64,
    w: Value,
    earlier_tx_eid: i64,
    earlier_op: u8,
)
    requires
        earlier < e,
    ensures
        byte_string::before(
            keys::eav_key(Value::Long(e), a, v, tx_eid, op),
            keys::eav_key(Value::Long(earlier), b, w, earlier_tx_eid, earlier_op),
        ),
{
    codec::law_i64_order(e, earlier);
    codec::law_i64_order(earlier, e);
    let x = codec::i64_bytes(a) + codec::encoding(v) + keys::suffix(tx_eid, op);
    let y = codec::i64_bytes(b) + codec::encoding(w) + keys::suffix(earlier_tx_eid, earlier_op);
    let p = codec::i64_bytes(e);
    let q = codec::i64_bytes(earlier);
    let s = keys::eav_key(Value::Long(e), a, v, tx_eid, op);
    let t = keys::eav_key(Value::Long(earlier), b, w, earlier_tx_eid, earlier_op);
    lemma_before_followed(p, q, x, y);
    assert(s.drop_first().drop_first() =~= p + x);
    assert(t.drop_first().drop_first() =~= q + y);
    assert(byte_string::before(s.drop_first(), t.drop_first()));
}

/// A fact in the index: entity, attribute, value, transaction and operation.
pub struct IndexedFact {
    pub entity: i64,
    pub attribute: i64,
    pub value: Value,
    pub tx_eid: i64,
    pub op: u8,
}

/// The keys of facts.
pub open spec fn keys_of(facts: Seq<IndexedFact>) -> Seq<Seq<u8>> {
    Seq::new(
        facts.len(),
        |i: int|
            keys::eav_key(
                Value::Long(facts[i].entity),
                facts[i].attribute,
                facts[i].value,
                facts[i].tx_eid,
                facts[i].op,
            ),
    )
}

/// Whether the facts up to a place are of one entity, and the next one, if there is one, is not.
pub open spec fn leading(facts: Seq<IndexedFact>, entity: i64, n: int) -> bool {
    &&& 0 <= n <= facts.len()
    &&& forall|i: int| 0 <= i < n ==> (#[trigger] facts[i]).entity == entity
    &&& n < facts.len() ==> facts[n].entity != entity
}

/// Whether an attribute of the leading facts has one value.
pub open spec fn only_value(
    facts: Seq<IndexedFact>,
    n: int,
    attribute: i64,
    value: Value,
) -> bool {
    &&& exists|i: int| 0 <= i < n && (#[trigger] facts[i]).attribute == attribute
    &&& forall|i: int|
        0 <= i < n && (#[trigger] facts[i]).attribute == attribute ==> facts[i].value == value
}

/// What has been found agrees with the leading facts.
spec fn found_before(scan: BasisScan, entity: i64, tx_key: TxKey) -> bool {
    &&& scan.first_eid is None || scan.first_eid == Some(entity)
    &&& scan.tx_id is None || scan.tx_id == Some(tx_key.tx_id)
    &&& scan.system_time is None || scan.system_time == Some(tx_key.system_time)
}

/// The scan of leading facts finds the entity, its number and its time.
proof fn lemma_found(
    scan: BasisScan,
    facts: Seq<IndexedFact>,
    n: int,
    entity: i64,
    tx_key: TxKey,
    vocabulary: TxVocabulary,
)
    requires
        leading(facts, entity, n),
        found_before(scan, entity, tx_key),
        n > 0 || scan.first_eid == Some(entity),
        forall|i: int|
            0 <= i < n && (#[trigger] facts[i]).attribute == vocabulary.tx_id ==> facts[i].value
                == Value::Long(tx_key.tx_id),
        forall|i: int|
            0 <= i < n && (#[trigger] facts[i]).attribute == vocabulary.tx_instant
                ==> facts[i].value == Value::Instant(tx_key.system_time),
        scan.tx_id is Some || exists|i: int|
            0 <= i < n && (#[trigger] facts[i]).attribute == vocabulary.tx_id,
        scan.system_time is Some || exists|i: int|
            0 <= i < n && (#[trigger] facts[i]).attribute == vocabulary.tx_instant,
    ensures
        found_in(scan, keys_of(facts), vocabulary) == Ok::<BasisScan, ErrorView>(
            BasisScan {
                first_eid: Some(entity),
                tx_id: Some(tx_key.tx_id),
                system_time: Some(tx_key.system_time),
            },
        ),
    decreases facts.len(),
{
    if facts.len() > 0 {
        let f = facts[0];
        let rest = facts.drop_first();
        assert(keys_of(facts).drop_first() =~= keys_of(rest));
        keys::law_eav_key_round_trip(
            Value::Long(f.entity),
            f.attribute,
            f.value,
            f.tx_eid,
            f.op,
        );
        assert(keys_of(facts)[0] == keys::eav_key(
            Value::Long(f.entity),
            f.attribute,
            f.value,
            f.tx_eid,
            f.op,
        ));
        if n > 0 {
            let next = found_with(scan, keys_of(facts)[0], vocabulary)->Ok_0->Some_0;
            assert(f.entity == entity);
            assert forall|i: int| 0 <= i < n - 1 implies (#[trigger] rest[i]).entity == entity by {
                assert(rest[i] == facts[i + 1]);
            }
            assert forall|i: int|
                0 <= i < n - 1 && (#[trigger] rest[i]).attribute
                    == vocabulary.tx_id implies rest[i].value == Value::Long(tx_key.tx_id) by {
                assert(rest[i] == facts[i + 1]);
            }
            assert forall|i: int|
                0 <= i < n - 1 && (#[trigger] rest[i]).attribute
                    == vocabulary.tx_instant implies rest[i].value == Value::Instant(
                tx_key.system_time,
            ) by {
                assert(rest[i] == facts[i + 1]);
            }
            if next.tx_id is None {
                let i = choose|i: int|
                    0 <= i < n && (#[trigger] facts[i]).attribute == vocabulary.tx_id;
                assert(rest[i - 1].attribute == vocabulary.tx_id);
            }
            if next.system_time is None {
                let i = choose|i: int|
                    0 <= i < n && (#[trigger] facts[i]).attribute == vocabulary.tx_instant;
                assert(rest[i - 1].attribute == vocabulary.tx_instant);
            }
            lemma_found(next, rest, n - 1, entity, tx_key, vocabulary);
        }
    }
}

/// The latest transaction is the entity of the leading facts, with the number and the time that
/// these give it.
pub proof fn law_latest_is_leading(
    facts: Seq<IndexedFact>,
    n: int,
    entity: i64,
    tx_key: TxKey,
    vocabulary: TxVocabulary,
)
    requires
        leading(facts, entity, n),
        only_value(facts, n, vocabulary.tx_id, Value::Long(tx_key.tx_id)),
        only_value(facts, n, vocabulary.tx_instant, Value::Instant(tx_key.system_time)),
    ensures
        latest(keys_of(facts), vocabulary) == Ok::<TxBasis, ErrorView>(
            TxBasis { tx_key, tx_eid: entity },
        ),
{
    lemma_found(nothing_found(), facts, n, entity, tx_key, vocabulary);
}

/// The name of the attribute for the time of a transaction.
pub open spec fn tx_instant_name() -> Seq<char> {
    "db/txInstant"@
}

/// The name of the attribute for the number of a transaction.
pub open spec fn tx_id_name() -> Seq<char> {
    "db/txId"@
}

/// The name of the attribute for the outcome of a transaction.
pub open spec fn tx_result_name() -> Seq<char> {
    "db/txResult"@
}

/// The name of the attribute for the error of a transaction.
pub open spec fn tx_error_name() -> Seq<char> {
    "db/txError"@
}

/// An asserted fact of an entity.
pub open spec fn asserted(entity: i64, attribute: Seq<char>, value: Value) -> DatomView {
    DatomView { entity, attribute, value, op: DatomOp::Assert }
}

/// What is written of a transaction: its time, its number, its outcome, and its error if there is
/// one.
pub open spec fn tx_entity(
    tx_eid: i64,
    tx_key: TxKey,
    committed: bool,
    error: Option<Value>,
    vocabulary: TxVocabulary,
) -> Seq<DatomView> {
    let outcome = if committed {
        vocabulary.committed
    } else {
        vocabulary.aborted
    };
    let always = seq![
        asserted(tx_eid, tx_instant_name(), Value::Instant(tx_key.system_time)),
        asserted(tx_eid, tx_id_name(), Value::Long(tx_key.tx_id)),
        asserted(tx_eid, tx_result_name(), Value::Long(outcome)),
    ];
    match error {
        Some(text) => always.push(asserted(tx_eid, tx_error_name(), text)),
        None => always,
    }
}

/// A text that may be missing, as a value.
pub open spec fn text_value(text: Option<String>) -> Option<Value> {
    match text {
        Some(s) => Some(DataType::String(s)@),
        None => None,
    }
}

/// Adds an asserted fact to a list.
fn add_fact(datoms: &mut Vec<Datom>, entity: i64, attribute: &str, value: DataType)
    ensures
        final(datoms).deep_view() == old(datoms).deep_view().push(
            asserted(entity, attribute@, value@),
        ),
{
    let ghost earlier = *datoms;
    let d = Datom { entity, attribute: Keyword::new(attribute), value, op: DatomOp::Assert };
    let ghost added = d;
    datoms.push(d);
    proof {
        byte_string::lemma_deep_push(earlier, *datoms, added);
    }
}

/// What is written of a transaction.
pub fn build_tx_entity_datoms(
    tx_eid: i64,
    tx_key: TxKey,
    committed: bool,
    error: Option<String>,
    vocabulary: &TxVocabulary,
) -> (r: Vec<Datom>)
    ensures
        r.deep_view() == tx_entity(tx_eid, tx_key, committed, text_value(error), *vocabulary),
{
    let outcome: i64 = if committed {
        vocabulary.committed
    } else {
        vocabulary.aborted
    };
    let mut datoms: Vec<Datom> = Vec::new();
    assert(datoms.deep_view() =~= Seq::empty());
    add_fact(&mut datoms, tx_eid, "db/txInstant", DataType::Instant(tx_key.system_time));
    add_fact(&mut datoms, tx_eid, "db/txId", DataType::Long(tx_key.tx_id));
    add_fact(&mut datoms, tx_eid, "db/txResult", DataType::Long(outcome));
    match error {
        Some(text) => {
            add_fact(&mut datoms, tx_eid, "db/txError", DataType::String(text));
        },
        None => {},
    }
    assert(datoms.deep_view() =~= tx_entity(
        tx_eid,
        tx_key,
        committed,
        text_value(error),
        *vocabulary,
    ));
    datoms
}

} // verus!
