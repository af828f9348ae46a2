use triplox::codec::{self, encode, encode_i64_bytes};
use triplox::error::Error;
use triplox::indexer::basis::{build_tx_entity_datoms, latest_tx_basis, BasisScan, TxVocabulary};
use triplox::indexer::commit::{
    finalize_datoms_for_commit, read_first, unique_lookups, validate_unique_constraints,
};
use triplox::indexer::owners::find_owners;
use triplox::indexer::keys::{
    ae_key_to_parts, aev_key_to_parts, av_key_to_parts, ave_key_to_parts, eav_key_to_parts,
    vae_key_to_parts, write_index_entries,
};
use triplox::indexer::state::{Indexer, TxCompletion, TxEvent, TxMessage, TxWaiter};
use triplox::indexer::stored::visible_now;
use triplox::indexer::transact::{TxWrite, Verdict};
use triplox::iterator::index::{Index, VecIterator};
use triplox::iterator::temporal_filter_iterator::TemporalFilterIterator;
use triplox::metadata::{Metadata, PartitionMap};
use triplox::node::{resume_after, resume_point, transaction_result, TransactionResult};
use triplox::ops::{Datom, DatomOp};
use triplox::partition::{
    make_entity_id, partition_entity_prefix, DB_PARTITION, TX_PARTITION, USER_PARTITION,
};
use triplox::schema::{AttributeInfo, Schema};
use triplox::transaction::{TxBasis, TxKey};
use triplox::value::{DataType, IndexType, Keyword};

const NAME: i64 = 42;
const TAGS: i64 = 43;
const EMAIL: i64 = 44;
const WORDS: TxVocabulary = TxVocabulary { tx_id: 50, tx_instant: 51, committed: 60, aborted: 61 };

fn schema() -> Schema {
    let one = |id| AttributeInfo { id, unique: false, multival: false };
    Schema {
        attributes: vec![
            (Keyword::new("name"), one(NAME)),
            (Keyword::new("tags"), AttributeInfo { id: TAGS, unique: false, multival: true }),
            (Keyword::new("email"), AttributeInfo { id: EMAIL, unique: true, multival: false }),
            (Keyword::new("db/txId"), one(WORDS.tx_id)),
            (Keyword::new("db/txInstant"), one(WORDS.tx_instant)),
            (Keyword::new("db/txResult"), one(52)),
            (Keyword::new("db/txError"), one(53)),
        ],
    }
}

fn text(s: &str) -> DataType {
    DataType::String(s.to_string())
}

fn datom(entity: i64, attribute: &str, value: DataType, op: DatomOp) -> Datom {
    Datom { entity, attribute: Keyword::new(attribute), value, op }
}

fn asserted(entity: i64, attribute: &str, value: &str) -> Datom {
    datom(entity, attribute, text(value), DatomOp::Assert)
}

fn retracted(entity: i64, attribute: &str, value: &str) -> Datom {
    datom(entity, attribute, text(value), DatomOp::Retract)
}

fn key(tx_id: i64) -> TxKey {
    TxKey { tx_id, system_time: tx_id * 1000 }
}

/// The keys of the indexes, and the next counters.
struct Store {
    keys: Vec<Vec<u8>>,
    counters: PartitionMap,
}

impl Store {
    fn new() -> Self {
        Store { keys: vec![], counters: PartitionMap::new() }
    }

    fn user(&mut self) -> i64 {
        self.counters.allocate_entid(USER_PARTITION)
    }

    fn put(&mut self, keys: Vec<Vec<u8>>) {
        self.keys.extend(keys);
        self.keys.sort();
        self.keys.dedup();
    }

    fn visible(&self, prefix: &[u8], as_of: i64) -> VecIterator {
        let keys = self.keys.iter().filter(|k| k.starts_with(prefix)).cloned().collect();
        let mut facts = TemporalFilterIterator::new(VecIterator::new(keys), prefix, as_of).unwrap();
        let mut out = vec![];
        while let Some(value) = facts.get_value().unwrap() {
            out.push(value);
            facts.next().unwrap();
        }
        VecIterator::new(out)
    }

    fn facts(&self, as_of: i64) -> VecIterator {
        self.visible(&[codec::EAV], as_of)
    }

    fn owners(&self, datoms: &[Datom], as_of: i64) -> Vec<Option<i64>> {
        let lookups = unique_lookups(datoms, &schema()).unwrap();
        find_owners(&lookups, &mut self.visible(&[codec::VAE], as_of)).unwrap()
    }

    /// Writes facts as a transaction does.
    fn transact(&mut self, tx_eid: i64, datoms: Vec<Datom>) -> Result<Vec<Datom>, Error> {
        let written = finalize_datoms_for_commit(
            &datoms,
            &schema(),
            &self.counters,
            &mut self.facts(tx_eid),
        )?;
        validate_unique_constraints(&written, &schema(), &self.owners(&written, tx_eid))?;
        let mut batch = vec![];
        write_index_entries(&mut batch, &written, &schema(), tx_eid)?;
        self.put(batch);
        Ok(written)
    }

    /// The values of an attribute that an entity has.
    fn values(&self, entity: i64, attribute: i64, as_of: i64) -> Vec<DataType> {
        let mut prefix = vec![codec::EAV];
        prefix.extend(encode(&DataType::Long(entity)));
        prefix.extend(encode_i64_bytes(attribute));
        let mut facts = self.visible(&prefix, as_of);
        let mut out = vec![];
        while let Some(value) = facts.get_value().unwrap() {
            out.push(codec::decode(&value).unwrap());
            facts.next().unwrap();
        }
        out
    }
}

#[test]
fn keys_are_read_back_as_they_were_written() {
    let mut batch = vec![];
    write_index_entries(&mut batch, &[asserted(7, "email", "a@b")], &schema(), 9).unwrap();

    assert_eq!(batch.len(), 6);
    assert_eq!(
        eav_key_to_parts(&batch[0]),
        Ok((DataType::Long(7), EMAIL, text("a@b"), 9, codec::ADD))
    );
    assert_eq!(
        ave_key_to_parts(&batch[1]),
        Ok((EMAIL, text("a@b"), DataType::Long(7), 9, codec::ADD))
    );
    assert_eq!(
        aev_key_to_parts(&batch[2]),
        Ok((EMAIL, DataType::Long(7), text("a@b"), 9, codec::ADD))
    );
    assert_eq!(
        vae_key_to_parts(&batch[3]),
        Ok((text("a@b"), EMAIL, DataType::Long(7), 9, codec::ADD))
    );
    assert_eq!(ae_key_to_parts(&batch[4]), Ok((EMAIL, DataType::Long(7))));
    assert_eq!(av_key_to_parts(&batch[5]), Ok((EMAIL, text("a@b"))));
}

#[test]
fn the_bytes_of_a_key_stand_in_index_order() {
    let mut batch = vec![];
    write_index_entries(&mut batch, &[retracted(7, "name", "x")], &schema(), 9).unwrap();

    let mut eav = vec![codec::EAV];
    eav.extend(encode(&DataType::Long(7)));
    eav.extend(encode_i64_bytes(NAME));
    eav.extend(encode(&text("x")));
    eav.extend(encode_i64_bytes(9));
    eav.push(codec::RETRACT);
    assert_eq!(batch.len(), 3);
    assert_eq!(batch[0], eav);
}

#[test]
fn foreign_and_short_keys_are_refused() {
    let mut batch = vec![];
    write_index_entries(&mut batch, &[asserted(7, "name", "x")], &schema(), 9).unwrap();

    assert_eq!(eav_key_to_parts(&batch[1]), Err(Error::WrongIndex(IndexType::EAV)));
    assert_eq!(ae_key_to_parts(&batch[0]), Err(Error::WrongIndex(IndexType::AE)));
    let said = |index| Error::WrongIndex(index).message();
    assert_eq!(eav_key_to_parts(&batch[1]).unwrap_err().message(), "Not a EAV key");
    assert_eq!(ae_key_to_parts(&batch[0]).unwrap_err().message(), "Not a AE key");
    assert_eq!(said(IndexType::AV), "Not a AV key");
    assert_eq!(said(IndexType::VAE), "Not a VAE key");
    assert_eq!(said(IndexType::AVE), "Not a AVE key");
    assert_eq!(said(IndexType::AEV), "Not a AEV key");
    assert_eq!(eav_key_to_parts(&[codec::EAV]), Err(Error::KeyTooShort));
    assert_eq!(ae_key_to_parts(&[codec::AE]), Err(Error::KeyTooShort));
    assert!(eav_key_to_parts(&[]).is_err());
    let mut broken = batch[0].clone();
    broken[1] = 250;
    assert_eq!(eav_key_to_parts(&broken), Err(Error::Decode));
}

#[test]
fn unknown_attributes_are_not_written() {
    let mut batch = vec![];
    let datoms = [asserted(7, "tags", "x"), asserted(7, "nothing", "y")];
    assert_eq!(
        write_index_entries(&mut batch, &datoms, &schema(), 9),
        Err(Error::UnknownAttribute("nothing".to_string()))
    );
    assert_eq!(batch.len(), 5);
    let mut store = Store::new();
    assert_eq!(
        store.transact(9, vec![asserted(7, "nothing", "y")]),
        Err(Error::UnknownAttribute("nothing".to_string()))
    );
}

#[test]
fn a_new_value_retracts_the_old_one() {
    let mut store = Store::new();
    let alice = store.user();
    store.transact(10, vec![asserted(alice, "name", "alice")]).unwrap();
    let written = store.transact(20, vec![asserted(alice, "name", "ally")]).unwrap();

    assert_eq!(
        written,
        vec![retracted(alice, "name", "alice"), asserted(alice, "name", "ally")]
    );
    assert_eq!(store.values(alice, NAME, 9), vec![]);
    assert_eq!(store.values(alice, NAME, 10), vec![text("alice")]);
    assert_eq!(store.values(alice, NAME, 20), vec![text("ally")]);
}

#[test]
fn a_value_that_stands_is_not_written_again() {
    let mut store = Store::new();
    let alice = store.user();
    store.transact(10, vec![asserted(alice, "name", "alice")]).unwrap();
    assert_eq!(store.transact(20, vec![asserted(alice, "name", "alice")]).unwrap(), vec![]);
    assert_eq!(store.values(alice, NAME, 20), vec![text("alice")]);
}

#[test]
fn the_old_value_is_the_one_that_stands() {
    let mut store = Store::new();
    let alice = store.user();
    store.transact(10, vec![asserted(alice, "name", "b")]).unwrap();
    store.transact(20, vec![asserted(alice, "name", "a")]).unwrap();
    let written = store.transact(30, vec![asserted(alice, "name", "c")]).unwrap();

    assert_eq!(written, vec![retracted(alice, "name", "a"), asserted(alice, "name", "c")]);
    assert_eq!(store.values(alice, NAME, 30), vec![text("c")]);
}

#[test]
fn several_values_stand_side_by_side() {
    let mut store = Store::new();
    let alice = store.user();
    store.transact(10, vec![asserted(alice, "tags", "x")]).unwrap();
    let written = store.transact(20, vec![asserted(alice, "tags", "y")]).unwrap();

    assert_eq!(written, vec![asserted(alice, "tags", "y")]);
    assert_eq!(store.values(alice, TAGS, 20), vec![text("x"), text("y")]);
}

#[test]
fn facts_are_written_once() {
    let mut store = Store::new();
    let alice = store.user();
    let twice = vec![asserted(alice, "tags", "x"), asserted(alice, "tags", "x")];
    assert_eq!(store.transact(10, twice).unwrap(), vec![asserted(alice, "tags", "x")]);
}

#[test]
fn entities_that_are_new_are_not_looked_up() {
    let mut store = Store::new();
    let unborn = make_entity_id(USER_PARTITION, 5);
    store.transact(10, vec![asserted(unborn, "name", "a")]).unwrap();
    let written = store.transact(20, vec![asserted(unborn, "name", "b")]).unwrap();
    assert_eq!(written, vec![asserted(unborn, "name", "b")]);
}

#[test]
fn unique_values_have_one_owner() {
    let mut store = Store::new();
    let alice = store.user();
    let bob = store.user();
    store.transact(10, vec![asserted(alice, "email", "a@b")]).unwrap();

    let refused = store.transact(20, vec![asserted(bob, "email", "a@b")]).unwrap_err();
    assert_eq!(refused, Error::UniqueOwned("email".to_string(), text("a@b"), alice));
    assert_eq!(
        refused.message(),
        format!(
            "Unique constraint violation for attribute :email value String(\"a@b\"): \
             entity {} already owns it",
            alice
        )
    );
    assert_eq!(store.transact(20, vec![asserted(alice, "email", "a@b")]).unwrap(), vec![]);
    let handed = vec![retracted(alice, "email", "a@b"), asserted(bob, "email", "a@b")];
    store.transact(30, handed).unwrap();
    assert_eq!(store.values(alice, EMAIL, 30), vec![]);
    assert_eq!(store.values(bob, EMAIL, 30), vec![text("a@b")]);
}

#[test]
fn one_batch_does_not_claim_a_value_twice() {
    let both = [asserted(1, "email", "a@b"), asserted(2, "email", "a@b")];
    let refused = unique_lookups(&both, &schema()).unwrap_err();
    assert_eq!(refused, Error::UniqueConflict("email".to_string(), text("a@b"), 1, 2));
    assert_eq!(
        refused.message(),
        "Unique constraint violation for attribute :email value String(\"a@b\"): \
         entities 1 and 2"
    );
    let same = [asserted(1, "email", "a@b"), asserted(1, "email", "a@b")];
    assert_eq!(unique_lookups(&same, &schema()).unwrap().len(), 2);
    assert_eq!(validate_unique_constraints(&both, &schema(), &[None, None]), Err(refused));
    assert_eq!(unique_lookups(&[asserted(1, "name", "x")], &schema()), Ok(vec![]));
    assert_eq!(
        unique_lookups(&[asserted(1, "nothing", "x")], &schema()).unwrap_err().message(),
        "Unknown attribute: :nothing"
    );
}

#[test]
fn the_first_rest_is_what_follows_a_prefix() {
    let mut cursor = VecIterator::new(vec![vec![1, 1], vec![1, 2], vec![3, 7, 8]]);
    let found = read_first(&vec![vec![3], vec![2], vec![1]], &mut cursor).unwrap();
    assert_eq!(found, vec![Some(vec![7, 8]), None, Some(vec![1])]);
}

fn transaction_facts(store: &mut Store, tx_eid: i64, tx_key: TxKey, error: Option<&str>) {
    let datoms = build_tx_entity_datoms(
        tx_eid,
        tx_key,
        error.is_none(),
        error.map(|e| e.to_string()),
        &WORDS,
    );
    let mut batch = vec![];
    write_index_entries(&mut batch, &datoms, &schema(), tx_eid).unwrap();
    store.put(batch);
}

fn transaction_keys(store: &Store) -> Vec<Vec<u8>> {
    let mut prefix = vec![codec::EAV];
    prefix.extend(partition_entity_prefix(TX_PARTITION));
    store.keys.iter().filter(|k| k.starts_with(&prefix)).cloned().collect()
}

#[test]
fn a_transaction_is_described_by_facts() {
    let facts = build_tx_entity_datoms(5, key(3), true, None, &WORDS);
    assert_eq!(
        facts,
        vec![
            datom(5, "db/txInstant", DataType::Instant(3000), DatomOp::Assert),
            datom(5, "db/txId", DataType::Long(3), DatomOp::Assert),
            datom(5, "db/txResult", DataType::Long(WORDS.committed), DatomOp::Assert),
        ]
    );
    let facts = build_tx_entity_datoms(5, key(3), false, Some("no".to_string()), &WORDS);
    assert_eq!(facts[2].value, DataType::Long(WORDS.aborted));
    assert_eq!(facts[3], asserted(5, "db/txError", "no"));
}

#[test]
fn the_latest_transaction_leads_the_index() {
    let mut store = Store::new();
    for n in 0..3 {
        let tx_eid = store.counters.allocate_entid(TX_PARTITION);
        let error = if n == 2 { Some("refused") } else { None };
        transaction_facts(&mut store, tx_eid, key(n), error);
    }
    assert_eq!(
        latest_tx_basis(&transaction_keys(&store), &WORDS),
        Ok(TxBasis { tx_key: key(2), tx_eid: make_entity_id(TX_PARTITION, 2) })
    );
}

#[test]
fn a_missing_or_incomplete_transaction_is_reported() {
    assert_eq!(latest_tx_basis(&[], &WORDS), Err(Error::NoTransaction));
    let mut batch = vec![];
    let fact = [datom(5, "db/txId", DataType::Long(3), DatomOp::Assert)];
    write_index_entries(&mut batch, &fact, &schema(), 5).unwrap();
    let incomplete = latest_tx_basis(&batch[..1], &WORDS).unwrap_err();
    assert_eq!(incomplete, Error::TransactionIncomplete(5, Some(3), None));
    assert_eq!(
        incomplete.message(),
        "Tx entity 5 missing required attributes (tx_id=Some(3), system_time=None)"
    );

    assert_eq!(
        Error::TransactionIncomplete(5, None, Some(1_000_000)).message(),
        "Tx entity 5 missing required attributes (tx_id=None, \
         system_time=Some(1970-01-01T00:00:01Z))"
    );

    let mut odd = vec![codec::EAV];
    odd.extend(encode(&text("entity")));
    odd.extend(encode_i64_bytes(WORDS.tx_id));
    odd.extend(encode(&DataType::Long(3)));
    odd.extend(encode_i64_bytes(5));
    odd.push(codec::ADD);
    assert_eq!(latest_tx_basis(&[odd], &WORDS), Err(Error::EntityNotLong(text("entity"))));
}

#[test]
fn a_scan_stops_behind_the_first_entity() {
    let mut store = Store::new();
    transaction_facts(&mut store, make_entity_id(TX_PARTITION, 0), key(0), None);
    transaction_facts(&mut store, make_entity_id(TX_PARTITION, 1), key(1), None);
    let keys = transaction_keys(&store);
    let mut scan = BasisScan::new();
    for (i, fact) in keys.iter().enumerate() {
        assert_eq!(scan.step(fact, &WORDS), Ok(i < 3));
    }
    assert_eq!(scan.finish().unwrap().tx_key, key(1));
}

fn indexer() -> Indexer {
    Indexer::new(Metadata::new(schema(), PartitionMap::new()), None)
}

#[test]
fn a_commit_moves_the_indexer_on() {
    let mut indexer = indexer();
    let (pending, tx_eid) = indexer.begin();
    assert_eq!(tx_eid, make_entity_id(TX_PARTITION, 0));
    assert!(indexer.latest_tx_basis().is_none());

    let user = make_entity_id(USER_PARTITION, 0);
    let mut nothing = VecIterator::new(vec![]);
    let datoms = indexer
        .prepare_commit(vec![asserted(user, "name", "a")], key(1), tx_eid, &WORDS, &mut nothing)
        .unwrap();
    assert_eq!(datoms.len(), 4);
    let entries = indexer.index_entries(&datoms, tx_eid).unwrap();
    assert_eq!(entries.len(), 20);

    let basis = TxBasis { tx_key: key(1), tx_eid };
    let told = indexer.commit(key(1), tx_eid, pending, None);
    assert_eq!(told, TxMessage { tx_key: key(1), basis: Some(basis), error: None });
    assert_eq!(indexer.latest_tx_basis(), Some(basis));
    assert_eq!(indexer.begin().1, make_entity_id(TX_PARTITION, 1));
    assert_eq!(indexer.metadata().generation, 0);
}

#[test]
fn a_changed_schema_begins_a_generation() {
    let mut indexer = indexer();
    let (pending, tx_eid) = indexer.begin();
    indexer.commit(key(1), tx_eid, pending, Some(Schema { attributes: vec![] }));
    assert_eq!(indexer.metadata().generation, 1);
    assert!(indexer.metadata().schema.get_attribute(&Keyword::new("name")).is_none());
}

#[test]
fn an_abort_keeps_what_was_known() {
    let mut indexer = indexer();
    let (pending, tx_eid) = indexer.begin();
    let entries = indexer.prepare_abort(key(1), tx_eid, "no".to_string(), &WORDS).unwrap();
    assert_eq!(entries.len(), 20);
    let told = indexer.abort(key(1), tx_eid, pending, "no".to_string());
    let basis = TxBasis { tx_key: key(1), tx_eid };
    assert_eq!(
        told,
        TxMessage { tx_key: key(1), basis: Some(basis), error: Some("no".to_string()) }
    );
    assert_eq!(indexer.latest_tx_basis(), Some(basis));
    assert_eq!(indexer.metadata().generation, 0);
    assert!(!indexer.metadata().partition_map.contains_entid(make_entity_id(DB_PARTITION, 0)));
    assert!(indexer.metadata().partition_map.contains_entid(tx_eid));

    let bare = Indexer::new(
        Metadata::new(Schema { attributes: vec![] }, PartitionMap::new()),
        None,
    );
    assert_eq!(
        bare.prepare_abort(key(1), tx_eid, "no".to_string(), &WORDS),
        Err(Error::UnknownAttribute("db/txInstant".to_string()))
    );
    assert_eq!(
        Indexer::unwritten(key(2), "lost".to_string()),
        TxMessage { tx_key: key(2), basis: None, error: Some("lost".to_string()) }
    );
}

/// Cursors over what is visible in a store.
fn scans(store: &Store) -> (VecIterator, VecIterator) {
    (store.visible(&[codec::EAV], i64::MAX), store.visible(&[codec::VAE], i64::MAX))
}

/// Writes what is to be written of a transaction, and completes it.
fn run(indexer: &mut Indexer, store: &mut Store, tx_id: i64, datoms: Vec<Datom>) -> TxMessage {
    let (pending, tx_eid) = indexer.begin();
    let write = plan(indexer, store, tx_id, tx_eid, pending, datoms, || Verdict::Accepted(None));
    store.put(write.entries.clone());
    indexer.complete(write)
}

/// What is to be written of a transaction.
fn plan(
    indexer: &Indexer,
    store: &Store,
    tx_id: i64,
    tx_eid: i64,
    pending: PartitionMap,
    datoms: Vec<Datom>,
    rules: fn() -> Verdict,
) -> TxWrite {
    let (mut current, mut owned) = scans(store);
    indexer
        .transact(
            key(tx_id),
            tx_eid,
            pending,
            datoms,
            &WORDS,
            &mut current,
            &mut owned,
            |_| rules(),
        )
        .unwrap()
}

#[test]
fn a_transaction_is_written_as_committed_or_as_aborted() {
    let mut indexer = indexer();
    let mut store = Store::new();
    let a = make_entity_id(USER_PARTITION, 0);
    let b = make_entity_id(USER_PARTITION, 1);
    let told = run(&mut indexer, &mut store, 0, vec![asserted(a, "email", "x")]);
    let first = TxBasis { tx_key: key(0), tx_eid: make_entity_id(TX_PARTITION, 0) };
    assert_eq!(told, TxMessage { tx_key: key(0), basis: Some(first), error: None });
    assert_eq!(store.values(a, EMAIL, i64::MAX), vec![text("x")]);

    let told = run(&mut indexer, &mut store, 1, vec![asserted(b, "email", "x")]);
    let second = TxBasis { tx_key: key(1), tx_eid: make_entity_id(TX_PARTITION, 1) };
    let reason = Error::UniqueOwned("email".to_string(), text("x"), a).message();
    assert_eq!(told, TxMessage { tx_key: key(1), basis: Some(second), error: Some(reason.clone()) });
    assert_eq!(store.values(a, EMAIL, i64::MAX), vec![text("x")]);
    assert_eq!(store.values(b, EMAIL, i64::MAX), vec![]);
    assert_eq!(store.values(second.tx_eid, 53, i64::MAX), vec![text(&reason)]);
    assert_eq!(indexer.latest_tx_basis(), Some(second));

    let given = vec![retracted(a, "email", "x"), asserted(b, "email", "x")];
    assert!(run(&mut indexer, &mut store, 2, given).error.is_none());
    assert_eq!(store.values(a, EMAIL, i64::MAX), vec![]);
    assert_eq!(store.values(b, EMAIL, i64::MAX), vec![text("x")]);

    let told = run(&mut indexer, &mut store, 3, vec![asserted(b, "age", "3")]);
    assert_eq!(told.error, Some("Unknown attribute: :age".to_string()));
    let twice = vec![asserted(a, "email", "y"), asserted(b, "email", "y")];
    let told = run(&mut indexer, &mut store, 4, twice);
    let reason = Error::UniqueConflict("email".to_string(), text("y"), a, b).message();
    assert_eq!(told.error, Some(reason));
}

#[test]
fn a_transaction_that_cannot_be_written_is_aborted_or_told() {
    let indexer = indexer();
    let (pending, tx_eid) = indexer.begin();
    let accept = || Verdict::Accepted(None);
    let write = plan(&indexer, &Store::new(), 0, tx_eid, pending, vec![], accept);
    assert!(write.error.is_none());
    let abort = indexer.write_failed(write, "disk full".to_string(), &WORDS).unwrap();
    assert_eq!(abort.error, Some("disk full".to_string()));
    assert_eq!(abort.entries.len(), 20);
    assert_eq!(
        indexer.write_failed(abort, "still full".to_string(), &WORDS).unwrap_err(),
        "Failed to write aborted tx entity for 0: still full; original transaction error: disk full"
    );

    let bare = Indexer::new(
        Metadata::new(Schema { attributes: vec![] }, PartitionMap::new()),
        None,
    );
    assert_eq!(
        bare.refuse(key(4), "no".to_string(), &WORDS).unwrap_err(),
        "Failed to write aborted tx entity for 4: Unknown attribute: :db/txInstant; \
         original transaction error: no"
    );
}

#[test]
fn only_a_commit_changes_the_schema() {
    let mut indexer = indexer();
    let store = Store::new();
    let known = |indexer: &Indexer| {
        indexer.metadata().schema.get_attribute(&Keyword::new("name")).is_some()
    };
    let (mut pending, tx_eid) = indexer.begin();
    let user = pending.allocate_entid(USER_PARTITION);
    let facts = || vec![asserted(user, "name", "a")];
    let refuse = || Verdict::Refused("cannot change :name".to_string());
    let write = plan(&indexer, &store, 0, tx_eid, pending, facts(), refuse);
    assert_eq!(write.error, Some("cannot change :name".to_string()));
    indexer.complete(write);
    assert_eq!(indexer.metadata().generation, 0);
    assert!(known(&indexer));
    assert!(!indexer.metadata().partition_map.contains_entid(user));
    assert!(indexer.metadata().partition_map.contains_entid(tx_eid));

    let (mut pending, tx_eid) = indexer.begin();
    assert_eq!(pending.allocate_entid(USER_PARTITION), user);
    let change = || Verdict::Accepted(Some(Schema { attributes: vec![] }));
    let write = plan(&indexer, &store, 1, tx_eid, pending, facts(), change);
    assert_eq!(write.entries.len(), 20);
    indexer.complete(write);
    assert_eq!(indexer.metadata().generation, 1);
    assert!(!known(&indexer));
    assert!(indexer.metadata().partition_map.contains_entid(user));
}

#[test]
fn stored_keys_are_read_only_in_their_order_and_form() {
    let mut store = Store::new();
    let a = store.user();
    store.transact(1, vec![asserted(a, "name", "x"), asserted(a, "tags", "t")]).unwrap();
    store.transact(2, vec![asserted(a, "name", "y")]).unwrap();
    let keys: Vec<Vec<u8>> =
        store.keys.iter().filter(|k| k[0] == codec::EAV).cloned().collect();
    assert_eq!(keys.len(), 4);
    let mut shown = visible_now(keys.clone(), codec::EAV).unwrap();
    let mut count = 0;
    while shown.get_value().unwrap().is_some() {
        count += 1;
        shown.next().unwrap();
    }
    assert_eq!(count, 2);
    assert!(visible_now(keys.clone(), codec::VAE).is_none());
    let mut turned = keys.clone();
    turned.reverse();
    assert!(visible_now(turned, codec::EAV).is_none());
    let mut cut = keys[0].clone();
    cut.remove(3);
    assert!(visible_now(vec![cut], codec::EAV).is_none());
    assert!(visible_now(vec![], codec::EAV).is_some());
}

#[test]
fn one_who_waits_is_told_at_once_or_by_an_event() {
    let basis = TxBasis { tx_key: key(5), tx_eid: 55 };
    let waiter = TxWaiter { latest_tx: Some(basis) };
    assert_eq!(
        waiter.already_done(key(5)),
        Some(TxCompletion { basis: Some(basis), error: None })
    );
    assert_eq!(waiter.already_done(key(4)), Some(TxCompletion { basis: None, error: None }));
    assert_eq!(waiter.already_done(key(6)), None);
    assert_eq!(TxWaiter { latest_tx: None }.already_done(key(0)), None);
    assert!(waiter.already_indexed(key(5)));
    assert!(!waiter.already_indexed(key(6)));

    let message = |n| TxEvent::Completed(TxMessage { tx_key: key(n), basis: None, error: None });
    assert!(TxWaiter::await_tx(key(5), message(4)).is_none());
    assert!(TxWaiter::await_tx(key(5), TxEvent::Lagged).is_none());
    assert_eq!(
        TxWaiter::await_tx(key(5), message(5)),
        Some(Ok(TxCompletion { basis: None, error: None }))
    );
    assert_eq!(TxWaiter::await_tx(key(5), TxEvent::Closed), Some(Err(Error::Shutdown(5))));
    assert_eq!(TxWaiter::await_indexed(key(5), &message(4)), None);
    assert_eq!(TxWaiter::await_indexed(key(5), &message(6)), Some(Ok(())));
    assert_eq!(TxWaiter::await_indexed(key(5), &TxEvent::Lagged), None);
    assert_eq!(
        TxWaiter::await_indexed(key(5), &TxEvent::Closed),
        Some(Err(Error::Shutdown(5)))
    );
}

#[test]
fn a_node_goes_on_behind_what_it_has_indexed() {
    let bootstrap = make_entity_id(TX_PARTITION, 0);
    let first = TxBasis { tx_key: key(0), tx_eid: bootstrap };
    let second = TxBasis { tx_key: key(0), tx_eid: make_entity_id(TX_PARTITION, 1) };
    assert_eq!(resume_point(first, bootstrap), None);
    assert_eq!(resume_point(second, bootstrap), Some(second));
    assert_eq!(resume_after(None), None);
    assert_eq!(resume_after(Some(second)), Some(0));
}

#[test]
fn what_became_of_a_transaction() {
    let basis = TxBasis { tx_key: key(5), tx_eid: 55 };
    let done = |basis, error| TxCompletion { basis, error };
    assert!(matches!(
        transaction_result(key(5), done(Some(basis), None)),
        Ok(TransactionResult::TxCommited(b)) if b == basis
    ));
    assert!(matches!(
        transaction_result(key(5), done(Some(basis), Some("no".to_string()))),
        Ok(TransactionResult::TxAborted(b, e)) if b == basis && e == "no"
    ));
    assert!(matches!(
        transaction_result(key(5), done(None, None)),
        Err(Error::NoBasis(5))
    ));
}

#[test]
fn of_three_values_written_in_turn_the_last_is_left() {
    let mut store = Store::new();
    let e = store.user();
    store.transact(10, vec![asserted(e, "name", "alice")]).unwrap();
    store.transact(20, vec![asserted(e, "name", "bob")]).unwrap();
    let written = store.transact(30, vec![asserted(e, "name", "carol")]).unwrap();
    assert_eq!(written.len(), 2);
    assert!(written.contains(&retracted(e, "name", "bob")));
    assert!(written.contains(&asserted(e, "name", "carol")));
    assert_eq!(store.values(e, NAME, 30), vec![text("carol")]);
    assert_eq!(store.values(e, NAME, 20), vec![text("bob")]);
}

#[test]
fn owners_are_found_in_the_index_by_value() {
    let mut store = Store::new();
    let alice = store.user();
    let bob = store.user();
    store.transact(10, vec![asserted(alice, "email", "a@b")]).unwrap();
    let claims = [asserted(bob, "email", "a@b"), asserted(bob, "email", "x@y")];
    assert_eq!(store.owners(&claims, 10), vec![Some(alice), None]);
    assert_eq!(store.owners(&claims, 9), vec![None, None]);

    let lookups = unique_lookups(&claims[..1], &schema()).unwrap();
    let mut odd = encode(&text("a@b"));
    odd.extend(encode_i64_bytes(EMAIL));
    let mut broken = odd.clone();
    odd.extend(encode(&text("nobody")));
    let refused = find_owners(&lookups, &mut VecIterator::new(vec![odd])).unwrap_err();
    assert_eq!(refused.message(), "Expected Long entity ID in VAE key, got String(\"nobody\")");
    broken.push(255);
    let unread = find_owners(&lookups, &mut VecIterator::new(vec![broken]));
    assert_eq!(unread, Err(Error::Decode));
}
