//! The state of the indexer, and how others wait for it.

use vstd::prelude::*;

use crate::error::{self, Error, ErrorView};
use crate::indexer::basis::{self, build_tx_entity_datoms, TxVocabulary};
use crate::indexer::commit::{self, finalize_datoms_for_commit};
use crate::indexer::keys::{self, write_index_entries};
use crate::iterator::index::Index;
use crate::metadata::{Metadata, PartitionMap};
use crate::ops::Datom;
use crate::partition;
use crate::schema::Schema;
use crate::text::{self, decimal_text, followed_by};
use crate::transaction::{self, TxBasis, TxKey};

verus! {

/// What is told of a transaction: the basis, if it has been indexed, and the error, if there was
/// one.
#[derive(Debug, PartialEq, Eq)]
pub struct TxMessage {
    pub tx_key: TxKey,
    pub basis: Option<TxBasis>,
    pub error: Option<String>,
}

/// What one who waits for a transaction is told.
#[derive(Debug, PartialEq, Eq)]
pub struct TxCompletion {
    pub basis: Option<TxBasis>,
    pub error: Option<String>,
}

/// What one who waits receives: a message, that messages were missed, or that there will be no
/// more.
#[derive(Debug)]
pub enum TxEvent {
    Completed(TxMessage),
    Lagged,
    Closed,
}

/// One who waits, with the latest transaction at the time of subscribing.
#[derive(Clone, Copy, Debug)]
pub struct TxWaiter {
    pub latest_tx: Option<TxBasis>,
}

/// What was heard, with what its error is.
pub open spec fn heard<T>(r: Option<Result<T, Error>>) -> Option<Result<T, ErrorView>> {
    match r {
        Some(outcome) => Some(error::told(outcome)),
        None => None,
    }
}

impl TxWaiter {
    /// What is known of a transaction without waiting: the latest one is known by its basis, and
    /// of an earlier one only that it is done.
    pub fn already_done(&self, tx_key: TxKey) -> (r: Option<TxCompletion>)
        ensures
            match self.latest_tx {
                Some(latest) => if tx_key == latest.tx_key {
                    r == Some(TxCompletion { basis: Some(latest), error: None })
                } else if transaction::precedes(tx_key, latest.tx_key) {
                    r == Some(TxCompletion { basis: None, error: None })
                } else {
                    r is None
                },
                None => r is None,
            },
    {
        match self.latest_tx {
            Some(latest) => {
                if tx_key == latest.tx_key {
                    return Some(TxCompletion { basis: Some(latest), error: None });
                }
                if tx_key.is_before(&latest.tx_key) {
                    return Some(TxCompletion { basis: None, error: None });
                }
                None
            },
            None => None,
        }
    }

    /// What an event says of a transaction: a message on it or on a later one decides; without
    /// more messages there is an error; otherwise the waiting goes on.
    pub fn await_tx(tx_key: TxKey, event: TxEvent) -> (r: Option<Result<TxCompletion, Error>>)
        ensures
            match event {
                TxEvent::Completed(message) => if transaction::precedes(message.tx_key, tx_key) {
                    r is None
                } else {
                    heard(r) == Some(
                        Ok::<TxCompletion, ErrorView>(
                            TxCompletion { basis: message.basis, error: message.error },
                        ),
                    )
                },
                TxEvent::Lagged => r is None,
                TxEvent::Closed => heard(r) == Some(
                    Err::<TxCompletion, ErrorView>(ErrorView::Shutdown(tx_key.tx_id)),
                ),
            },
    {
        match event {
            TxEvent::Completed(message) => {
                if message.tx_key.is_before(&tx_key) {
                    None
                } else {
                    Some(Ok(TxCompletion { basis: message.basis, error: message.error }))
                }
            },
            TxEvent::Lagged => None,
            TxEvent::Closed => Some(Err(Error::Shutdown(tx_key.tx_id))),
        }
    }

    /// Whether indexing has reached a transaction by its number.
    pub fn already_indexed(&self, tx_key: TxKey) -> (r: bool)
        ensures
            r == (match self.latest_tx {
                Some(latest) => tx_key.tx_id <= latest.tx_key.tx_id,
                None => false,
            }),
    {
        match self.latest_tx {
            Some(latest) => tx_key.tx_id <= latest.tx_key.tx_id,
            None => false,
        }
    }

    /// What an event says of indexing: whether it has reached a transaction by its number.
    pub fn await_indexed(tx_key: TxKey, event: &TxEvent) -> (r: Option<Result<(), Error>>)
        ensures
            heard(r) == (match *event {
                TxEvent::Completed(message) => if message.tx_key.tx_id >= tx_key.tx_id {
                    Some(Ok::<(), ErrorView>(()))
                } else {
                    None
                },
                TxEvent::Lagged => None,
                TxEvent::Closed => Some(Err::<(), ErrorView>(ErrorView::Shutdown(tx_key.tx_id))),
            }),
    {
        match event {
            TxEvent::Completed(message) => {
                if message.tx_key.tx_id >= tx_key.tx_id {
                    Some(Ok(()))
                } else {
                    None
                }
            },
            TxEvent::Lagged => None,
            TxEvent::Closed => Some(Err(Error::Shutdown(tx_key.tx_id))),
        }
    }
}

/// The state of the indexer.
#[derive(Debug)]
pub struct Indexer {
    pub metadata: Metadata,
    pub latest_indexed_tx: Option<TxBasis>,
}

/// Whether one more transaction has an entity number.
pub open spec fn may_begin(counters: Map<u32, i64>) -> bool {
    0 <= partition::next_counter(counters, partition::TX_PARTITION) <= partition::COUNTER_MASK
}

/// The entity number of the next transaction.
pub open spec fn next_tx_eid(counters: Map<u32, i64>) -> int {
    partition::entity_id(
        partition::TX_PARTITION as int,
        partition::next_counter(counters, partition::TX_PARTITION) as int,
    )
}

/// The counters with the entity number of the next transaction taken.
pub open spec fn after_begin(counters: Map<u32, i64>) -> Map<u32, i64> {
    counters.insert(
        partition::TX_PARTITION,
        (partition::next_counter(counters, partition::TX_PARTITION) + 1) as i64,
    )
}

/// Why nothing has been written of a transaction that was to be aborted.
pub open spec fn abort_failure_text(tx_key: TxKey, cause: Seq<char>, error: Seq<char>) -> Seq<
    char,
> {
    "Failed to write aborted tx entity for "@ + text::decimal(tx_key.tx_id as int) + ": "@ + cause
        + "; original transaction error: "@ + error
}

impl Indexer {
    /// An indexer with what has been indexed.
    pub fn new(metadata: Metadata, latest_indexed_tx: Option<TxBasis>) -> (r: Self)
        ensures
            r.metadata == metadata,
            r.latest_indexed_tx == latest_indexed_tx,
    {
        Indexer { metadata, latest_indexed_tx }
    }

    /// The counters and the schema.
    pub fn metadata(&self) -> (r: &Metadata)
        ensures
            *r == self.metadata,
    {
        &self.metadata
    }

    /// The latest transaction that has been indexed.
    pub fn latest_tx_basis(&self) -> (r: Option<TxBasis>)
        ensures
            r == self.latest_indexed_tx,
    {
        self.latest_indexed_tx
    }

    /// One who waits from now on.
    pub fn tx_waiter(&self) -> (r: TxWaiter)
        ensures
            r.latest_tx == self.latest_indexed_tx,
    {
        TxWaiter { latest_tx: self.latest_indexed_tx }
    }

    /// Begins a transaction: a copy of the counters, in which the entity number of the
    /// transaction is taken. The indexer stays as it is until the transaction is done.
    pub fn begin(&self) -> (r: (PartitionMap, i64))
        requires
            may_begin(self.metadata.partition_map@),
        ensures
            r.0@ == after_begin(self.metadata.partition_map@),
            r.1 == next_tx_eid(self.metadata.partition_map@),
    {
        let mut pending = self.metadata.partition_map.clone();
        let tx_eid: i64 = pending.allocate_entid(partition::TX_PARTITION);
        (pending, tx_eid)
    }

    /// What is written of a transaction that commits: its facts, with those of the transaction
    /// itself, over a cursor on the visible facts by entity, attribute and value.
    pub fn prepare_commit<I: Index>(
        &self,
        datoms: Vec<Datom>,
        tx_key: TxKey,
        tx_eid: i64,
        vocabulary: &TxVocabulary,
        iterator: &mut I,
    ) -> (r: Result<Vec<Datom>, Error>)
        requires
            old(iterator).inv(),
            old(iterator).position() == 0,
        ensures
            ({
                let facts = datoms.deep_view() + basis::tx_entity(
                    tx_eid,
                    tx_key,
                    true,
                    None,
                    *vocabulary,
                );
                let schema = self.metadata.schema;
                let counters = self.metadata.partition_map@;
                let entries = old(iterator).entries();
                match r {
                    Ok(written) => commit::assertions_known(facts, schema) && commit::readable(
                        facts,
                        schema,
                        counters,
                        entries,
                    ) && written.deep_view() == commit::committed(facts, schema, counters, entries),
                    Err(e) => old(iterator).reliable() ==> {
                        ||| commit::first_unknown(facts, schema) matches Some(name) && e@
                            == ErrorView::UnknownAttribute(name)
                        ||| e@ == ErrorView::Decode && commit::assertions_known(facts, schema)
                            && !commit::readable(facts, schema, counters, entries)
                    },
                }
            }),
    {
        let ghost given = datoms.deep_view();
        let mut all = datoms;
        let mut own = build_tx_entity_datoms(tx_eid, tx_key, true, None, vocabulary);
        let ghost head = all;
        let ghost tail = own;
        all.append(&mut own);
        assert(all.deep_view() =~= head.deep_view() + tail.deep_view());
        finalize_datoms_for_commit(
            &all,
            &self.metadata.schema,
            &self.metadata.partition_map,
            iterator,
        )
    }

    /// The entries of facts in the indexes.
    pub fn index_entries(&self, datoms: &[Datom], tx_eid: i64) -> (r: Result<Vec<Vec<u8>>, Error>)
        ensures
            match r {
                Ok(entries) => keys::all_known(datoms.deep_view(), self.metadata.schema)
                    && entries.deep_view() == keys::all_entries(
                    datoms.deep_view(),
                    self.metadata.schema,
                    tx_eid,
                ),
                Err(e) => keys::first_unknown(datoms.deep_view(), self.metadata.schema) matches Some(
                    name,
                ) && e@ == ErrorView::UnknownAttribute(name),
            },
    {
        let mut batch: Vec<Vec<u8>> = Vec::new();
        assert(batch.deep_view() =~= Seq::empty());
        match write_index_entries(&mut batch, datoms, &self.metadata.schema, tx_eid) {
            Ok(_) => {
                assert(batch.deep_view() =~= keys::all_entries(
                    datoms.deep_view(),
                    self.metadata.schema,
                    tx_eid,
                ));
                Ok(batch)
            },
            Err(e) => {
                proof {
                    let facts = datoms.deep_view();
                    let schema = self.metadata.schema;
                    assert(facts.len() == datoms@.len());
                    let n = choose|n: int|
                        0 <= n < facts.len() && e@ == ErrorView::UnknownAttribute(
                            facts[n].attribute,
                        ) && schema.find((#[trigger] facts[n]).attribute) is None
                            && keys::all_known(facts.take(n), schema);
                    keys::lemma_first_unknown(facts, schema, n);
                }
                Err(e)
            },
        }
    }

    /// Commits a transaction that has been written: the counters and the latest transaction move
    /// on, and where the schema changes, the generation does. Gives what is to be told.
    pub fn commit(
        &mut self,
        tx_key: TxKey,
        tx_eid: i64,
        pending: PartitionMap,
        schema: Option<Schema>,
    ) -> (r: TxMessage)
        requires
            schema is Some ==> old(self).metadata.generation < u64::MAX,
        ensures
            final(self).metadata.partition_map == pending,
            schema matches Some(s) ==> final(self).metadata.schema == s,
            schema is None ==> final(self).metadata.schema == old(self).metadata.schema,
            final(self).metadata.generation == old(self).metadata.generation + (if schema is Some {
                1int
            } else {
                0
            }),
            final(self).latest_indexed_tx == Some(TxBasis { tx_key, tx_eid }),
            r == (TxMessage { tx_key, basis: Some(TxBasis { tx_key, tx_eid }), error: None }),
    {
        self.metadata.partition_map = pending;
        match schema {
            Some(schema) => {
                self.metadata.schema = schema;
                self.metadata.advance_generation();
            },
            None => {},
        }
        let basis = TxBasis { tx_key, tx_eid };
        self.latest_indexed_tx = Some(basis);
        TxMessage { tx_key, basis: Some(basis), error: None }
    }

    /// What is written of a transaction that aborts: nothing of its facts, only those of the
    /// transaction itself.
    pub fn prepare_abort(
        &self,
        tx_key: TxKey,
        tx_eid: i64,
        error: String,
        vocabulary: &TxVocabulary,
    ) -> (r: Result<Vec<Vec<u8>>, Error>)
        ensures
            ({
                let facts = basis::tx_entity(
                    tx_eid,
                    tx_key,
                    false,
                    basis::text_value(Some(error)),
                    *vocabulary,
                );
                match r {
                    Ok(entries) => keys::all_known(facts, self.metadata.schema)
                        && entries.deep_view() == keys::all_entries(
                        facts,
                        self.metadata.schema,
                        tx_eid,
                    ),
                    Err(e) => keys::first_unknown(facts, self.metadata.schema) matches Some(name)
                        && e@ == ErrorView::UnknownAttribute(name),
                }
            }),
    {
        let datoms = build_tx_entity_datoms(tx_eid, tx_key, false, Some(error), vocabulary);
        self.index_entries(&datoms, tx_eid)
    }

    /// Takes in an aborted transaction that has been written: the counters and the latest
    /// transaction move on, schema and generation stay. Gives what is to be told.
    pub fn abort(
        &mut self,
        tx_key: TxKey,
        tx_eid: i64,
        pending: PartitionMap,
        error: String,
    ) -> (r: TxMessage)
        ensures
            final(self).metadata.partition_map == pending,
            final(self).metadata.schema == old(self).metadata.schema,
            final(self).metadata.generation == old(self).metadata.generation,
            final(self).latest_indexed_tx == Some(TxBasis { tx_key, tx_eid }),
            r == (TxMessage {
                tx_key,
                basis: Some(TxBasis { tx_key, tx_eid }),
                error: Some(error),
            }),
    {
        self.metadata.partition_map = pending;
        let basis = TxBasis { tx_key, tx_eid };
        self.latest_indexed_tx = Some(basis);
        TxMessage { tx_key, basis: Some(basis), error: Some(error) }
    }

    /// Why nothing has been written of a transaction that was to be aborted.
    pub fn abort_failure(tx_key: TxKey, cause: &str, error: &str) -> (r: String)
        ensures
            r@ == abort_failure_text(tx_key, cause@, error@),
    {
        let start = followed_by(
            "Failed to write aborted tx entity for ".to_owned(),
            decimal_text(tx_key.tx_id).as_str(),
        );
        let middle = followed_by(followed_by(start, ": "), cause);
        followed_by(followed_by(middle, "; original transaction error: "), error)
    }

    /// What is to be told of a transaction of which nothing has been written.
    pub fn unwritten(tx_key: TxKey, error: String) -> (r: TxMessage)
        ensures
            r == (TxMessage { tx_key, basis: None, error: Some(error) }),
    {
        TxMessage { tx_key, basis: None, error: Some(error) }
    }
}

/// One who waits for a transaction is told at once if it is not later than the latest one, with the
/// basis if it is the latest; and else by the first message that is not on an earlier one. A message
/// on an earlier transaction, or that messages were missed, decides nothing.
pub proof fn law_waiting_ends(
    waiter: TxWaiter,
    tx_key: TxKey,
    event: TxEvent,
    now: Option<TxCompletion>,
    r: Option<Result<TxCompletion, Error>>,
)
    requires
        call_ensures(TxWaiter::already_done, (&waiter, tx_key), now),
        call_ensures(TxWaiter::await_tx, (tx_key, event), r),
    ensures
        now is Some == (waiter.latest_tx matches Some(latest) && !(latest.tx_key.tx_id
            < tx_key.tx_id || (latest.tx_key.tx_id == tx_key.tx_id && latest.tx_key.system_time
            < tx_key.system_time))),
        now is Some ==> now.unwrap().error is None && now.unwrap().basis == (
        if waiter.latest_tx.unwrap().tx_key == tx_key {
            waiter.latest_tx
        } else {
            None
        }),
        match event {
            TxEvent::Completed(message) => if message.tx_key.tx_id < tx_key.tx_id || (
            message.tx_key.tx_id == tx_key.tx_id && message.tx_key.system_time
                < tx_key.system_time) {
                r is None
            } else {
                r matches Some(Ok(told)) && told.basis == message.basis && told.error
                    == message.error
            },
            TxEvent::Lagged => r is None,
            TxEvent::Closed => r matches Some(Err(Error::Shutdown(tx_id))) && tx_id
                == tx_key.tx_id,
        },
{
}

/// Indexing has reached a transaction if the latest one, or that of a message, has no smaller
/// number.
pub proof fn law_indexing_reaches(
    waiter: TxWaiter,
    tx_key: TxKey,
    event: TxEvent,
    now: bool,
    r: Option<Result<(), Error>>,
)
    requires
        call_ensures(TxWaiter::already_indexed, (&waiter, tx_key), now),
        call_ensures(TxWaiter::await_indexed, (tx_key, &event), r),
    ensures
        now == (waiter.latest_tx matches Some(latest) && latest.tx_key.tx_id >= tx_key.tx_id),
        match event {
            TxEvent::Completed(message) => if message.tx_key.tx_id >= tx_key.tx_id {
                r matches Some(Ok(_))
            } else {
                r is None
            },
            TxEvent::Lagged => r is None,
            TxEvent::Closed => r matches Some(Err(Error::Shutdown(tx_id))) && tx_id
                == tx_key.tx_id,
        },
{
}

/// A transaction gets the next entity number of its partition, which then counts as given out, and
/// the counters of the other partitions stay as they are.
pub proof fn law_a_transaction_takes_one_number(
    indexer: Indexer,
    r: (PartitionMap, i64),
    partition: u32,
)
    requires
        call_ensures(Indexer::begin, (&indexer,), r),
        may_begin(indexer.metadata.partition_map@),
    ensures
        r.1 == 0x400_0000_0000 + partition::next_counter(indexer.metadata.partition_map@, 1),
        partition::next_counter(r.0@, 1) == partition::next_counter(
            indexer.metadata.partition_map@,
            1,
        ) + 1,
        partition != 1 ==> partition::next_counter(r.0@, partition) == partition::next_counter(
            indexer.metadata.partition_map@,
            partition,
        ),
{
}

/// Of a transaction of which nothing has been written, its error is told, and no basis; and one who waits
/// starts with the latest transaction that has been indexed.
pub proof fn law_what_is_told(
    indexer: Indexer,
    tx_key: TxKey,
    error: String,
    told: TxMessage,
    waiter: TxWaiter,
    latest: Option<TxBasis>,
)
    requires
        call_ensures(Indexer::unwritten, (tx_key, error), told),
        call_ensures(Indexer::tx_waiter, (&indexer,), waiter),
        call_ensures(Indexer::latest_tx_basis, (&indexer,), latest),
    ensures
        told.tx_key == tx_key,
        told.basis is None,
        told.error == Some(error),
        waiter.latest_tx == indexer.latest_indexed_tx,
        latest == indexer.latest_indexed_tx,
{
}

} // verus!
