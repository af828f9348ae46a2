//! The transaction log, and how a subscriber follows it.

use vstd::prelude::*;

use crate::byte_string::{copy_bytes, same_bytes};
use crate::error::Error;
use crate::transaction::TxKey;

verus! {

/// The number of a transaction in the log.
pub type TxId = i64;

/// A transaction in the log.
#[derive(Debug, PartialEq, Eq)]
pub struct Record {
    pub tx_key: TxKey,
    pub record: Vec<u8>,
}

/// What a transaction in the log is.
pub struct RecordView {
    pub tx_key: TxKey,
    pub record: Seq<u8>,
}

impl View for Record {
    type V = RecordView;

    open spec fn view(&self) -> RecordView {
        RecordView { tx_key: self.tx_key, record: self.record@ }
    }
}

impl DeepView for Record {
    type V = RecordView;

    open spec fn deep_view(&self) -> RecordView {
        self@
    }
}

impl Clone for Record {
    fn clone(&self) -> (r: Self)
        ensures
            r@ == self@,
    {
        Record { tx_key: self.tx_key, record: copy_bytes(&self.record) }
    }
}

impl Record {
    /// Whether two records are the same.
    pub fn same(&self, other: &Record) -> (r: bool)
        ensures
            r == (self@ == other@),
    {
        self.tx_key == other.tx_key && same_bytes(&self.record, &other.record)
    }
}

/// What a log begins with.
pub open spec fn bootstrap() -> RecordView {
    RecordView { tx_key: TxKey { tx_id: 0, system_time: 0 }, record: Seq::empty() }
}

/// What a log begins with: an empty record.
pub fn bootstrap_record() -> (r: Record)
    ensures
        r@ == bootstrap(),
{
    let r = Record { tx_key: TxKey { tx_id: 0, system_time: 0 }, record: Vec::new() };
    assert(r@.record =~= Seq::empty());
    r
}

/// Whether each record has its place as its number.
pub open spec fn numbered(records: Seq<RecordView>) -> bool {
    forall|i: int| 0 <= i < records.len() ==> (#[trigger] records[i]).tx_key.tx_id == i
}

/// Whether the numbers of records ascend, with gaps or without.
pub open spec fn ascending(records: Seq<RecordView>) -> bool {
    forall|i: int, j: int|
        0 <= i < j < records.len() ==> (#[trigger] records[i]).tx_key.tx_id < (
        #[trigger] records[j]).tx_key.tx_id
}

/// How many of the records of a log are not after a transaction.
pub open spec fn passed(records: Seq<RecordView>, after_tx_id: Option<TxId>) -> int
    decreases records.len(),
{
    match after_tx_id {
        None => 0,
        Some(id) => if records.len() == 0 {
            0
        } else {
            passed(records.drop_last(), after_tx_id) + (if records.last().tx_key.tx_id <= id {
                1int
            } else {
                0
            })
        },
    }
}

/// No more records are passed than there are.
pub proof fn lemma_passed_bound(records: Seq<RecordView>, after_tx_id: Option<TxId>)
    ensures
        0 <= passed(records, after_tx_id) <= records.len(),
    decreases records.len(),
{
    if records.len() > 0 {
        lemma_passed_bound(records.drop_last(), after_tx_id);
    }
}

/// Where the numbers are the places, the number says how many records are passed.
pub proof fn lemma_passed_numbered(records: Seq<RecordView>, id: TxId)
    requires
        numbered(records),
        id >= 0,
    ensures
        passed(records, Some(id)) == (if id + 1 < records.len() {
            id + 1
        } else {
            records.len() as int
        }),
    decreases records.len(),
{
    if records.len() > 0 {
        let front = records.drop_last();
        assert forall|i: int| 0 <= i < front.len() implies (#[trigger] front[i]).tx_key.tx_id
            == i by {
            assert(front[i] == records[i]);
        }
        lemma_passed_numbered(front, id);
        assert(records[records.len() - 1].tx_key.tx_id == records.len() - 1);
    }
}

/// The records of a log after a transaction; without one, all of them.
pub open spec fn written_after(records: Seq<RecordView>, after_tx_id: Option<TxId>) -> Seq<
    RecordView,
> {
    records.skip(passed(records, after_tx_id))
}

/// The records with larger numbers than a transaction are those after it.
pub proof fn law_after_is_larger(records: Seq<RecordView>, id: TxId, i: int)
    requires
        ascending(records),
        0 <= i < records.len(),
    ensures
        (records[i].tx_key.tx_id > id) == (passed(records, Some(id)) <= i),
    decreases records.len(),
{
    let front = records.drop_last();
    lemma_passed_bound(front, Some(id));
    assert forall|a: int, b: int| 0 <= a < b < front.len() implies (
    #[trigger] front[a]).tx_key.tx_id < (#[trigger] front[b]).tx_key.tx_id by {
        assert(records[a].tx_key.tx_id < records[b].tx_key.tx_id);
    }
    if i < front.len() {
        law_after_is_larger(front, id, i);
        assert(front[i] == records[i]);
        assert(records[i].tx_key.tx_id < records[records.len() - 1].tx_key.tx_id);
    }
    if front.len() > 0 && records.last().tx_key.tx_id <= id {
        let last = front.len() - 1;
        law_after_is_larger(front, id, last);
        assert(records[last].tx_key.tx_id < records[records.len() - 1].tx_key.tx_id);
    }
}

/// The first records of a list, at most so many.
pub open spec fn up_to(records: Seq<RecordView>, limit: int) -> Seq<RecordView> {
    if limit < records.len() {
        records.take(limit)
    } else {
        records
    }
}

/// A log that can be read.
pub trait TxLogReader {
    /// What has been written.
    spec fn records(&self) -> Seq<RecordView>;

    /// What has to hold of the log.
    spec fn inv(&self) -> bool;

    /// At most so many of the records after a transaction; without one, from the beginning.
    fn read_txs_after(&self, after_tx_id: Option<TxId>, limit: u16) -> (r: Result<
        Vec<Record>,
        Error,
    >)
        requires
            self.inv(),
            after_tx_id matches Some(id) ==> id >= 0,
        ensures
            r matches Ok(txs) ==> txs.deep_view() == up_to(
                written_after(self.records(), after_tx_id),
                limit as int,
            ),
    ;
}

/// A log that can be written.
pub trait TxLogWriter: TxLogReader {
    /// Whether there is room for one more record.
    spec fn has_room(&self) -> bool;

    /// Writes a record at a time, and gives the key it gets. An error does not mean that the
    /// record was not written.
    fn append_tx(&mut self, record: Vec<u8>, now: i64) -> (r: Result<TxKey, Error>)
        requires
            old(self).inv(),
            old(self).has_room(),
        ensures
            r matches Ok(tx_key) ==> {
                &&& final(self).inv()
                &&& final(self).records() == old(self).records().push(
                    RecordView { tx_key, record: record@ },
                )
            },
    ;
}

/// A log that begins with the bootstrap record.
pub trait TxLog: TxLogWriter {
    /// Writes the bootstrap record if nothing has been written; a log that begins otherwise is
    /// refused.
    fn ensure_bootstrap_record(&mut self) -> (r: Result<(), Error>)
        requires
            old(self).inv(),
            old(self).has_room(),
        ensures
            r is Ok ==> {
                &&& final(self).inv()
                &&& final(self).records() == (if old(self).records().len() == 0 {
                    seq![bootstrap()]
                } else {
                    old(self).records()
                })
                &&& final(self).records()[0] == bootstrap()
            },
    ;
}

/// A subscriber that keeps what it is told.
#[derive(Debug)]
pub struct MockSubscriber {
    pub records: Vec<Record>,
}

impl MockSubscriber {
    /// A subscriber that has been told nothing.
    pub fn new() -> (r: Self)
        ensures
            r.records.deep_view() == Seq::<RecordView>::empty(),
    {
        let r = MockSubscriber { records: Vec::new() };
        assert(r.records.deep_view() =~= Seq::<RecordView>::empty());
        r
    }

    /// Takes in a record.
    pub fn accept(&mut self, record: Record)
        ensures
            final(self).records.deep_view() == old(self).records.deep_view().push(record@),
    {
        let ghost earlier = self.records;
        let ghost added = record;
        self.records.push(record);
        proof {
            crate::byte_string::lemma_deep_push(earlier, self.records, added);
        }
    }
}

/// How long to wait after the first failed read, in milliseconds.
pub const CATCH_UP_RETRY_INITIAL_DELAY: u64 = 100;

/// How long to wait after a failed read at most, in milliseconds.
pub const CATCH_UP_RETRY_MAX_DELAY: u64 = 5000;

/// How many records are read at once while a subscriber catches up.
pub const CATCH_UP_BATCH: u16 = 100;

/// A subscriber that catches up with the log: what it has seen, how much is read at once, how
/// much is left to read if that is limited, and how long to wait after the next failure.
#[derive(Clone, Copy, Debug, PartialEq, Eq, Structural)]
pub struct CatchUp {
    pub last_tx_id: Option<TxId>,
    pub batch_limit: u16,
    pub remaining: Option<u64>,
    pub retry_delay: u64,
}

impl CatchUp {
    /// The waiting time is within its bounds.
    pub open spec fn wf(self) -> bool {
        self.retry_delay <= CATCH_UP_RETRY_MAX_DELAY
    }

    /// How much is read next, if anything.
    pub open spec fn next_limit(self) -> Option<u16> {
        match self.remaining {
            Some(n) => if n == 0 {
                None
            } else if n < self.batch_limit {
                Some(n as u16)
            } else {
                Some(self.batch_limit)
            },
            None => Some(self.batch_limit),
        }
    }

    /// What is left to do when records have been read.
    pub open spec fn after_batch(self, txs: Seq<RecordView>) -> CatchUp {
        CatchUp {
            last_tx_id: Some(txs.last().tx_key.tx_id),
            batch_limit: self.batch_limit,
            remaining: match self.remaining {
                Some(n) => Some(
                    if n < txs.len() {
                        0u64
                    } else {
                        (n - txs.len()) as u64
                    },
                ),
                None => None,
            },
            retry_delay: CATCH_UP_RETRY_INITIAL_DELAY,
        }
    }

    /// Catches up behind a transaction, with so many records at once and in all.
    pub fn new(last_tx_id: Option<TxId>, batch_limit: u16, max_records: Option<u64>) -> (r: Self)
        ensures
            r == (CatchUp {
                last_tx_id,
                batch_limit,
                remaining: max_records,
                retry_delay: CATCH_UP_RETRY_INITIAL_DELAY,
            }),
            r.wf(),
    {
        CatchUp {
            last_tx_id,
            batch_limit,
            remaining: max_records,
            retry_delay: CATCH_UP_RETRY_INITIAL_DELAY,
        }
    }

    /// How much to read next: nothing if the subscriber is cancelled or has read as much as it
    /// may.
    pub fn read_limit(&self, cancelled: bool) -> (r: Option<u16>)
        ensures
            r == (if cancelled {
                None
            } else {
                self.next_limit()
            }),
    {
        if cancelled {
            return None;
        }
        match self.remaining {
            Some(n) => {
                if n == 0 {
                    None
                } else if n < self.batch_limit as u64 {
                    Some(n as u16)
                } else {
                    Some(self.batch_limit)
                }
            },
            None => Some(self.batch_limit),
        }
    }

    /// Takes in what has been read. Tells whether there may be more: no records, or fewer than
    /// asked for, are the end of the log.
    pub fn take_batch(&mut self, read_limit: u16, txs: &[Record]) -> (r: bool)
        requires
            old(self).wf(),
        ensures
            final(self).wf(),
            *final(self) == (if txs@.len() == 0 {
                *old(self)
            } else {
                old(self).after_batch(txs.deep_view())
            }),
            r == (txs@.len() > 0 && txs@.len() >= read_limit),
    {
        if txs.len() == 0 {
            return false;
        }
        assert(txs.deep_view().len() == txs@.len());
        self.retry_delay = CATCH_UP_RETRY_INITIAL_DELAY;
        self.last_tx_id = Some(txs[txs.len() - 1].tx_key.tx_id);
        self.remaining = match self.remaining {
            Some(n) => Some(n.saturating_sub(txs.len() as u64)),
            None => None,
        };
        txs.len() >= read_limit as usize
    }

    /// What is left to do after a failed read: the same, after a longer wait.
    pub open spec fn after_failure(self) -> CatchUp {
        CatchUp {
            retry_delay: if 2 * self.retry_delay < CATCH_UP_RETRY_MAX_DELAY {
                (2 * self.retry_delay) as u64
            } else {
                CATCH_UP_RETRY_MAX_DELAY
            },
            ..self
        }
    }

    /// Takes in that a read failed. Gives how long to wait before the next one: twice as long as
    /// the last time, within bounds.
    pub fn fail(&mut self) -> (r: u64)
        requires
            old(self).wf(),
        ensures
            final(self).wf(),
            r == old(self).retry_delay,
            *final(self) == old(self).after_failure(),
    {
        let delay: u64 = self.retry_delay;
        let doubled: u64 = delay * 2;
        self.retry_delay =
        if doubled < CATCH_UP_RETRY_MAX_DELAY {
            doubled
        } else {
            CATCH_UP_RETRY_MAX_DELAY
        };
        delay
    }
}

/// Records that are read behind a transaction are passed then.
proof fn lemma_read_on(records: Seq<RecordView>, after_tx_id: Option<TxId>, n: int)
    requires
        ascending(records),
        0 < n <= written_after(records, after_tx_id).len(),
    ensures
        passed(records, Some(written_after(records, after_tx_id)[n - 1].tx_key.tx_id)) == passed(
            records,
            after_tx_id,
        ) + n,
{
    lemma_passed_bound(records, after_tx_id);
    let at = passed(records, after_tx_id) + n - 1;
    let id = records[at].tx_key.tx_id;
    assert(written_after(records, after_tx_id)[n - 1] == records[at]);
    law_after_is_larger(records, id, at);
    lemma_passed_bound(records, Some(id));
    if at + 1 < records.len() {
        assert(records[at].tx_key.tx_id < records[at + 1].tx_key.tx_id);
        law_after_is_larger(records, id, at + 1);
    }
}

/// Where something is read, more is passed than before.
pub proof fn lemma_progress(records: Seq<RecordView>, c: CatchUp, limit: int)
    requires
        ascending(records),
        limit >= 0,
    ensures
        ({
            let txs = up_to(written_after(records, c.last_tx_id), limit);
            txs.len() > 0 ==> passed(records, c.last_tx_id) < passed(
                records,
                c.after_batch(txs).last_tx_id,
            ) <= records.len()
        }),
{
    let rest = written_after(records, c.last_tx_id);
    let txs = up_to(rest, limit);
    lemma_passed_bound(records, c.last_tx_id);
    if txs.len() > 0 {
        lemma_read_on(records, c.last_tx_id, txs.len() as int);
        assert(txs.last() == rest[txs.len() - 1]);
        lemma_passed_bound(records, c.after_batch(txs).last_tx_id);
    }
}

/// What a subscriber is told while it catches up with a log whose reads do not fail.
pub open spec fn told(records: Seq<RecordView>, c: CatchUp) -> Seq<RecordView>
    recommends
        ascending(records),
    decreases records.len() - passed(records, c.last_tx_id),
    when ascending(records)
{
    match c.next_limit() {
        None => Seq::empty(),
        Some(limit) => {
            let txs = up_to(written_after(records, c.last_tx_id), limit as int);
            proof {
                lemma_progress(records, c, limit as int);
            }
            if txs.len() == 0 {
                Seq::empty()
            } else if txs.len() < limit {
                txs
            } else {
                txs + told(records, c.after_batch(txs))
            }
        },
    }
}

/// A subscriber that catches up is told every record behind what it has seen, once and in order,
/// up to as many as it may be told. The numbers of the records may have gaps.
pub proof fn law_catch_up_complete(records: Seq<RecordView>, c: CatchUp)
    requires
        ascending(records),
        c.batch_limit > 0,
    ensures
        told(records, c) == (match c.remaining {
            Some(n) => up_to(written_after(records, c.last_tx_id), n as int),
            None => written_after(records, c.last_tx_id),
        }),
    decreases records.len() - passed(records, c.last_tx_id),
{
    let rest = written_after(records, c.last_tx_id);
    lemma_passed_bound(records, c.last_tx_id);
    match c.next_limit() {
        None => {
            assert(up_to(rest, 0) =~= Seq::empty());
        },
        Some(limit) => {
            let txs = up_to(rest, limit as int);
            let start = passed(records, c.last_tx_id);
            if txs.len() == 0 {
                assert(rest =~= Seq::empty());
            } else if txs.len() >= limit {
                let next = c.after_batch(txs);
                lemma_read_on(records, c.last_tx_id, txs.len() as int);
                assert(txs.last() == rest[txs.len() - 1]);
                assert(passed(records, next.last_tx_id) == start + txs.len());
                lemma_passed_bound(records, next.last_tx_id);
                law_catch_up_complete(records, next);
                let more = written_after(records, next.last_tx_id);
                assert(more =~= rest.skip(txs.len() as int));
                match c.remaining {
                    Some(n) => {
                        assert(txs + up_to(more, n - txs.len()) =~= up_to(rest, n as int));
                    },
                    None => {
                        assert(txs + more =~= rest);
                    },
                }
            }
        },
    }
}

/// Records numbered by their places ascend.
pub proof fn law_numbered_ascend(records: Seq<RecordView>)
    requires
        numbered(records),
    ensures
        ascending(records),
{
}

/// What a subscriber receives from a running log: a record, that it missed some, or that the log
/// is closed.
#[derive(Clone, Copy, Debug, PartialEq, Eq, Structural)]
pub enum LiveEvent {
    Appended(TxId),
    Lagged(u64),
    Closed,
}

/// What a subscriber does next.
#[derive(Clone, Copy, Debug, PartialEq, Eq, Structural)]
pub enum LiveAction {
    Deliver,
    Skip,
    CatchUp(CatchUp),
    Stop,
}

/// A subscriber that follows a running log, with the last transaction it has seen.
#[derive(Clone, Copy, Debug, PartialEq, Eq, Structural)]
pub struct Follower {
    pub last_tx_id: Option<TxId>,
}

/// What a subscriber does with what it receives, and the last transaction it has seen then. A
/// record that has been seen is skipped; what was missed is read from the log.
pub open spec fn received(last_tx_id: Option<TxId>, event: LiveEvent) -> (
    Option<TxId>,
    LiveAction,
) {
    match event {
        LiveEvent::Appended(tx_id) => if (last_tx_id matches Some(last) && tx_id <= last) {
            (last_tx_id, LiveAction::Skip)
        } else {
            (Some(tx_id), LiveAction::Deliver)
        },
        LiveEvent::Lagged(missed) => (
            last_tx_id,
            LiveAction::CatchUp(
                CatchUp {
                    last_tx_id,
                    batch_limit: u16::MAX,
                    remaining: Some(missed),
                    retry_delay: CATCH_UP_RETRY_INITIAL_DELAY,
                },
            ),
        ),
        LiveEvent::Closed => (last_tx_id, LiveAction::Stop),
    }
}

impl Follower {
    /// Takes in what was received.
    pub fn receive(&mut self, event: LiveEvent) -> (r: LiveAction)
        ensures
            (final(self).last_tx_id, r) == received(old(self).last_tx_id, event),
    {
        match event {
            LiveEvent::Appended(tx_id) => {
                let seen = match self.last_tx_id {
                    Some(last) => tx_id <= last,
                    None => false,
                };
                if seen {
                    LiveAction::Skip
                } else {
                    self.last_tx_id = Some(tx_id);
                    LiveAction::Deliver
                }
            },
            LiveEvent::Lagged(missed) => LiveAction::CatchUp(
                CatchUp::new(self.last_tx_id, u16::MAX, Some(missed)),
            ),
            LiveEvent::Closed => LiveAction::Stop,
        }
    }
}

/// A subscriber that has seen every record before the next one that it will receive is told each
/// record once and in order, and misses none: a record that it delivers is the first that it has
/// not seen, and what it reads when it missed records ends behind the missed ones.
pub proof fn law_live_without_gap(
    records: Seq<RecordView>,
    last_tx_id: Option<TxId>,
    next: int,
    event: LiveEvent,
)
    requires
        ascending(records),
        0 <= next <= passed(records, last_tx_id),
        match event {
            LiveEvent::Appended(tx_id) => next < records.len() && tx_id
                == records[next].tx_key.tx_id,
            LiveEvent::Lagged(missed) => next + missed <= records.len(),
            LiveEvent::Closed => true,
        },
    ensures
        match (event, received(last_tx_id, event)) {
            (LiveEvent::Appended(tx_id), (last, action)) => {
                &&& action == LiveAction::Deliver <==> next == passed(records, last_tx_id)
                &&& passed(records, last) == passed(records, last_tx_id) + if action
                    == LiveAction::Deliver {
                    1int
                } else {
                    0
                }
                &&& next + 1 <= passed(records, last)
            },
            (LiveEvent::Lagged(missed), (_, LiveAction::CatchUp(c))) => {
                &&& told(records, c) == up_to(written_after(records, last_tx_id), missed as int)
                &&& next + missed <= passed(records, last_tx_id) + told(records, c).len()
            },
            (_, (last, action)) => event is Closed && last == last_tx_id && action
                == LiveAction::Stop,
        },
{
    lemma_passed_bound(records, last_tx_id);
    match (event, received(last_tx_id, event)) {
        (LiveEvent::Appended(tx_id), _) => {
            if let Some(id) = last_tx_id {
                law_after_is_larger(records, id, next);
            }
            law_after_is_larger(records, tx_id, next);
            lemma_passed_bound(records, Some(tx_id));
            if next + 1 < records.len() {
                assert(records[next].tx_key.tx_id < records[next + 1].tx_key.tx_id);
                law_after_is_larger(records, tx_id, next + 1);
            }
        },
        (LiveEvent::Lagged(_), (_, LiveAction::CatchUp(c))) => {
            law_catch_up_complete(records, c);
        },
        _ => {},
    }
}

/// What is read of a log are the records behind a transaction, from the first of them on, without
/// gaps, and all of them where no more are there than may be read.
pub proof fn law_what_is_read(
    records: Seq<RecordView>,
    after_tx_id: Option<TxId>,
    limit: int,
    i: int,
)
    requires
        ascending(records),
        limit >= 0,
        0 <= i < records.len(),
    ensures
        ({
            let read = up_to(written_after(records, after_tx_id), limit);
            let behind = match after_tx_id {
                Some(id) => records[i].tx_key.tx_id > id,
                None => true,
            };
            let start = passed(records, after_tx_id);
            &&& read.len() <= limit
            &&& behind == (start <= i)
            &&& behind && i - start < limit ==> i - start < read.len() && read[i - start]
                == records[i]
            &&& read.len() < limit ==> read.len() == records.len() - start
        }),
{
    lemma_passed_bound(records, after_tx_id);
    if let Some(id) = after_tx_id {
        law_after_is_larger(records, id, i);
    }
}

/// A log begins with an empty record of the number zero at the time zero.
pub proof fn law_bootstrap_record(r: Record)
    requires
        call_ensures(bootstrap_record, (), r),
    ensures
        r.tx_key.tx_id == 0,
        r.tx_key.system_time == 0,
        r.record@.len() == 0,
{
}

/// One who catches up begins behind what was seen, with the shortest waiting time. As much is read
/// as a batch holds, or as may still be told; nothing more once that is reached, or once cancelled.
pub proof fn law_how_much_is_read(
    last_tx_id: Option<TxId>,
    batch_limit: u16,
    max_records: Option<u64>,
    c: CatchUp,
    cancelled: bool,
    r: Option<u16>,
)
    requires
        call_ensures(CatchUp::new, (last_tx_id, batch_limit, max_records), c),
        call_ensures(CatchUp::read_limit, (&c, cancelled), r),
    ensures
        c.last_tx_id == last_tx_id,
        c.retry_delay == 100,
        r is None == (cancelled || max_records == Some(0u64)),
        r matches Some(n) ==> n <= batch_limit && (max_records matches Some(m) ==> n <= m) && (n
            == batch_limit || max_records == Some(n as u64)),
{
}

/// A record that has been seen is skipped, a new one is delivered and then counts as seen; what was
/// missed is caught up with behind what has been seen; a closed log ends the following.
pub proof fn law_what_is_received(last_tx_id: Option<TxId>, event: LiveEvent)
    ensures
        ({
            let (last, action) = received(last_tx_id, event);
            match event {
                LiveEvent::Appended(tx_id) => if (last_tx_id matches Some(seen) && tx_id <= seen) {
                    action == LiveAction::Skip && last == last_tx_id
                } else {
                    action == LiveAction::Deliver && last == Some(tx_id)
                },
                LiveEvent::Lagged(missed) => last == last_tx_id && (action matches LiveAction::CatchUp(
                    c,
                ) && c.last_tx_id == last_tx_id && c.remaining == Some(missed) && c.batch_limit
                    > 0),
                LiveEvent::Closed => last == last_tx_id && action == LiveAction::Stop,
            }
        }),
{
}

/// A read that failed is tried again after twice the time of the last wait, and after five seconds at
/// most; nothing of what is to be read is lost. After a read that went well the wait is a tenth of a second
/// again. Times are in milliseconds.
pub proof fn law_waits(c: CatchUp, txs: Seq<RecordView>)
    requires
        c.wf(),
    ensures
        c.after_failure().last_tx_id == c.last_tx_id,
        c.after_failure().batch_limit == c.batch_limit,
        c.after_failure().remaining == c.remaining,
        c.after_failure().retry_delay == 2 * c.retry_delay || (c.after_failure().retry_delay == 5000
            && 2 * c.retry_delay > 5000),
        c.after_failure().retry_delay <= 5000,
        c.after_batch(txs).retry_delay == 100,
{
}

} // verus!
