//! A transaction log on one partition of a topic.
//!
//! The number of a transaction is the offset of its message, and its time is the time at which
//! the broker appended it.

use vstd::prelude::*;

use crate::byte_string;
use crate::clock::{self, millis_to_micros};
use crate::log::{self, Record, RecordView, TxId};
use crate::query::convert::same_text;
use crate::text::{self, count_text, decimal_text, followed_by};
use crate::transaction::{self, key_text, optional_key_text, TxKey};

verus! {

/// The one partition.
pub const PARTITION: i32 = 0;

/// The time of a message, in milliseconds since the epoch: none, the time at which it was made,
/// or the time at which the broker appended it.
#[derive(Clone, Copy, Debug, PartialEq, Eq, Structural)]
pub enum MessageTimestamp {
    NotAvailable,
    CreateTime(i64),
    LogAppendTime(i64),
}

/// Where a message was put, and when.
#[derive(Clone, Copy, Debug, PartialEq, Eq, Structural)]
pub struct Delivery {
    pub partition: i32,
    pub offset: i64,
    pub timestamp: MessageTimestamp,
}

/// Why a topic or a message is refused.
#[derive(Debug)]
pub enum KafkaError {
    /// The topic does not give messages the time at which they are appended.
    TimestampType { topic: String, got: Option<String> },
    /// The topic deletes messages.
    Retention { topic: String, key: String, got: Option<String> },
    /// The topic does not have one partition.
    PartitionCount { topic: String, count: usize },
    /// The message at this offset does not have the time at which it was appended.
    NotLogAppendTime { offset: i64 },
    /// The time of the message at this offset has no date.
    TimestampOutOfRange { millis: i64, offset: i64 },
    /// A message was put in another partition.
    UnexpectedPartition { partition: i32 },
    /// A message has another offset than the next one.
    UnexpectedOffset { found: i64, expected: i64 },
    /// No message comes, though there is one.
    Stalled { offset: i64, high: i64 },
    /// The log begins with something else than the bootstrap record.
    ForeignStart { tx_key: TxKey },
    /// There are messages, but no bootstrap record can be read.
    NoBootstrapRecord,
    /// The bootstrap record was put in another partition.
    BootstrapPartition { partition: i32 },
    /// The bootstrap record came late, and what came first is none.
    BootstrapLost { offset: i64, first: Option<TxKey> },
}

/// What an error says.
pub open spec fn message_of(e: KafkaError) -> Seq<char> {
    match e {
        KafkaError::TimestampType { topic, got } => match got {
            Some(other) => "Kafka topic "@ + topic@
                + " must set message.timestamp.type=LogAppendTime, got "@ + other@,
            None => "Kafka topic "@ + topic@
                + " must expose message.timestamp.type=LogAppendTime"@,
        },
        KafkaError::Retention { topic, key, got } => match got {
            Some(other) => "Kafka topic "@ + topic@ + " must set "@ + key@
                + "=-1 to retain the full tx log, got "@ + other@,
            None => "Kafka topic "@ + topic@ + " must expose "@ + key@
                + "=-1 to retain the full tx log"@,
        },
        KafkaError::PartitionCount { topic, count } => "Kafka topic "@ + topic@
            + " must have exactly 1 partition, got "@ + text::digits(count as nat),
        KafkaError::NotLogAppendTime { offset } =>
        "Triplox Kafka log requires LogAppendTime at offset "@ + text::decimal(offset as int),
        KafkaError::TimestampOutOfRange { millis, offset } => "Kafka timestamp "@ + text::decimal(
            millis as int,
        ) + " out of range at offset "@ + text::decimal(offset as int),
        KafkaError::UnexpectedPartition { partition } =>
        "Kafka produced to unexpected partition: expected 0, got "@ + text::decimal(
            partition as int,
        ),
        KafkaError::UnexpectedOffset { found, expected } => "Kafka read got offset "@ + text::decimal(
            found as int,
        ) + ", expected "@ + text::decimal(expected as int),
        KafkaError::Stalled { offset, high } => "Kafka read stalled at offset "@ + text::decimal(
            offset as int,
        ) + " (high watermark "@ + text::decimal(high as int) + ")"@,
        KafkaError::ForeignStart { tx_key } => "kafka log starts with non-bootstrap record "@
            + transaction::key_shown(tx_key),
        KafkaError::NoBootstrapRecord =>
        "kafka log has offsets but no readable bootstrap record"@,
        KafkaError::BootstrapPartition { partition } =>
        "Kafka bootstrap produced to unexpected partition: expected 0, got "@ + text::decimal(
            partition as int,
        ),
        KafkaError::BootstrapLost { offset, first } => "Kafka bootstrap produced to offset "@
            + text::decimal(offset as int) + " and offset 0 holds no bootstrap record: "@
            + transaction::optional_key_shown(first),
    }
}

/// A text between two others.
fn between(before: String, middle: &str, after: &str) -> (r: String)
    ensures
        r@ == before@ + middle@ + after@,
{
    followed_by(followed_by(before, middle), after)
}

impl KafkaError {
    /// What the error says.
    pub fn message(&self) -> (r: String)
        ensures
            r@ == message_of(*self),
    {
        match self {
            KafkaError::TimestampType { topic, got } => {
                let start = followed_by("Kafka topic ".to_owned(), topic.as_str());
                match got {
                    Some(other) => between(
                        start,
                        " must set message.timestamp.type=LogAppendTime, got ",
                        other.as_str(),
                    ),
                    None => followed_by(
                        start,
                        " must expose message.timestamp.type=LogAppendTime",
                    ),
                }
            },
            KafkaError::Retention { topic, key, got } => {
                let start = followed_by("Kafka topic ".to_owned(), topic.as_str());
                match got {
                    Some(other) => between(
                        between(start, " must set ", key.as_str()),
                        "=-1 to retain the full tx log, got ",
                        other.as_str(),
                    ),
                    None => followed_by(
                        between(start, " must expose ", key.as_str()),
                        "=-1 to retain the full tx log",
                    ),
                }
            },
            KafkaError::PartitionCount { topic, count } => between(
                followed_by("Kafka topic ".to_owned(), topic.as_str()),
                " must have exactly 1 partition, got ",
                count_text(*count).as_str(),
            ),
            KafkaError::NotLogAppendTime { offset } => followed_by(
                "Triplox Kafka log requires LogAppendTime at offset ".to_owned(),
                decimal_text(*offset).as_str(),
            ),
            KafkaError::TimestampOutOfRange { millis, offset } => between(
                followed_by("Kafka timestamp ".to_owned(), decimal_text(*millis).as_str()),
                " out of range at offset ",
                decimal_text(*offset).as_str(),
            ),
            KafkaError::UnexpectedPartition { partition } => followed_by(
                "Kafka produced to unexpected partition: expected 0, got ".to_owned(),
                decimal_text(*partition as i64).as_str(),
            ),
            KafkaError::UnexpectedOffset { found, expected } => between(
                followed_by("Kafka read got offset ".to_owned(), decimal_text(*found).as_str()),
                ", expected ",
                decimal_text(*expected).as_str(),
            ),
            KafkaError::Stalled { offset, high } => followed_by(
                between(
                    followed_by(
                        "Kafka read stalled at offset ".to_owned(),
                        decimal_text(*offset).as_str(),
                    ),
                    " (high watermark ",
                    decimal_text(*high).as_str(),
                ),
                ")",
            ),
            KafkaError::ForeignStart { tx_key } => followed_by(
                "kafka log starts with non-bootstrap record ".to_owned(),
                key_text(*tx_key).as_str(),
            ),
            KafkaError::NoBootstrapRecord =>
            "kafka log has offsets but no readable bootstrap record".to_owned(),
            KafkaError::BootstrapPartition { partition } => followed_by(
                "Kafka bootstrap produced to unexpected partition: expected 0, got ".to_owned(),
                decimal_text(*partition as i64).as_str(),
            ),
            KafkaError::BootstrapLost { offset, first } => followed_by(
                between(
                    "Kafka bootstrap produced to offset ".to_owned(),
                    decimal_text(*offset).as_str(),
                    " and offset 0 holds no bootstrap record: ",
                ),
                optional_key_text(*first).as_str(),
            ),
        }
    }
}

/// Whether a setting is given as this.
pub open spec fn is_set(value: Option<&str>, wanted: Seq<char>) -> bool {
    match value {
        Some(text) => text@ == wanted,
        None => false,
    }
}

/// What a setting is given as.
pub open spec fn setting(value: Option<&str>) -> Option<Seq<char>> {
    match value {
        Some(text) => Some(text@),
        None => None,
    }
}

/// A text that may be missing.
pub open spec fn optional_text(value: Option<String>) -> Option<Seq<char>> {
    match value {
        Some(text) => Some(text@),
        None => None,
    }
}

/// A copy of a setting.
fn copy_setting(value: Option<&str>) -> (r: Option<String>)
    ensures
        optional_text(r) == setting(value),
{
    match value {
        Some(text) => Some(text.to_owned()),
        None => None,
    }
}

/// Whether messages get the time at which they are appended. Any other setting is refused.
pub fn validate_log_append_time_config(topic: &str, timestamp_type: Option<&str>) -> (r: Result<
    (),
    KafkaError,
>)
    ensures
        match r {
            Ok(_) => is_set(timestamp_type, "LogAppendTime"@),
            Err(e) => !is_set(timestamp_type, "LogAppendTime"@) && (match e {
                KafkaError::TimestampType { topic: t, got } => t@ == topic@ && optional_text(got)
                    == setting(timestamp_type),
                _ => false,
            }),
        },
{
    let right = match timestamp_type {
        Some(text) => same_text(text, "LogAppendTime"),
        None => false,
    };
    if right {
        Ok(())
    } else {
        Err(
            KafkaError::TimestampType {
                topic: topic.to_owned(),
                got: copy_setting(timestamp_type),
            },
        )
    }
}

/// Whether messages are kept for ever. Any other setting is refused.
pub fn validate_infinite_retention_config(topic: &str, key: &str, value: Option<&str>) -> (r:
    Result<(), KafkaError>)
    ensures
        match r {
            Ok(_) => is_set(value, "-1"@),
            Err(e) => !is_set(value, "-1"@) && (match e {
                KafkaError::Retention { topic: t, key: k, got } => t@ == topic@ && k@ == key@
                    && optional_text(got) == setting(value),
                _ => false,
            }),
        },
{
    let right = match value {
        Some(text) => same_text(text, "-1"),
        None => false,
    };
    if right {
        Ok(())
    } else {
        Err(
            KafkaError::Retention {
                topic: topic.to_owned(),
                key: key.to_owned(),
                got: copy_setting(value),
            },
        )
    }
}

/// Whether a topic keeps a log: its messages get the time at which they are appended and are kept
/// for ever.
pub fn validate_topic_config(
    topic: &str,
    timestamp_type: Option<&str>,
    retention_ms: Option<&str>,
    retention_bytes: Option<&str>,
) -> (r: Result<(), KafkaError>)
    ensures
        match r {
            Ok(_) => is_set(timestamp_type, "LogAppendTime"@) && is_set(retention_ms, "-1"@)
                && is_set(retention_bytes, "-1"@),
            Err(e) => if !is_set(timestamp_type, "LogAppendTime"@) {
                e matches KafkaError::TimestampType { topic: t, got } && t@ == topic@
                    && optional_text(got) == setting(timestamp_type)
            } else if !is_set(retention_ms, "-1"@) {
                e matches KafkaError::Retention { topic: t, key, got } && t@ == topic@ && key@
                    == "retention.ms"@ && optional_text(got) == setting(retention_ms)
            } else {
                !is_set(retention_bytes, "-1"@) && (e matches KafkaError::Retention {
                    topic: t,
                    key,
                    got,
                } && t@ == topic@ && key@ == "retention.bytes"@ && optional_text(got) == setting(
                    retention_bytes,
                ))
            },
        },
{
    match validate_log_append_time_config(topic, timestamp_type) {
        Ok(_) => {},
        Err(e) => {
            return Err(e);
        },
    }
    match validate_infinite_retention_config(topic, "retention.ms", retention_ms) {
        Ok(_) => {},
        Err(e) => {
            return Err(e);
        },
    }
    validate_infinite_retention_config(topic, "retention.bytes", retention_bytes)
}

/// Whether a topic has one partition: the offsets of more would not be in one order.
pub fn validate_partition_count(topic: &str, count: usize) -> (r: Result<(), KafkaError>)
    ensures
        match r {
            Ok(_) => count == 1,
            Err(e) => count != 1 && (e matches KafkaError::PartitionCount { topic: t, count: n }
                && t@ == topic@ && n == count),
        },
{
    if count == 1 {
        Ok(())
    } else {
        Err(KafkaError::PartitionCount { topic: topic.to_owned(), count })
    }
}

/// The time of a transaction: the time at which the broker appended its message. There is no
/// other.
pub open spec fn system_time(offset: i64, timestamp: MessageTimestamp) -> Result<i64, KafkaError> {
    match timestamp {
        MessageTimestamp::LogAppendTime(millis) => if clock::has_date(millis * 1000) {
            Ok((millis * 1000) as i64)
        } else {
            Err(KafkaError::TimestampOutOfRange { millis, offset })
        },
        _ => Err(KafkaError::NotLogAppendTime { offset }),
    }
}

/// The time of a transaction, in microseconds since the epoch.
pub fn timestamp_to_system_time(offset: i64, timestamp: MessageTimestamp) -> (r: Result<
    i64,
    KafkaError,
>)
    ensures
        r == system_time(offset, timestamp),
{
    match timestamp {
        MessageTimestamp::LogAppendTime(millis) => match millis_to_micros(millis) {
            Some(micros) => Ok(micros),
            None => Err(KafkaError::TimestampOutOfRange { millis, offset }),
        },
        _ => Err(KafkaError::NotLogAppendTime { offset }),
    }
}

/// What a message holds; nothing is an empty record.
pub open spec fn payload_of(payload: Option<Vec<u8>>) -> Seq<u8> {
    match payload {
        Some(bytes) => bytes@,
        None => Seq::empty(),
    }
}

/// The record of a message.
pub fn message_to_record(
    offset: i64,
    timestamp: MessageTimestamp,
    payload: Option<Vec<u8>>,
) -> (r: Result<Record, KafkaError>)
    ensures
        match system_time(offset, timestamp) {
            Ok(system_time) => r matches Ok(record) && record@ == (RecordView {
                tx_key: TxKey { tx_id: offset, system_time },
                record: payload_of(payload),
            }),
            Err(e) => r == Err::<Record, KafkaError>(e),
        },
{
    match timestamp_to_system_time(offset, timestamp) {
        Ok(system_time) => {
            let record = match payload {
                Some(bytes) => bytes,
                None => Vec::new(),
            };
            assert(record@ =~= payload_of(payload));
            Ok(Record { tx_key: TxKey { tx_id: offset, system_time }, record })
        },
        Err(e) => Err(e),
    }
}

/// The key of a transaction whose message was delivered.
pub fn delivery_to_tx_key(delivery: &Delivery) -> (r: Result<TxKey, KafkaError>)
    ensures
        r == (match system_time(delivery.offset, delivery.timestamp) {
            Ok(system_time) => Ok::<TxKey, KafkaError>(
                TxKey { tx_id: delivery.offset, system_time },
            ),
            Err(e) => Err(e),
        }),
{
    match timestamp_to_system_time(delivery.offset, delivery.timestamp) {
        Ok(system_time) => Ok(TxKey { tx_id: delivery.offset, system_time }),
        Err(e) => Err(e),
    }
}

/// The key of a transaction whose message was delivered to the one partition.
pub fn appended(delivery: &Delivery) -> (r: Result<TxKey, KafkaError>)
    ensures
        r == (if delivery.partition != PARTITION {
            Err::<TxKey, KafkaError>(KafkaError::UnexpectedPartition { partition: delivery.partition })
        } else {
            match system_time(delivery.offset, delivery.timestamp) {
                Ok(system_time) => Ok(TxKey { tx_id: delivery.offset, system_time }),
                Err(e) => Err(e),
            }
        }),
{
    if delivery.partition != PARTITION {
        return Err(KafkaError::UnexpectedPartition { partition: delivery.partition });
    }
    delivery_to_tx_key(delivery)
}

/// Whether a record is the bootstrap record, whatever its time: that is the broker's.
pub open spec fn is_bootstrap(record: RecordView) -> bool {
    record.tx_key.tx_id == log::bootstrap().tx_key.tx_id && record.record == log::bootstrap().record
}

/// Whether a record is the bootstrap record, whatever its time.
pub fn is_kafka_bootstrap_record(record: &Record) -> (r: bool)
    ensures
        r == is_bootstrap(record@),
{
    let bootstrap = log::bootstrap_record();
    record.tx_key.tx_id == bootstrap.tx_key.tx_id && byte_string::same_bytes(
        &record.record,
        &bootstrap.record,
    )
}

/// The offset behind all that is known.
pub fn advance_offset(next_offset: i64, seen: i64) -> (r: i64)
    requires
        seen < i64::MAX,
    ensures
        r == (if next_offset < seen + 1 {
            seen + 1
        } else {
            next_offset as int
        }),
{
    if next_offset < seen + 1 {
        seen + 1
    } else {
        next_offset
    }
}

/// The offset at which reading starts.
pub fn start_offset(after_tx_id: Option<TxId>) -> (r: i64)
    requires
        after_tx_id matches Some(id) ==> id < i64::MAX,
    ensures
        r == (match after_tx_id {
            None => 0int,
            Some(id) => id + 1,
        }),
{
    match after_tx_id {
        None => 0,
        Some(id) => id + 1,
    }
}

/// What comes while messages are read: a message with its offset, time and content, or nothing in
/// time.
#[derive(Debug)]
pub enum Polled {
    Message { offset: i64, timestamp: MessageTimestamp, payload: Option<Vec<u8>> },
    Nothing,
}

/// A read of messages: from where to where, and what has been read. What is below the high
/// watermark is there, so that nothing less is an answer.
#[derive(Debug)]
pub struct ReadRecords {
    pub start_offset: i64,
    pub end_offset: i64,
    pub high: i64,
    pub records: Vec<Record>,
}

/// Whether records have the offsets from a start on.
pub open spec fn consecutive(records: Seq<RecordView>, start_offset: int) -> bool {
    forall|i: int|
        0 <= i < records.len() ==> (#[trigger] records[i]).tx_key.tx_id == start_offset + i
}

impl ReadRecords {
    /// What has been read is what comes first.
    pub open spec fn wf(self) -> bool {
        &&& self.start_offset <= self.end_offset <= self.high
        &&& self.records@.len() <= self.end_offset - self.start_offset
        &&& consecutive(self.records.deep_view(), self.start_offset as int)
    }

    /// Begins a read of at most so many messages below the high watermark.
    pub fn new(start_offset: i64, limit: u16, high: i64) -> (r: Option<Self>)
        ensures
            match r {
                Some(read) => start_offset < high && read.wf() && read.start_offset == start_offset
                    && read.high == high && read.records@.len() == 0 && read.end_offset == (
                if start_offset + limit < high {
                    start_offset + limit
                } else {
                    high as int
                }),
                None => start_offset >= high,
            },
    {
        if start_offset >= high {
            return None;
        }
        let end_offset: i64 = if (limit as i128) < high as i128 - start_offset as i128 {
            start_offset + limit as i64
        } else {
            high
        };
        let read = ReadRecords { start_offset, end_offset, high, records: Vec::new() };
        assert(read.records.deep_view() =~= Seq::<RecordView>::empty());
        Some(read)
    }

    /// Whether there is more to read.
    pub fn goes_on(&self) -> (r: bool)
        requires
            self.wf(),
        ensures
            r == (self.records@.len() < self.end_offset - self.start_offset),
    {
        (self.records.len() as u64) < (self.end_offset as i128 - self.start_offset as i128) as u64
    }

    /// Takes in what comes next: the message with the next offset.
    pub fn take(&mut self, polled: Polled) -> (r: Result<(), KafkaError>)
        requires
            old(self).wf(),
            old(self).records@.len() < old(self).end_offset - old(self).start_offset,
        ensures
            final(self).wf(),
            final(self).start_offset == old(self).start_offset,
            final(self).end_offset == old(self).end_offset,
            final(self).high == old(self).high,
            r is Err ==> final(self).records == old(self).records,
            ({
                let expected = (old(self).start_offset + old(self).records@.len()) as i64;
                let before = old(self).records.deep_view();
                match polled {
                    Polled::Message { offset, timestamp, payload } => if offset != expected {
                        r == Err::<(), KafkaError>(
                            KafkaError::UnexpectedOffset { found: offset, expected },
                        )
                    } else {
                        match system_time(offset, timestamp) {
                            Ok(system_time) => r is Ok && final(self).records.deep_view()
                                == before.push(
                                RecordView {
                                    tx_key: TxKey { tx_id: offset, system_time },
                                    record: payload_of(payload),
                                },
                            ),
                            Err(e) => r == Err::<(), KafkaError>(e),
                        }
                    },
                    Polled::Nothing => r == Err::<(), KafkaError>(
                        KafkaError::Stalled { offset: expected, high: old(self).high },
                    ),
                }
            }),
    {
        let ghost before = self.records.deep_view();
        assert(before.len() == self.records@.len());
        let expected: i64 = (self.start_offset as i128 + self.records.len() as i128) as i64;
        match polled {
            Polled::Message { offset, timestamp, payload } => {
                if offset != expected {
                    return Err(KafkaError::UnexpectedOffset { found: offset, expected });
                }
                match message_to_record(offset, timestamp, payload) {
                    Ok(record) => {
                        let ghost earlier = self.records;
                        let ghost added = record;
                        self.records.push(record);
                        proof {
                            byte_string::lemma_deep_push(earlier, self.records, added);
                        }
                        Ok(())
                    },
                    Err(e) => Err(e),
                }
            },
            Polled::Nothing => Err(KafkaError::Stalled { offset: expected, high: self.high }),
        }
    }
}

/// What is done next to get a log that begins with the bootstrap record.
#[derive(Clone, Copy, Debug, PartialEq, Eq, Structural)]
pub enum BootstrapStep {
    /// Nothing: the log begins with it.
    Done,
    /// The bootstrap record is appended.
    Append,
    /// The first record is read again.
    Reread,
}

/// Whether a record, if there is one, is the bootstrap record.
pub open spec fn starts_well(first: Option<&Record>) -> bool {
    match first {
        Some(record) => is_bootstrap(record@),
        None => false,
    }
}

/// What identifies a record, if there is one.
pub open spec fn key_of(first: Option<&Record>) -> Option<TxKey> {
    match first {
        Some(record) => Some(record.tx_key),
        None => None,
    }
}

/// What is done with the first record read, and with the offset behind all that is known.
pub fn bootstrap_first(first: Option<&Record>, next_offset: i64) -> (r: Result<
    BootstrapStep,
    KafkaError,
>)
    ensures
        r == (match first {
            Some(record) => if is_bootstrap(record@) {
                Ok::<BootstrapStep, KafkaError>(BootstrapStep::Done)
            } else {
                Err(KafkaError::ForeignStart { tx_key: record.tx_key })
            },
            None => if next_offset != 0 {
                Err(KafkaError::NoBootstrapRecord)
            } else {
                Ok(BootstrapStep::Append)
            },
        }),
{
    match first {
        Some(record) => {
            if is_kafka_bootstrap_record(record) {
                Ok(BootstrapStep::Done)
            } else {
                Err(KafkaError::ForeignStart { tx_key: record.tx_key })
            }
        },
        None => {
            if next_offset != 0 {
                Err(KafkaError::NoBootstrapRecord)
            } else {
                Ok(BootstrapStep::Append)
            }
        },
    }
}

/// What is done when the bootstrap record was delivered: where it came first it only needs its
/// time; where another writer was first, what came first is read again.
pub fn bootstrap_delivered(delivery: &Delivery) -> (r: Result<BootstrapStep, KafkaError>)
    ensures
        r == (if delivery.partition != PARTITION {
            Err::<BootstrapStep, KafkaError>(
                KafkaError::BootstrapPartition { partition: delivery.partition },
            )
        } else if delivery.offset != log::bootstrap().tx_key.tx_id {
            Ok(BootstrapStep::Reread)
        } else {
            match system_time(delivery.offset, delivery.timestamp) {
                Ok(_) => Ok(BootstrapStep::Done),
                Err(e) => Err(e),
            }
        }),
{
    if delivery.partition != PARTITION {
        return Err(KafkaError::BootstrapPartition { partition: delivery.partition });
    }
    if delivery.offset != log::bootstrap_record().tx_key.tx_id {
        return Ok(BootstrapStep::Reread);
    }
    match delivery_to_tx_key(delivery) {
        Ok(_) => Ok(BootstrapStep::Done),
        Err(e) => Err(e),
    }
}

/// Whether another writer, who was first, wrote the bootstrap record.
pub fn bootstrap_raced(offset: i64, first: Option<&Record>) -> (r: Result<(), KafkaError>)
    ensures
        r == (if starts_well(first) {
            Ok::<(), KafkaError>(())
        } else {
            Err(KafkaError::BootstrapLost { offset, first: key_of(first) })
        }),
{
    match first {
        Some(record) => if is_kafka_bootstrap_record(record) {
            Ok(())
        } else {
            Err(KafkaError::BootstrapLost { offset, first: Some(record.tx_key) })
        },
        None => Err(KafkaError::BootstrapLost { offset, first: None }),
    }
}

/// Whether a setting is a text.
pub open spec fn says(value: Option<&str>, wanted: Seq<char>) -> bool {
    value matches Some(text) && text@ == wanted
}

/// A topic keeps a log exactly if its messages get the time at which they are appended, they are
/// kept for ever by time and by size, and it has one partition.
pub proof fn law_topics_that_keep_a_log(
    topic: &str,
    timestamp_type: Option<&str>,
    retention_ms: Option<&str>,
    retention_bytes: Option<&str>,
    count: usize,
    settings: Result<(), KafkaError>,
    partitions: Result<(), KafkaError>,
)
    requires
        call_ensures(
            validate_topic_config,
            (topic, timestamp_type, retention_ms, retention_bytes),
            settings,
        ),
        call_ensures(validate_partition_count, (topic, count), partitions),
    ensures
        settings is Ok == (says(timestamp_type, "LogAppendTime"@) && says(retention_ms, "-1"@)
            && says(retention_bytes, "-1"@)),
        partitions is Ok == (count == 1),
{
}

/// The record of a message has the offset as its number, the broker's time in microseconds as its
/// time, and what the message holds. A message without the broker's time, or with one that has no
/// date, is refused.
pub proof fn law_records_of_messages(
    offset: i64,
    timestamp: MessageTimestamp,
    payload: Option<Vec<u8>>,
    r: Result<Record, KafkaError>,
)
    requires
        call_ensures(message_to_record, (offset, timestamp, payload), r),
    ensures
        match timestamp {
            MessageTimestamp::LogAppendTime(millis) => if -8_334_601_228_800_000 <= millis
                <= 8_210_266_876_799_999 {
                r matches Ok(record) && record.tx_key.tx_id == offset && record.tx_key.system_time
                    == millis * 1000 && record.record@ == (match payload {
                    Some(bytes) => bytes@,
                    None => Seq::empty(),
                })
            } else {
                r is Err
            },
            _ => r is Err,
        },
{
}

/// A message that was appended to the one partition has the key of its record; one that was put in
/// another partition is refused.
pub proof fn law_keys_of_deliveries(delivery: Delivery, r: Result<TxKey, KafkaError>)
    requires
        call_ensures(appended, (&delivery,), r),
    ensures
        delivery.partition != 0 ==> r is Err,
        delivery.partition == 0 ==> (match delivery.timestamp {
            MessageTimestamp::LogAppendTime(millis) => if -8_334_601_228_800_000 <= millis
                <= 8_210_266_876_799_999 {
                r matches Ok(key) && key.tx_id == delivery.offset && key.system_time == millis
                    * 1000
            } else {
                r is Err
            },
            _ => r is Err,
        }),
{
}

/// The bootstrap record has the number zero and holds nothing, whatever its time.
pub proof fn law_bootstrap_records(record: Record, r: bool)
    requires
        call_ensures(is_kafka_bootstrap_record, (&record,), r),
    ensures
        r == (record.tx_key.tx_id == 0 && record.record@.len() == 0),
{
    if record.record@.len() == 0 {
        assert(record.record@ =~= Seq::empty());
    }
}

/// Reading starts right behind a transaction, or at the beginning, and the offset behind all that
/// is known never goes back and comes behind what was seen.
pub proof fn law_offsets(
    after_tx_id: Option<TxId>,
    start: i64,
    next_offset: i64,
    seen: i64,
    advanced: i64,
)
    requires
        call_ensures(start_offset, (after_tx_id,), start),
        call_ensures(advance_offset, (next_offset, seen), advanced),
        seen < i64::MAX,
    ensures
        after_tx_id is None ==> start == 0,
        after_tx_id matches Some(id) ==> start == id + 1,
        advanced >= next_offset,
        advanced > seen,
        advanced == next_offset || advanced == seen + 1,
{
}

/// A read begins exactly where there is something to read, and ends after so many messages or at
/// the high watermark, whichever comes first.
pub proof fn law_extent_of_a_read(start: i64, limit: u16, high: i64, r: Option<ReadRecords>)
    requires
        call_ensures(ReadRecords::new, (start, limit, high), r),
    ensures
        r is Some == (start < high),
        r matches Some(read) ==> read.start_offset == start && read.end_offset <= high
            && read.end_offset <= start + limit && (read.end_offset == high || read.end_offset
            == start + limit) && read.records@.len() == 0,
{
}

/// A log that holds nothing is given its bootstrap record, one that begins with it is left alone,
/// and one that begins otherwise is refused. Where the bootstrap record is delivered behind other
/// messages, what came first decides.
pub proof fn law_beginning_of_a_log(
    first: Option<&Record>,
    next_offset: i64,
    delivery: Delivery,
    step: Result<BootstrapStep, KafkaError>,
    delivered: Result<BootstrapStep, KafkaError>,
    raced: Result<(), KafkaError>,
)
    requires
        call_ensures(bootstrap_first, (first, next_offset), step),
        call_ensures(bootstrap_delivered, (&delivery,), delivered),
        call_ensures(bootstrap_raced, (delivery.offset, first), raced),
    ensures
        match first {
            Some(record) => if record.tx_key.tx_id == 0 && record.record@.len() == 0 {
                step matches Ok(BootstrapStep::Done) && raced is Ok
            } else {
                step is Err && raced is Err
            },
            None => raced is Err && if next_offset == 0 {
                step matches Ok(BootstrapStep::Append)
            } else {
                step is Err
            },
        },
        delivery.partition != 0 ==> delivered is Err,
        delivery.partition == 0 && delivery.offset != 0 ==> (delivered matches Ok(
            BootstrapStep::Reread,
        )),
        delivery.partition == 0 && delivery.offset == 0 ==> (delivered matches Ok(
            BootstrapStep::Done,
        )) == (delivery.timestamp matches MessageTimestamp::LogAppendTime(millis)
            && -8_334_601_228_800_000 <= millis <= 8_210_266_876_799_999),
{
    if let Some(record) = first {
        if record.record@.len() == 0 {
            assert(record.record@ =~= Seq::empty());
        }
    }
}

/// Each error says in its own words what it is about.
pub proof fn law_kafka_texts(e: KafkaError, r: String)
    requires
        call_ensures(KafkaError::message, (&e,), r),
    ensures
        r@ == (match e {
                KafkaError::TimestampType { topic, got } => match got {
                    Some(other) => "Kafka topic "@ + topic@
                        + " must set message.timestamp.type=LogAppendTime, got "@ + other@,
                    None => "Kafka topic "@ + topic@
                        + " must expose message.timestamp.type=LogAppendTime"@,
                },
                KafkaError::Retention { topic, key, got } => match got {
                    Some(other) => "Kafka topic "@ + topic@ + " must set "@ + key@
                        + "=-1 to retain the full tx log, got "@ + other@,
                    None => "Kafka topic "@ + topic@ + " must expose "@ + key@
                        + "=-1 to retain the full tx log"@,
                },
                KafkaError::PartitionCount { topic, count } => "Kafka topic "@ + topic@
                    + " must have exactly 1 partition, got "@ + text::digits(count as nat),
                KafkaError::NotLogAppendTime { offset } =>
                "Triplox Kafka log requires LogAppendTime at offset "@ + text::decimal(offset as int),
                KafkaError::TimestampOutOfRange { millis, offset } => "Kafka timestamp "@ + text::decimal(
                    millis as int,
                ) + " out of range at offset "@ + text::decimal(offset as int),
                KafkaError::UnexpectedPartition { partition } =>
                "Kafka produced to unexpected partition: expected 0, got "@ + text::decimal(
                    partition as int,
                ),
                KafkaError::UnexpectedOffset { found, expected } => "Kafka read got offset "@ + text::decimal(
                    found as int,
                ) + ", expected "@ + text::decimal(expected as int),
                KafkaError::Stalled { offset, high } => "Kafka read stalled at offset "@ + text::decimal(
                    offset as int,
                ) + " (high watermark "@ + text::decimal(high as int) + ")"@,
                KafkaError::ForeignStart { tx_key } => "kafka log starts with non-bootstrap record "@
                    + transaction::key_shown(tx_key),
                KafkaError::NoBootstrapRecord =>
                "kafka log has offsets but no readable bootstrap record"@,
                KafkaError::BootstrapPartition { partition } =>
                "Kafka bootstrap produced to unexpected partition: expected 0, got "@ + text::decimal(
                    partition as int,
                ),
                KafkaError::BootstrapLost { offset, first } => "Kafka bootstrap produced to offset "@
                    + text::decimal(offset as int) + " and offset 0 holds no bootstrap record: "@
                    + transaction::optional_key_shown(first),
        }),
{
}

} // verus!
