use triplox::error::Error;
use triplox::log::{
    bootstrap_record, CatchUp, Follower, LiveAction, LiveEvent, MockSubscriber, Record, TxLog,
    TxLogReader, TxLogWriter, CATCH_UP_RETRY_INITIAL_DELAY, CATCH_UP_RETRY_MAX_DELAY,
};
use triplox::memory_log::MemoryLog;
use triplox::transaction::TxKey;

fn log_of(n: u8) -> MemoryLog {
    let mut log = MemoryLog::new();
    for i in 0..n {
        log.append_tx(vec![i], 1000 + i as i64).unwrap();
    }
    log
}

fn numbers(records: &[Record]) -> Vec<i64> {
    records.iter().map(|r| r.tx_key.tx_id).collect()
}

/// Catches up with a log, and gives what was told and how many reads there were.
fn catch_up(log: &MemoryLog, mut state: CatchUp) -> (Vec<i64>, usize) {
    let mut subscriber = MockSubscriber::new();
    let mut reads = 0;
    while let Some(limit) = state.read_limit(false) {
        let batch = log.read_txs_after(state.last_tx_id, limit).unwrap();
        reads += 1;
        let more = state.take_batch(limit, &batch);
        for record in batch {
            subscriber.accept(record);
        }
        if !more {
            break;
        }
    }
    (numbers(&subscriber.records), reads)
}

#[test]
fn records_are_numbered_in_order() {
    let mut log = MemoryLog::new();
    let first = log.append_tx(vec![1, 2], 7).unwrap();
    let second = log.append_tx(vec![3], 8).unwrap();
    assert_eq!(first, TxKey { tx_id: 0, system_time: 7 });
    assert_eq!(second, TxKey { tx_id: 1, system_time: 8 });
    assert_eq!(
        log.read_txs_after(None, 10).unwrap(),
        vec![
            Record { tx_key: first, record: vec![1, 2] },
            Record { tx_key: second, record: vec![3] },
        ]
    );
}

#[test]
fn reads_begin_behind_a_transaction_and_are_limited() {
    let log = log_of(5);
    assert_eq!(numbers(&log.read_txs_after(None, 2).unwrap()), vec![0, 1]);
    assert_eq!(numbers(&log.read_txs_after(Some(1), 2).unwrap()), vec![2, 3]);
    assert_eq!(numbers(&log.read_txs_after(Some(3), 9).unwrap()), vec![4]);
    assert_eq!(numbers(&log.read_txs_after(Some(4), 9).unwrap()), vec![]);
    assert_eq!(numbers(&log.read_txs_after(Some(i64::MAX), 9).unwrap()), vec![]);
}

#[test]
fn the_bootstrap_record_begins_an_empty_log() {
    let mut log = MemoryLog::new();
    log.ensure_bootstrap_record().unwrap();
    log.ensure_bootstrap_record().unwrap();
    let records = log.read_txs_after(None, 10).unwrap();
    assert_eq!(records, vec![bootstrap_record()]);
    assert_eq!(records[0].tx_key, TxKey { tx_id: 0, system_time: 0 });
    assert!(records[0].record.is_empty());
    let first = TxKey { tx_id: 0, system_time: 1000 };
    assert_eq!(log_of(1).ensure_bootstrap_record(), Err(Error::ForeignStart(first)));
    assert_eq!(
        Error::ForeignStart(first).message(),
        "memory log starts with non-bootstrap record \
         TxKey { tx_id: 0, system_time: 1970-01-01T00:00:00.001Z }"
    );
}

#[test]
fn a_time_without_a_date_is_shown_as_a_number() {
    let odd = TxKey { tx_id: 3, system_time: i64::MAX };
    assert_eq!(
        Error::ForeignStart(odd).message(),
        "memory log starts with non-bootstrap record \
         TxKey { tx_id: 3, system_time: 9223372036854775807 }"
    );
}

#[test]
fn catching_up_tells_everything_once() {
    let log = log_of(10);
    assert_eq!(catch_up(&log, CatchUp::new(None, 3, None)), ((0..10).collect(), 4));
    assert_eq!(catch_up(&log, CatchUp::new(Some(3), 3, None)), ((4..10).collect(), 3));
    assert_eq!(catch_up(&log, CatchUp::new(None, 100, None)), ((0..10).collect(), 1));
    assert_eq!(catch_up(&log, CatchUp::new(Some(9), 3, None)), (vec![], 1));
}

#[test]
fn catching_up_stops_at_its_limit() {
    let log = log_of(10);
    assert_eq!(catch_up(&log, CatchUp::new(None, 3, Some(5))), ((0..5).collect(), 2));
    assert_eq!(catch_up(&log, CatchUp::new(None, 3, Some(0))), (vec![], 0));
    assert_eq!(CatchUp::new(None, 3, None).read_limit(true), None);
    assert_eq!(CatchUp::new(None, 3, Some(2)).read_limit(false), Some(2));
}

#[test]
fn failed_reads_wait_longer_each_time() {
    let mut state = CatchUp::new(None, 3, None);
    assert_eq!(CATCH_UP_RETRY_INITIAL_DELAY, 100);
    let waits: Vec<u64> = (0..8).map(|_| state.fail()).collect();
    assert_eq!(waits, vec![100, 200, 400, 800, 1600, 3200, CATCH_UP_RETRY_MAX_DELAY, 5000]);
    let batch = log_of(3).read_txs_after(None, 3).unwrap();
    assert!(state.take_batch(3, &batch));
    assert_eq!(state.fail(), 100);
}

#[test]
fn a_follower_is_told_each_record_once() {
    let mut follower = Follower { last_tx_id: Some(4) };
    assert_eq!(follower.receive(LiveEvent::Appended(4)), LiveAction::Skip);
    assert_eq!(follower.receive(LiveEvent::Appended(5)), LiveAction::Deliver);
    assert_eq!(follower.receive(LiveEvent::Appended(5)), LiveAction::Skip);
    assert_eq!(
        follower.receive(LiveEvent::Lagged(7)),
        LiveAction::CatchUp(CatchUp::new(Some(5), u16::MAX, Some(7)))
    );
    assert_eq!(follower.receive(LiveEvent::Closed), LiveAction::Stop);
    let mut fresh = Follower { last_tx_id: None };
    assert_eq!(fresh.receive(LiveEvent::Appended(0)), LiveAction::Deliver);
    assert_eq!(fresh.last_tx_id, Some(0));
}

#[test]
fn transactions_are_ordered_by_number_then_time() {
    let key = |tx_id, system_time| TxKey { tx_id, system_time };
    assert!(key(1, 9).is_before(&key(2, 0)));
    assert!(key(1, 0).is_before(&key(1, 9)));
    assert!(!key(1, 9).is_before(&key(1, 9)));
    assert!(!key(2, 0).is_before(&key(1, 9)));
}

#[test]
fn catching_up_passes_over_missing_numbers() {
    let records: Vec<Record> = [2, 5, 6, 9, 11]
        .iter()
        .map(|n| Record { tx_key: TxKey { tx_id: *n, system_time: 0 }, record: vec![] })
        .collect();
    let told = |mut state: CatchUp| {
        let mut seen = vec![];
        while let Some(limit) = state.read_limit(false) {
            let batch: Vec<Record> = records
                .iter()
                .filter(|r| state.last_tx_id.map_or(true, |last| r.tx_key.tx_id > last))
                .take(limit as usize)
                .cloned()
                .collect();
            seen.extend(numbers(&batch));
            if !state.take_batch(limit, &batch) {
                break;
            }
        }
        seen
    };
    assert_eq!(told(CatchUp::new(None, 2, None)), vec![2, 5, 6, 9, 11]);
    assert_eq!(told(CatchUp::new(Some(5), 2, None)), vec![6, 9, 11]);
    assert_eq!(told(CatchUp::new(Some(3), 2, Some(3))), vec![5, 6, 9]);
    let mut follower = Follower { last_tx_id: Some(6) };
    assert_eq!(follower.receive(LiveEvent::Appended(5)), LiveAction::Skip);
    assert_eq!(follower.receive(LiveEvent::Appended(9)), LiveAction::Deliver);
    assert_eq!(follower.last_tx_id, Some(9));
}
