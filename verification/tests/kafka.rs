use triplox::kafka_log::{
    advance_offset, appended, bootstrap_delivered, bootstrap_first, bootstrap_raced,
    delivery_to_tx_key, is_kafka_bootstrap_record, message_to_record, start_offset,
    timestamp_to_system_time, validate_infinite_retention_config,
    validate_log_append_time_config, validate_partition_count, validate_topic_config,
    BootstrapStep, Delivery, MessageTimestamp, Polled, ReadRecords, PARTITION,
};
use triplox::log::bootstrap_record;
use triplox::protocol::micros_to_datetime;

const RETENTION_MS_CONFIG: &str = "retention.ms";
const RETENTION_BYTES_CONFIG: &str = "retention.bytes";

#[test]
fn test_kafka_bootstrap_record_allows_broker_timestamp() {
    let mut record = bootstrap_record();
    record.tx_key.system_time = 1_780_931_760_255_000;
    assert!(is_kafka_bootstrap_record(&record));
}

#[test]
fn test_kafka_bootstrap_record_rejects_non_bootstrap_payload() {
    let mut record = bootstrap_record();
    record.record = vec![1];
    assert!(!is_kafka_bootstrap_record(&record));
}

#[test]
fn test_kafka_bootstrap_record_rejects_non_bootstrap_offset() {
    let mut record = bootstrap_record();
    record.tx_key.tx_id = 1;
    assert!(!is_kafka_bootstrap_record(&record));
}

#[test]
fn test_timestamp_to_system_time_rejects_create_time() {
    let err = timestamp_to_system_time(7, MessageTimestamp::CreateTime(1_000))
        .unwrap_err()
        .message();
    assert!(err.contains("requires LogAppendTime"));
    assert!(err.contains("offset 7"));
}

#[test]
fn test_timestamp_to_system_time_rejects_not_available() {
    let err = timestamp_to_system_time(7, MessageTimestamp::NotAvailable).unwrap_err().message();
    assert!(err.contains("requires LogAppendTime"));
    assert!(err.contains("offset 7"));
}

#[test]
fn test_timestamp_to_system_time_rejects_out_of_range_millis() {
    let err = timestamp_to_system_time(7, MessageTimestamp::LogAppendTime(i64::MAX))
        .unwrap_err()
        .message();
    assert!(err.contains("out of range"));
    assert!(err.contains("offset 7"));
}

#[test]
fn test_delivery_to_tx_key_uses_delivery_offset_and_log_append_time() {
    let delivery = Delivery {
        partition: PARTITION,
        offset: 7,
        timestamp: MessageTimestamp::LogAppendTime(1_780_931_760_255),
    };
    let tx_key = delivery_to_tx_key(&delivery).unwrap();
    assert_eq!(tx_key.tx_id, 7);
    assert_eq!(tx_key.system_time, 1_780_931_760_255_000);
}

#[test]
fn test_delivery_to_tx_key_rejects_non_log_append_time() {
    let delivery = Delivery {
        partition: PARTITION,
        offset: 7,
        timestamp: MessageTimestamp::CreateTime(1_000),
    };
    let err = delivery_to_tx_key(&delivery).unwrap_err().message();
    assert!(err.contains("requires LogAppendTime"));
    assert!(err.contains("offset 7"));
}

#[test]
fn test_validate_log_append_time_config_accepts_log_append_time() {
    validate_log_append_time_config("topic", Some("LogAppendTime")).unwrap();
}

#[test]
fn test_validate_log_append_time_config_rejects_create_time() {
    let err = validate_log_append_time_config("topic", Some("CreateTime")).unwrap_err().message();
    assert!(err.contains("message.timestamp.type=LogAppendTime"));
    assert!(err.contains("got CreateTime"));
}

#[test]
fn test_validate_log_append_time_config_rejects_missing_config() {
    let err = validate_log_append_time_config("topic", None).unwrap_err().message();
    assert!(err.contains("message.timestamp.type=LogAppendTime"));
}

#[test]
fn test_validate_infinite_retention_config_accepts_minus_one() {
    validate_infinite_retention_config("topic", RETENTION_MS_CONFIG, Some("-1")).unwrap();
}

#[test]
fn test_validate_infinite_retention_config_rejects_finite_retention() {
    let err = validate_infinite_retention_config("topic", RETENTION_MS_CONFIG, Some("604800000"))
        .unwrap_err()
        .message();
    assert!(err.contains("retention.ms=-1"));
    assert!(err.contains("got 604800000"));
}

#[test]
fn test_validate_infinite_retention_config_rejects_missing_config() {
    let err = validate_infinite_retention_config("topic", RETENTION_BYTES_CONFIG, None)
        .unwrap_err()
        .message();
    assert!(err.contains("retention.bytes=-1"));
}

#[test]
fn a_topic_is_checked_setting_by_setting() {
    validate_topic_config("t", Some("LogAppendTime"), Some("-1"), Some("-1")).unwrap();
    let err = validate_topic_config("t", Some("LogAppendTime"), Some("-1"), Some("9"))
        .unwrap_err()
        .message();
    assert_eq!(
        err,
        "Kafka topic t must set retention.bytes=-1 to retain the full tx log, got 9"
    );
    validate_partition_count("t", 1).unwrap();
    assert_eq!(
        validate_partition_count("t", 3).unwrap_err().message(),
        "Kafka topic t must have exactly 1 partition, got 3"
    );
}

#[test]
fn the_range_of_dates_is_exact() {
    let first = -8_334_601_228_800_000i64;
    let last = 8_210_266_876_799_999i64;
    for millis in [first, 0, -1, last] {
        assert_eq!(
            timestamp_to_system_time(0, MessageTimestamp::LogAppendTime(millis)).unwrap(),
            millis * 1000
        );
        assert_eq!(micros_to_datetime(millis * 1000).unwrap(), millis * 1000);
    }
    for millis in [first - 1, last + 1] {
        assert!(timestamp_to_system_time(0, MessageTimestamp::LogAppendTime(millis)).is_err());
        assert!(micros_to_datetime(millis * 1000).is_err());
    }
    assert_eq!(micros_to_datetime(-1_000_001).unwrap(), -1_000_001);
    assert_eq!(
        micros_to_datetime(i64::MAX).unwrap_err().message(),
        "Invalid timestamp: 9223372036854775807 micros"
    );
}

#[test]
fn a_message_without_content_is_an_empty_record() {
    let record = message_to_record(3, MessageTimestamp::LogAppendTime(2), None).unwrap();
    assert_eq!(record.tx_key.tx_id, 3);
    assert_eq!(record.tx_key.system_time, 2000);
    assert!(record.record.is_empty());
}

#[test]
fn only_the_one_partition_is_appended_to() {
    let delivery = Delivery {
        partition: 4,
        offset: 7,
        timestamp: MessageTimestamp::LogAppendTime(1),
    };
    assert!(appended(&delivery).unwrap_err().message().contains("got 4"));
    let delivery = Delivery { partition: 0, ..delivery };
    assert_eq!(appended(&delivery).unwrap().tx_id, 7);
}

fn message(offset: i64) -> Polled {
    Polled::Message {
        offset,
        timestamp: MessageTimestamp::LogAppendTime(offset),
        payload: Some(vec![offset as u8]),
    }
}

#[test]
fn a_read_takes_the_messages_one_by_one() {
    assert!(ReadRecords::new(5, 10, 5).is_none());
    let mut read = ReadRecords::new(2, 10, 4).unwrap();
    assert_eq!(read.end_offset, 4);
    assert!(read.goes_on());
    read.take(message(2)).unwrap();
    assert_eq!(
        read.take(message(9)).unwrap_err().message(),
        "Kafka read got offset 9, expected 3"
    );
    assert_eq!(
        read.take(Polled::Nothing).unwrap_err().message(),
        "Kafka read stalled at offset 3 (high watermark 4)"
    );
    read.take(message(3)).unwrap();
    assert!(!read.goes_on());
    assert_eq!(read.records.len(), 2);
    assert_eq!(read.records[1].record, vec![3]);
    assert_eq!(ReadRecords::new(2, 1, 9).unwrap().end_offset, 3);
}

#[test]
fn offsets_only_grow() {
    assert_eq!(advance_offset(5, 3), 5);
    assert_eq!(advance_offset(5, 5), 6);
    assert_eq!(start_offset(None), 0);
    assert_eq!(start_offset(Some(4)), 5);
}

#[test]
fn a_log_is_given_its_bootstrap_record() {
    let good = bootstrap_record();
    let mut bad = bootstrap_record();
    bad.record = vec![1];
    assert_eq!(bootstrap_first(Some(&good), 5).unwrap(), BootstrapStep::Done);
    bad.tx_key.system_time = 1_700_000_000_000_000;
    assert_eq!(
        bootstrap_first(Some(&bad), 5).unwrap_err().message(),
        "kafka log starts with non-bootstrap record \
         TxKey { tx_id: 0, system_time: 2023-11-14T22:13:20Z }"
    );
    assert!(bootstrap_first(None, 5).unwrap_err().message().contains("no readable bootstrap"));
    assert_eq!(bootstrap_first(None, 0).unwrap(), BootstrapStep::Append);
    let first = Delivery {
        partition: PARTITION,
        offset: 0,
        timestamp: MessageTimestamp::LogAppendTime(1),
    };
    assert_eq!(bootstrap_delivered(&first).unwrap(), BootstrapStep::Done);
    assert_eq!(
        bootstrap_delivered(&Delivery { offset: 3, ..first }).unwrap(),
        BootstrapStep::Reread
    );
    assert_eq!(
        bootstrap_delivered(&Delivery { partition: 1, ..first }).unwrap_err().message(),
        "Kafka bootstrap produced to unexpected partition: expected 0, got 1"
    );
    assert!(bootstrap_delivered(&Delivery {
        timestamp: MessageTimestamp::NotAvailable,
        ..first
    })
    .is_err());
    bootstrap_raced(3, Some(&good)).unwrap();
    assert_eq!(
        bootstrap_raced(3, None).unwrap_err().message(),
        "Kafka bootstrap produced to offset 3 and offset 0 holds no bootstrap record: None"
    );
    assert_eq!(
        bootstrap_raced(3, Some(&bad)).unwrap_err().message(),
        "Kafka bootstrap produced to offset 3 and offset 0 holds no bootstrap record: \
         Some(TxKey { tx_id: 0, system_time: 2023-11-14T22:13:20Z })"
    );
}
