use triplox::error::Error;
use triplox::metadata::{Metadata, PartitionMap};
use triplox::ops::{Attribute, Document, TxOp};
use triplox::partition::{
    extract_counter, extract_partition, is_tempid, make_entity_id, partition_entity_prefix,
    resolve_entity_ids, PartitionCounters, COUNTER_MASK, DB_PARTITION, TX_PARTITION,
    USER_PARTITION,
};
use triplox::schema::Schema;
use triplox::value::{DataType, Keyword};

fn document(entries: &[(&str, DataType)]) -> Document {
    let mut doc = Document::new();
    for (name, value) in entries {
        doc.insert(name, value.clone());
    }
    doc
}

fn name_of(s: &str) -> DataType {
    DataType::String(s.to_string())
}

fn keyword(s: &str) -> DataType {
    DataType::Keyword(Keyword::new(s))
}

fn id_of(op: &TxOp) -> i64 {
    match op {
        TxOp::Put(doc) => match doc.get("db/id") {
            Some(DataType::Long(id)) => *id,
            _ => panic!("Expected db/id Long"),
        },
        _ => panic!("Expected Put"),
    }
}

#[test]
fn test_partition_zero_preserves_counter() {
    assert_eq!(make_entity_id(DB_PARTITION, 0), 0);
    assert_eq!(make_entity_id(DB_PARTITION, 1), 1);
    assert_eq!(make_entity_id(DB_PARTITION, 31), 31);
    assert_eq!(make_entity_id(DB_PARTITION, 100), 100);
}

#[test]
fn test_bootstrap_ids_in_db_partition() {
    for id in 0..64i64 {
        assert_eq!(make_entity_id(DB_PARTITION, id), id);
    }
}

#[test]
fn test_round_trip_db_partition() {
    let eid = make_entity_id(DB_PARTITION, 42);
    assert_eq!(extract_partition(eid), DB_PARTITION);
    assert_eq!(extract_counter(eid), 42);
}

#[test]
fn test_round_trip_tx_partition() {
    let eid = make_entity_id(TX_PARTITION, 100);
    assert_eq!(extract_partition(eid), TX_PARTITION);
    assert_eq!(extract_counter(eid), 100);
    assert_eq!(eid, (1i64 << 42) | 100);
}

#[test]
fn test_round_trip_user_partition() {
    let eid = make_entity_id(USER_PARTITION, 500);
    assert_eq!(extract_partition(eid), USER_PARTITION);
    assert_eq!(extract_counter(eid), 500);
    assert_eq!(eid, (2i64 << 42) | 500);
}

#[test]
fn test_is_tempid() {
    assert!(!is_tempid(0));
    assert!(!is_tempid(1));
    assert!(!is_tempid(make_entity_id(USER_PARTITION, 100)));
    assert!(is_tempid(-1));
    assert!(is_tempid(-100));
    assert!(is_tempid(i64::MIN));
}

#[test]
fn test_partitions_non_overlapping() {
    let db_max = make_entity_id(DB_PARTITION, COUNTER_MASK);
    let tx_min = make_entity_id(TX_PARTITION, 0);
    let tx_max = make_entity_id(TX_PARTITION, COUNTER_MASK);
    let user_min = make_entity_id(USER_PARTITION, 0);
    assert!(db_max < tx_min);
    assert!(tx_max < user_min);
}

#[test]
fn test_resolve_entity_ids_explicit_id_passthrough() {
    let mut counters = PartitionCounters::new();
    let ops = vec![TxOp::Put(document(&[
        ("db/id", DataType::Long(42)),
        ("name", name_of("alice")),
    ]))];
    let resolved = resolve_entity_ids(&ops, &mut counters).unwrap();
    assert!(counters.is_empty(), "counters should not advance for explicit IDs");
    match &resolved[0] {
        TxOp::Put(doc) => assert_eq!(doc.get("db/id"), Some(&DataType::Long(42))),
        _ => panic!("Expected Put"),
    }
}

#[test]
fn test_resolve_entity_ids_user_partition() {
    let mut counters = PartitionCounters::new();
    let ops = vec![TxOp::Put(document(&[("name", name_of("alice"))]))];
    let resolved = resolve_entity_ids(&ops, &mut counters).unwrap();
    assert_eq!(counters[&USER_PARTITION], 1);
    assert_eq!(extract_partition(id_of(&resolved[0])), USER_PARTITION);
}

#[test]
fn test_resolve_entity_ids_db_partition_for_schema() {
    let mut counters = PartitionCounters::new();
    let ops = vec![TxOp::Put(document(&[
        ("db/ident", keyword("my-attr")),
        ("db/valueType", keyword("db.type/string")),
    ]))];
    let resolved = resolve_entity_ids(&ops, &mut counters).unwrap();
    assert_eq!(counters[&DB_PARTITION], 1);
    assert_eq!(extract_partition(id_of(&resolved[0])), DB_PARTITION);
}

#[test]
fn test_resolve_entity_ids_db_partition_for_enum() {
    let mut counters = PartitionCounters::new();
    let ops = vec![TxOp::Put(document(&[("db/ident", keyword("db.type/string"))]))];
    let resolved = resolve_entity_ids(&ops, &mut counters).unwrap();
    assert_eq!(extract_partition(id_of(&resolved[0])), DB_PARTITION);
}

#[test]
fn test_resolve_entity_ids_add_retract_passthrough() {
    let mut counters = PartitionCounters::new();
    let ops = vec![
        TxOp::Add {
            entity_id: 100,
            attribute: Attribute("name".into()),
            value: name_of("alice"),
        },
        TxOp::Retract {
            entity_id: 100,
            attribute: Attribute("name".into()),
            value: name_of("alice"),
        },
    ];
    let resolved = resolve_entity_ids(&ops, &mut counters).unwrap();
    assert!(counters.is_empty(), "Add/Retract should not allocate IDs");
    assert_eq!(resolved.len(), 2);
}

#[test]
fn test_resolve_entity_ids_multiple_docs() {
    let mut counters = PartitionCounters::from([(USER_PARTITION, 5i64)]);
    let ops = vec![
        TxOp::Put(document(&[("name", name_of("alice"))])),
        TxOp::Put(document(&[("name", name_of("bob"))])),
    ];
    let resolved = resolve_entity_ids(&ops, &mut counters).unwrap();
    assert_eq!(counters[&USER_PARTITION], 7);
    for (i, op) in resolved.iter().enumerate() {
        let eid = id_of(op);
        assert_eq!(extract_partition(eid), USER_PARTITION);
        assert_eq!(extract_counter(eid), 5 + i as i64);
    }
}

#[test]
fn an_entity_number_that_is_no_number_is_refused() {
    let mut counters = PartitionCounters::new();
    let ops = vec![TxOp::Put(document(&[("db/id", name_of("alice"))]))];
    assert_eq!(resolve_entity_ids(&ops, &mut counters).unwrap_err(), Error::EntityIdType);
}

#[test]
fn entities_of_a_partition_share_a_prefix() {
    let prefix = partition_entity_prefix(TX_PARTITION);
    let inside = triplox::codec::encode(&DataType::Long(make_entity_id(TX_PARTITION, 77)));
    let outside = triplox::codec::encode(&DataType::Long(make_entity_id(USER_PARTITION, 77)));
    assert!(inside.starts_with(&prefix));
    assert!(!outside.starts_with(&prefix));
}

#[test]
fn entity_numbers_are_given_out_once() {
    let mut map = PartitionMap::new();
    assert!(!map.contains_entid(make_entity_id(USER_PARTITION, 0)));
    let first = map.allocate_entid(USER_PARTITION);
    let second = map.allocate_entid(USER_PARTITION);
    assert_eq!(first, make_entity_id(USER_PARTITION, 0));
    assert_eq!(second, make_entity_id(USER_PARTITION, 1));
    assert!(map.contains_entid(first));
    assert!(map.contains_entid(second));
    assert!(!map.contains_entid(make_entity_id(USER_PARTITION, 2)));
    assert!(!map.contains_entid(make_entity_id(DB_PARTITION, 0)));
}

#[test]
fn generations_follow_one_another() {
    let mut metadata = Metadata::new(Schema { attributes: vec![] }, PartitionMap::new());
    assert_eq!(metadata.generation, 0);
    metadata.advance_generation();
    assert_eq!(metadata.generation, 1);
}

#[test]
fn only_the_entities_of_a_partition_have_its_prefix() {
    let prefix = partition_entity_prefix(TX_PARTITION);
    let base = make_entity_id(TX_PARTITION, 0);
    let has = |id: i64| triplox::codec::encode(&DataType::Long(id)).starts_with(&prefix);
    assert!(has(base) && has(base + 0xff_ffff_ffff));
    assert!(!has(base - 1) && !has(base + 0x100_0000_0000));
    assert!(!has(0) && !has(-1) && !has(i64::MAX));
}

#[test]
fn counters_are_taken_up_behind_known_entities() {
    let mut counters = PartitionMap::new();
    let third = make_entity_id(USER_PARTITION, 2);
    counters.note_entid(third);
    counters.note_entid(make_entity_id(USER_PARTITION, 0));
    assert!(counters.contains_entid(make_entity_id(USER_PARTITION, 1)));
    assert!(!counters.contains_entid(make_entity_id(TX_PARTITION, 0)));
    assert_eq!(counters.allocate_entid(USER_PARTITION), make_entity_id(USER_PARTITION, 3));
    assert_eq!(counters.allocate_entid(TX_PARTITION), make_entity_id(TX_PARTITION, 0));
}
