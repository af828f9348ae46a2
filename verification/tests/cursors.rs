use triplox::codec::{encode_i64_bytes, ADD, RETRACT};
use triplox::iterator::index::{Index, VecIterator};
use triplox::iterator::slate_iterator::SlateIterator;
use triplox::iterator::temporal_filter_iterator::{
    logical_key, next_prefix, resolve_temporal_key, tx_eid_bytes, TemporalFilterIterator,
};

const PFX: &[u8] = b"\x01";

fn keys(values: &[&[u8]]) -> Vec<Vec<u8>> {
    values
        .iter()
        .map(|value| {
            let mut key = PFX.to_vec();
            key.extend_from_slice(value);
            key
        })
        .collect()
}

fn version(value: &[u8], tx_eid: i64, op: u8) -> Vec<u8> {
    let mut key = PFX.to_vec();
    key.extend_from_slice(value);
    key.extend(encode_i64_bytes(tx_eid));
    key.push(op);
    key
}

fn history(mut versions: Vec<Vec<u8>>, as_of: i64) -> TemporalFilterIterator<VecIterator> {
    versions.sort();
    TemporalFilterIterator::new(VecIterator::new(versions), PFX, as_of).unwrap()
}

fn all<I: Index>(cursor: &mut I) -> Vec<Vec<u8>> {
    let mut out = vec![];
    while cursor.has_next() {
        out.push(cursor.get_value().unwrap().unwrap());
        cursor.next().unwrap();
    }
    assert_eq!(cursor.get_value().unwrap(), None);
    out
}

#[test]
fn a_cursor_shows_what_stands_behind_its_prefix() {
    let mut iter = SlateIterator::new(VecIterator::new(keys(&[b"aa", b"bb", b"cc"])), PFX);

    assert!(iter.has_next());
    assert_eq!(iter.count().unwrap(), 3);
    assert_eq!(iter.get_value().unwrap(), Some(b"aa".to_vec()));
    assert_eq!(iter.next().unwrap(), Some(b"bb".to_vec()));
    assert_eq!(iter.next().unwrap(), Some(b"cc".to_vec()));
    assert_eq!(iter.next().unwrap(), None);
    assert!(!iter.has_next());
}

#[test]
fn a_cursor_is_sought_behind_its_prefix() {
    let mut iter = SlateIterator::new(VecIterator::new(keys(&[b"aa", b"cc", b"ee"])), PFX);

    iter.seek(b"cc").unwrap();
    assert_eq!(iter.get_value().unwrap(), Some(b"cc".to_vec()));
    iter.seek(b"bb").unwrap();
    assert_eq!(iter.get_value().unwrap(), Some(b"cc".to_vec()));
    assert_eq!(iter.next().unwrap(), Some(b"ee".to_vec()));
    iter.seek(b"zz").unwrap();
    assert_eq!(iter.get_value().unwrap(), None);
}

#[test]
fn a_cursor_over_nothing_is_at_its_end() {
    let iter = SlateIterator::new(VecIterator::new(vec![]), PFX);
    assert!(!iter.has_next());
    assert_eq!(iter.get_value().unwrap(), None);
}

#[test]
fn a_temporal_key_has_three_parts() {
    let key = version(b"value", 7, ADD);
    assert_eq!(logical_key(&key), b"\x01value");
    assert_eq!(tx_eid_bytes(&key), encode_i64_bytes(7));
    assert_eq!(resolve_temporal_key(&key, &encode_i64_bytes(7)), Some(ADD));
    assert_eq!(resolve_temporal_key(&key, &encode_i64_bytes(8)), Some(ADD));
    assert_eq!(resolve_temporal_key(&key, &encode_i64_bytes(6)), None);
}

#[test]
fn the_next_prefix_follows_all_that_begin_so() {
    assert_eq!(next_prefix(&[1, 2]), Some(vec![1, 3]));
    assert_eq!(next_prefix(&[1, 255]), Some(vec![2]));
    assert_eq!(next_prefix(&[255, 255]), None);
    assert_eq!(next_prefix(&[]), None);
}

#[test]
fn the_newest_version_in_time_counts() {
    let versions = || {
        vec![
            version(b"aa", 10, ADD),
            version(b"aa", 20, RETRACT),
            version(b"aa", 30, ADD),
            version(b"bb", 15, ADD),
            version(b"cc", 25, ADD),
        ]
    };
    let at = |as_of| all(&mut history(versions(), as_of));
    let none: Vec<Vec<u8>> = vec![];
    assert_eq!(at(9), none);
    assert_eq!(at(10), vec![b"aa".to_vec()]);
    assert_eq!(at(15), vec![b"aa".to_vec(), b"bb".to_vec()]);
    assert_eq!(at(20), vec![b"bb".to_vec()]);
    assert_eq!(at(25), vec![b"bb".to_vec(), b"cc".to_vec()]);
    assert_eq!(at(30), vec![b"aa".to_vec(), b"bb".to_vec(), b"cc".to_vec()]);
}

#[test]
fn a_history_is_sought_by_what_it_shows() {
    let mut iter = history(
        vec![
            version(b"aa", 10, ADD),
            version(b"bb", 10, ADD),
            version(b"bb", 11, RETRACT),
            version(b"cc", 10, ADD),
            version(b"cc", 12, ADD),
            version(b"dd", 10, ADD),
        ],
        20,
    );
    iter.seek(b"bb").unwrap();
    assert_eq!(iter.get_value().unwrap(), Some(b"cc".to_vec()));
    iter.seek(b"aa").unwrap();
    assert_eq!(iter.get_value().unwrap(), Some(b"cc".to_vec()));
    assert_eq!(iter.next().unwrap(), Some(b"dd".to_vec()));
    iter.seek(b"zz").unwrap();
    assert!(!iter.has_next());
}

#[test]
fn a_retraction_at_the_end_of_the_bytes_is_passed() {
    let mut versions = vec![vec![255, 255]];
    versions[0].extend(encode_i64_bytes(5));
    versions[0].push(RETRACT);
    let mut iter =
        TemporalFilterIterator::new(VecIterator::new(versions), &[255], 9).unwrap();
    assert!(!iter.has_next());
    assert_eq!(iter.next().unwrap(), None);
}
