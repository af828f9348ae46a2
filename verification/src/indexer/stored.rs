//! Reading the stored keys of an index as they are visible now.

use vstd::prelude::*;

use crate::byte_string::{self, comes_before, same_bytes};
use crate::codec::{self, encode, encode_i64_bytes};
use crate::indexer::keys::{self, temporal_key, vnv_key_to_parts};
use crate::indexer::laws::{self, Version};
use crate::iterator::index::{self, Index, VecIterator};
use crate::iterator::temporal_filter_iterator::{self, TemporalFilterIterator};

verus! {

/// Whether a key is the one that is made of its parts: a value, a number and a value, with
/// transaction and operation.
pub open spec fn is_key(key: Seq<u8>, index: u8) -> bool {
    match keys::vnv_parts(key, index) {
        Ok((x, a, y, tx_eid, op)) => key == laws::vnv_logical(index, x, a, y) + keys::suffix(
            tx_eid,
            op,
        ),
        Err(_) => false,
    }
}

/// Whether all are keys of an index, and stand in order.
pub open spec fn are_keys(raw: Seq<Seq<u8>>, index: u8) -> bool {
    laws::ascending(raw) && forall|i: int| 0 <= i < raw.len() ==> is_key(#[trigger] raw[i], index)
}

/// The versions that keys of an index are of.
spec fn versions_in(raw: Seq<Seq<u8>>, index: u8) -> Seq<Version> {
    Seq::new(raw.len(), |i: int| version_in(raw[i], index))
}

/// The version that a key of an index is of.
spec fn version_in(key: Seq<u8>, index: u8) -> Version {
    let (x, a, y, tx_eid, op) = keys::vnv_parts(key, index)->Ok_0;
    Version { logical: laws::vnv_logical(index, x, a, y), tx_eid, op }
}

/// The keys of an index can be read as of a transaction.
pub proof fn law_keys_are_temporal(raw: Seq<Seq<u8>>, index: u8)
    requires
        are_keys(raw, index),
    ensures
        temporal_filter_iterator::temporal_keys(raw, seq![index]),
        index::sorted(raw),
{
    let versions = versions_in(raw, index);
    assert forall|i: int| 0 <= i < versions.len() implies laws::is_vnv(
        (#[trigger] versions[i]).logical,
        index,
    ) by {
        let parts = keys::vnv_parts(raw[i], index)->Ok_0;
        assert(versions[i].logical == laws::vnv_logical(index, parts.0, parts.1, parts.2));
    }
    assert forall|i: int| 0 <= i < raw.len() implies #[trigger] laws::version_keys(versions)[i]
        == raw[i] by {
        assert(is_key(raw[i], index));
    }
    assert(laws::version_keys(versions) =~= raw);
    laws::law_vnv_keys_are_temporal(versions, index);
    assert forall|i: int, j: int| 0 <= i < j < raw.len() implies !byte_string::before(
        #[trigger] raw[j],
        #[trigger] raw[i],
    ) by {
        assert(byte_string::before(raw[i], raw[j]));
        byte_string::lemma_before_asymmetric(raw[i], raw[j]);
    }
}

/// Whether a key is the one that is made of its parts.
fn check_key(key: &[u8], index: u8) -> (r: bool)
    ensures
        r == is_key(key@, index),
{
    match vnv_key_to_parts(key, index) {
        Ok((x, a, y, tx_eid, op)) => {
            let first = encode(&x);
            let number = encode_i64_bytes(a);
            let last = encode(&y);
            let again = temporal_key(index, &first, &number, &last, &encode_i64_bytes(tx_eid), op);
            same_bytes(key, &again)
        },
        Err(_) => false,
    }
}

/// Whether all are keys of an index, and stand in order.
fn check_keys(list: &Vec<Vec<u8>>, index: u8) -> (r: bool)
    ensures
        r == are_keys(list.deep_view(), index),
{
    let ghost raw = list.deep_view();
    let mut i: usize = 0;
    while i < list.len()
        invariant
            i <= list@.len() == raw.len(),
            raw == list.deep_view(),
            forall|j: int| 0 <= j < i ==> is_key(#[trigger] raw[j], index),
            forall|j: int, k: int|
                0 <= j < k < i ==> byte_string::before(#[trigger] raw[j], #[trigger] raw[k]),
        decreases list@.len() - i,
    {
        proof {
            byte_string::lemma_deep_bytes(&list@[i as int]);
        }
        if !check_key(&list[i], index) {
            assert(!is_key(raw[i as int], index));
            return false;
        }
        if i > 0 {
            proof {
                byte_string::lemma_deep_bytes(&list@[i - 1]);
            }
            if !comes_before(&list[i - 1], &list[i]) {
                assert(!byte_string::before(raw[i - 1], raw[i as int]));
                return false;
            }
        }
        proof {
            assert forall|j: int| 0 <= j < i implies byte_string::before(
                #[trigger] raw[j],
                raw[i as int],
            ) by {
                if j < i - 1 {
                    assert(byte_string::before(raw[j], raw[i - 1]));
                    byte_string::lemma_before_transitive(raw[j], raw[i - 1], raw[i as int]);
                }
            }
        }
        i += 1;
    }
    true
}

/// A cursor over what is visible now in an index that keeps versions of a value, a number and a
/// value; none where these are not its keys in order.
pub fn visible_now(list: Vec<Vec<u8>>, index: u8) -> (r: Option<
    TemporalFilterIterator<VecIterator>,
>)
    ensures
        r is Some == are_keys(list.deep_view(), index),
        r matches Some(it) ==> {
            &&& it.inv()
            &&& it.reliable()
            &&& it.position() == 0
            &&& it.entries() == temporal_filter_iterator::visible_from(
                list.deep_view(),
                codec::i64_bytes(i64::MAX),
                1,
                0,
            )
        },
{
    if !check_keys(&list, index) {
        return None;
    }
    proof {
        law_keys_are_temporal(list.deep_view(), index);
    }
    let prefix: Vec<u8> = vec![index];
    assert(prefix@ =~= seq![index]);
    match TemporalFilterIterator::new(VecIterator::new(list), &prefix, i64::MAX) {
        Ok(it) => Some(it),
        Err(_) => None,
    }
}

} // verus!
