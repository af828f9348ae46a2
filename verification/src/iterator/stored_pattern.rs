//! Patterns over stored keys.

use vstd::prelude::*;

use crate::algo::generic_join::{self, Extension, Prefix, PrefixExtender};
use crate::byte_string::{self, copy_bytes, has_prefix, Row};
use crate::codec;
use crate::error::{Error, ErrorView};
use crate::iterator::generic_prefix_extender::{self, is_temporal, GenericPrefixExtender};
use crate::iterator::index::{self, read_all, Index, VecIterator};
use crate::iterator::slate_iterator::{self, SlateIterator};
use crate::iterator::temporal_filter_iterator::{self, TemporalFilterIterator};
use crate::query::patterns::triple::{Scan, ScanView};

verus! {

/// A pattern over the keys of the indexes, as of a transaction.
#[derive(Debug)]
pub struct StoredPattern {
    pub pattern: GenericPrefixExtender,
    pub keys: Vec<Vec<u8>>,
    pub as_of: i64,
}

/// Whether a key is one of an index that keeps versions.
pub open spec fn versioned(key: Seq<u8>) -> bool {
    key.len() >= 10 && key[0] != codec::AE && key[0] != codec::AV
}

/// Keys of the indexes: in order, and no fact of an index that keeps versions the beginning of
/// another.
pub open spec fn index_keys(keys: Seq<Seq<u8>>) -> bool {
    &&& generic_join::ascending(keys)
    &&& forall|i: int, j: int|
        0 <= i < keys.len() && 0 <= j < keys.len() && versioned(keys[i]) && versioned(keys[j])
            && byte_string::begins_with(
            temporal_filter_iterator::logical(#[trigger] keys[j]),
            temporal_filter_iterator::logical(#[trigger] keys[i]),
        ) ==> temporal_filter_iterator::logical(keys[i]) == temporal_filter_iterator::logical(
            keys[j],
        )
}

/// The keys that begin with a prefix and have so many more bytes at least, in their order.
pub open spec fn selected(keys: Seq<Seq<u8>>, prefix: Seq<u8>, least: int) -> Seq<Seq<u8>>
    decreases keys.len(),
{
    if keys.len() == 0 {
        Seq::empty()
    } else {
        let earlier = selected(keys.drop_last(), prefix, least);
        if byte_string::begins_with(keys.last(), prefix) && keys.last().len() >= prefix.len()
            + least {
            earlier.push(keys.last())
        } else {
            earlier
        }
    }
}

/// What a scan shows of keys as of a transaction.
pub open spec fn scanned(keys: Seq<Seq<u8>>, scan: ScanView, as_of: i64) -> Seq<Seq<u8>> {
    if generic_prefix_extender::temporal(scan.index_type) {
        temporal_filter_iterator::visible_from(
            selected(keys, scan.prefix, 9),
            codec::i64_bytes(as_of),
            scan.prefix.len() as int,
            0,
        )
    } else {
        slate_iterator::behind(selected(keys, scan.prefix, 0), scan.prefix.len() as int)
    }
}

/// What is selected is what begins with the prefix, in order.
pub proof fn lemma_selected(keys: Seq<Seq<u8>>, prefix: Seq<u8>, least: int)
    requires
        generic_join::ascending(keys),
    ensures
        generic_join::ascending(selected(keys, prefix, least)),
        forall|k: int|
            0 <= k < selected(keys, prefix, least).len() ==> {
                &&& keys.contains(#[trigger] selected(keys, prefix, least)[k])
                &&& byte_string::begins_with(selected(keys, prefix, least)[k], prefix)
                &&& selected(keys, prefix, least)[k].len() >= prefix.len() + least
            },
        forall|key: Seq<u8>| #[trigger]
            keys.contains(key) && byte_string::begins_with(key, prefix) && key.len()
                >= prefix.len() + least ==> selected(keys, prefix, least).contains(key),
    decreases keys.len(),
{
    if keys.len() > 0 {
        let front = keys.drop_last();
        lemma_selected(front, prefix, least);
        let earlier = selected(front, prefix, least);
        let list = selected(keys, prefix, least);
        assert forall|key: Seq<u8>| #[trigger]
            keys.contains(key) && byte_string::begins_with(key, prefix) && key.len()
                >= prefix.len() + least implies list.contains(key) by {
            let i = keys.index_of(key);
            if i < front.len() {
                assert(front[i] == key);
                assert(front.contains(key));
                let k = earlier.index_of(key);
                assert(list[k] == key);
            } else {
                assert(list[list.len() - 1] == key);
            }
        }
        assert forall|k: int| 0 <= k < earlier.len() implies keys.contains(#[trigger] earlier[k])
            && byte_string::before(earlier[k], keys.last()) by {
            let i = front.index_of(earlier[k]);
            assert(keys[i] == earlier[k]);
        }
        assert(keys[keys.len() - 1] == keys.last());
    }
}

/// What is selected in an index that keeps versions can be read as of a transaction.
pub proof fn lemma_selected_temporal(keys: Seq<Seq<u8>>, prefix: Seq<u8>)
    requires
        index_keys(keys),
        prefix.len() > 0,
        prefix[0] != codec::AE,
        prefix[0] != codec::AV,
    ensures
        temporal_filter_iterator::temporal_keys(selected(keys, prefix, 9), prefix),
{
    let raw = selected(keys, prefix, 9);
    lemma_selected(keys, prefix, 9);
    assert forall|i: int, j: int|
        0 <= i < raw.len() && 0 <= j < raw.len() && byte_string::begins_with(
            temporal_filter_iterator::logical(#[trigger] raw[j]),
            temporal_filter_iterator::logical(#[trigger] raw[i]),
        ) implies temporal_filter_iterator::logical(raw[i]) == temporal_filter_iterator::logical(
        raw[j],
    ) by {
        let a = keys.index_of(raw[i]);
        let b = keys.index_of(raw[j]);
        assert(raw[i].take(prefix.len() as int)[0] == prefix[0]);
        assert(raw[j].take(prefix.len() as int)[0] == prefix[0]);
        assert(keys[a] == raw[i] && keys[b] == raw[j]);
    }
}

/// What a scan shows stands in order, each thing once.
proof fn lemma_scanned(keys: Seq<Seq<u8>>, scan: ScanView, as_of: i64)
    requires
        index_keys(keys),
        scan.prefix.len() > 0,
        scan.prefix[0] == codec::index_prefix(scan.index_type),
    ensures
        generic_join::ascending(scanned(keys, scan, as_of)),
{
    if generic_prefix_extender::temporal(scan.index_type) {
        lemma_selected_temporal(keys, scan.prefix);
        temporal_filter_iterator::lemma_visible_sorted(
            selected(keys, scan.prefix, 9),
            scan.prefix,
            codec::i64_bytes(as_of),
        );
    } else {
        lemma_selected(keys, scan.prefix, 0);
        let raw = selected(keys, scan.prefix, 0);
        let list = slate_iterator::behind(raw, scan.prefix.len() as int);
        assert forall|i: int, j: int| 0 <= i < j < list.len() implies byte_string::before(
            #[trigger] list[i],
            #[trigger] list[j],
        ) by {
            assert(byte_string::before(raw[i], raw[j]));
            slate_iterator::lemma_behind_order(scan.prefix, raw[i], raw[j]);
        }
    }
}

/// What of the values is shown is what is left of them.
proof fn lemma_shown(values: Seq<Seq<u8>>, entries: Seq<Seq<u8>>, allow: spec_fn(Seq<u8>) -> bool)
    requires
        forall|e: Seq<u8>| #[trigger] allow(e) == entries.contains(e),
    ensures
        generic_prefix_extender::shown(values, entries) == generic_join::only(values, allow),
    decreases values.len(),
{
    if values.len() > 0 {
        lemma_shown(values.drop_last(), entries, allow);
        assert(allow(values.last()) == entries.contains(values.last()));
    }
}

/// The keys that begin with a prefix and have so many more bytes at least, in their order.
fn select(keys: &Vec<Vec<u8>>, prefix: &[u8], least: usize) -> (r: Vec<Vec<u8>>)
    ensures
        r.deep_view() == selected(keys.deep_view(), prefix@, least as int),
{
    let ghost all = keys.deep_view();
    let mut out: Vec<Vec<u8>> = Vec::new();
    let mut i: usize = 0;
    assert(out.deep_view() =~= selected(all.take(0), prefix@, least as int));
    while i < keys.len()
        invariant
            i <= keys@.len() == all.len(),
            all == keys.deep_view(),
            out.deep_view() == selected(all.take(i as int), prefix@, least as int),
        decreases keys@.len() - i,
    {
        proof {
            byte_string::lemma_deep_bytes(&keys@[i as int]);
            assert(all.take(i + 1).drop_last() =~= all.take(i as int));
            assert(all.take(i + 1).last() == all[i as int]);
        }
        if has_prefix(&keys[i], prefix) && keys[i].len() - prefix.len() >= least {
            let key = copy_bytes(&keys[i]);
            let ghost earlier = out;
            let ghost added = key;
            out.push(key);
            proof {
                byte_string::lemma_deep_bytes(&added);
                byte_string::lemma_deep_push(earlier, out, added);
            }
        }
        i += 1;
    }
    assert(all.take(i as int) =~= all);
    out
}

/// A cursor over a scan of an index that keeps versions.
fn versions(keys: &Vec<Vec<u8>>, scan: &Scan, as_of: i64) -> (r: Result<
    TemporalFilterIterator<VecIterator>,
    Error,
>)
    requires
        index_keys(keys.deep_view()),
        generic_prefix_extender::temporal(scan.index_type),
        scan.prefix@.len() > 0,
        scan.prefix@[0] == codec::index_prefix(scan.index_type),
    ensures
        r matches Ok(it) && it.inv() && it.reliable() && it.position() == 0 && it.entries()
            == scanned(keys.deep_view(), scan@, as_of),
{
    let chosen = select(keys, &scan.prefix, 9);
    proof {
        lemma_selected_temporal(keys.deep_view(), scan.prefix@);
        lemma_sorted(chosen.deep_view());
    }
    TemporalFilterIterator::new(VecIterator::new(chosen), &scan.prefix, as_of)
}

/// A cursor over a scan of an index without versions.
fn plain(keys: &Vec<Vec<u8>>, scan: &Scan, as_of: i64) -> (r: SlateIterator<VecIterator>)
    requires
        index_keys(keys.deep_view()),
        !generic_prefix_extender::temporal(scan.index_type),
    ensures
        r.inv(),
        r.reliable(),
        r.position() == 0,
        r.entries() == scanned(keys.deep_view(), scan@, as_of),
{
    let chosen = select(keys, &scan.prefix, 0);
    proof {
        lemma_selected(keys.deep_view(), scan.prefix@, 0);
        lemma_sorted(chosen.deep_view());
    }
    SlateIterator::new(VecIterator::new(chosen), &scan.prefix)
}

/// What a scan shows of keys as of a transaction, in order.
pub fn read_scan(keys: &Vec<Vec<u8>>, scan: &Scan, as_of: i64) -> (r: Result<Vec<Vec<u8>>, Error>)
    requires
        index_keys(keys.deep_view()),
        scan.prefix@.len() > 0,
        scan.prefix@[0] == codec::index_prefix(scan.index_type),
    ensures
        r matches Ok(list) && list.deep_view() == scanned(keys.deep_view(), scan@, as_of)
            && generic_join::ascending(list.deep_view()),
{
    proof {
        lemma_scanned(keys.deep_view(), scan@, as_of);
    }
    if is_temporal(scan.index_type) {
        match versions(keys, scan, as_of) {
            Ok(mut cursor) => read_all(&mut cursor),
            Err(e) => Err(e),
        }
    } else {
        let mut cursor = plain(keys, scan, as_of);
        read_all(&mut cursor)
    }
}

impl StoredPattern {
    /// What the scan behind a prefix shows.
    pub open spec fn shows(self, prefix: Row) -> Seq<Seq<u8>> {
        scanned(self.keys.deep_view(), self.pattern.scan_for(prefix), self.as_of)
    }

    /// A pattern over stored keys.
    pub fn new(pattern: GenericPrefixExtender, keys: Vec<Vec<u8>>, as_of: i64) -> (r: Self)
        requires
            pattern.inv(),
            index_keys(keys.deep_view()),
        ensures
            r.inv(),
            r.pattern == pattern,
            r.keys == keys,
            r.as_of == as_of,
    {
        StoredPattern { pattern, keys, as_of }
    }
}

/// Byte strings in order, each once, stand in order.
proof fn lemma_sorted(list: Seq<Seq<u8>>)
    requires
        generic_join::ascending(list),
    ensures
        index::sorted(list),
{
    assert forall|i: int, j: int| 0 <= i < j < list.len() implies !byte_string::before(
        #[trigger] list[j],
        #[trigger] list[i],
    ) by {
        byte_string::lemma_before_asymmetric(list[i], list[j]);
    }
}

impl PrefixExtender for StoredPattern {
    open spec fn inv(&self) -> bool {
        self.pattern.inv() && index_keys(self.keys.deep_view())
    }

    open spec fn joins(&self, level: int) -> bool {
        self.pattern.joins(level)
    }

    open spec fn accepts(&self, prefix: Row, value: Seq<u8>) -> bool {
        self.shows(prefix).contains(value)
    }

    open spec fn judges(&self, prefix: Row, value: Seq<u8>) -> bool {
        true
    }

    open spec fn offers(&self, prefix: Row) -> bool {
        true
    }

    open spec fn lists(&self, prefix: Row, value: Seq<u8>) -> bool {
        self.joins(prefix.len() as int) && self.accepts(prefix, value)
    }

    open spec fn refusal(&self, prefix: Row) -> Option<ErrorView> {
        if self.pattern.joins(prefix.len() as int) {
            None
        } else {
            Some(ErrorView::CannotPropose)
        }
    }

    open spec fn filters(&self) -> bool {
        true
    }

    open spec fn refuses(&self, prefix: Row, e: ErrorView) -> bool {
        self.refusal(prefix) == Some(e)
    }

    open spec fn objects(&self, prefix: Row, values: Seq<Seq<u8>>, e: ErrorView) -> bool {
        self.refusal(prefix) == Some(e)
    }

    open spec fn counted(&self, prefix: Row) -> usize {
        if self.pattern.joins(prefix.len() as int) {
            self.shows(prefix).len() as usize
        } else {
            usize::MAX
        }
    }

    open spec fn counts(&self, prefix: Row) -> bool {
        true
    }

    fn count(&self, prefix: &Prefix) -> (r: Result<usize, Error>) {
        assert(prefix.deep_view().len() == prefix@.len());
        if !self.pattern.participates_in_level(prefix.len()) {
            return Ok(usize::MAX);
        }
        match self.propose(prefix) {
            Ok(list) => {
                assert(list.deep_view().len() == list@.len());
                Ok(list.len())
            },
            Err(e) => Err(e),
        }
    }

    fn propose(&self, prefix: &Prefix) -> (r: Result<Vec<Extension>, Error>)
        ensures
            self.joins(prefix@.len() as int) ==> (r matches Ok(list) && list.deep_view()
                == self.shows(prefix.deep_view())),
    {
        if !self.pattern.participates_in_level(prefix.len()) {
            return Err(Error::CannotPropose);
        }
        let scan = self.pattern.build_slate_prefix(prefix);
        proof {
            assert(scan.prefix@[0] == codec::index_prefix(scan.index_type));
        }
        read_scan(&self.keys, &scan, self.as_of)
    }

    fn intersect(&self, prefix: &Prefix, extensions: &[Extension]) -> (r: Result<
        Vec<Extension>,
        Error,
    >) {
        if !self.pattern.participates_in_level(prefix.len()) {
            return Err(Error::CannotPropose);
        }
        let scan = self.pattern.build_slate_prefix(prefix);
        let values = byte_string::copy_row(extensions);
        proof {
            assert(scan.prefix@[0] == codec::index_prefix(scan.index_type));
            let accepted = |e: Seq<u8>| self.accepts(prefix.deep_view(), e);
            lemma_shown(extensions.deep_view(), self.shows(prefix.deep_view()), accepted);
            generic_join::lemma_only(extensions.deep_view(), accepted);
        }
        if is_temporal(scan.index_type) {
            match versions(&self.keys, &scan, self.as_of) {
                Ok(mut cursor) => self.pattern.intersect(&values, &mut cursor),
                Err(e) => Err(e),
            }
        } else {
            let mut cursor = plain(&self.keys, &scan, self.as_of);
            self.pattern.intersect(&values, &mut cursor)
        }
    }

    fn participates_in_level(&self, level: usize) -> (r: bool) {
        self.pattern.participates_in_level(level)
    }
}

} // verus!
