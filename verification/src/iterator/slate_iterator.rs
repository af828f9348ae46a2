//! Cursors over the keys that begin with a prefix.

use vstd::prelude::*;

use crate::byte_string::{self, comes_before, copy_bytes, joined, slice_of};
use crate::error::Error;
use crate::iterator::index::{self, Index};
use crate::iterator::temporal_filter_iterator;

verus! {

/// Whether every key begins with a prefix.
pub open spec fn all_begin(keys: Seq<Seq<u8>>, prefix: Seq<u8>) -> bool {
    forall|i: int| 0 <= i < keys.len() ==> byte_string::begins_with(#[trigger] keys[i], prefix)
}

/// What stands in the keys behind their first bytes.
pub open spec fn behind(keys: Seq<Seq<u8>>, n: int) -> Seq<Seq<u8>> {
    Seq::new(keys.len(), |i: int| keys[i].skip(n))
}

/// A cursor over keys with a common prefix, which shows what stands behind the prefix.
pub struct SlateIterator<I: Index> {
    pub inner: I,
    pub prefix: Vec<u8>,
}

/// The place that splits an ordered list.
proof fn lemma_split_exists(s: Seq<Seq<u8>>, key: Seq<u8>, n: int) -> (p: int)
    requires
        index::sorted(s),
        0 <= n <= s.len(),
        forall|i: int| 0 <= i < n ==> byte_string::before(#[trigger] s[i], key),
    ensures
        index::splits(s, key, p),
        n <= p,
    decreases s.len() - n,
{
    if n == s.len() {
        n
    } else if byte_string::before(s[n], key) {
        lemma_split_exists(s, key, n + 1)
    } else {
        assert forall|i: int| n <= i < s.len() implies !byte_string::before(
            #[trigger] s[i],
            key,
        ) by {
            if n < i && byte_string::before(s[i], key) {
                byte_string::lemma_before_total(s[n], s[i]);
                if s[n] != s[i] {
                    byte_string::lemma_before_transitive(s[n], s[i], key);
                }
            }
        }
        n
    }
}

/// A key is its prefix and what stands behind it, and is ordered among others by the latter.
pub proof fn lemma_behind_order(prefix: Seq<u8>, a: Seq<u8>, b: Seq<u8>)
    requires
        byte_string::begins_with(a, prefix),
    ensures
        byte_string::before(a, prefix + b) == byte_string::before(a.skip(prefix.len() as int), b),
        byte_string::begins_with(b, prefix) ==> byte_string::before(a, b) == byte_string::before(
            a.skip(prefix.len() as int),
            b.skip(prefix.len() as int),
        ),
{
    let n = prefix.len() as int;
    assert(a =~= prefix + a.skip(n));
    temporal_filter_iterator::lemma_before_common(prefix, a.skip(n), b);
    if byte_string::begins_with(b, prefix) {
        assert(b =~= prefix + b.skip(n));
        temporal_filter_iterator::lemma_before_common(prefix, a.skip(n), b.skip(n));
    }
}

/// A place splits the keys just where it splits what stands behind their prefix.
proof fn lemma_behind_splits(keys: Seq<Seq<u8>>, prefix: Seq<u8>, key: Seq<u8>, p: int)
    requires
        all_begin(keys, prefix),
        index::splits(keys, prefix + key, p),
    ensures
        index::splits(behind(keys, prefix.len() as int), key, p),
{
    let shown = behind(keys, prefix.len() as int);
    assert forall|i: int| 0 <= i < keys.len() implies byte_string::before(
        #[trigger] shown[i],
        key,
    ) == byte_string::before(keys[i], prefix + key) by {
        lemma_behind_order(prefix, keys[i], key);
    }
}

impl<I: Index> SlateIterator<I> {
    /// A cursor over the keys that begin with a prefix.
    pub fn new(inner: I, prefix: &[u8]) -> (r: Self)
        requires
            inner.inv(),
            all_begin(inner.entries(), prefix@),
        ensures
            r.inv(),
            r.entries() == behind(inner.entries(), prefix@.len() as int),
            r.position() == inner.position(),
            r.reliable() == inner.reliable(),
    {
        SlateIterator { inner, prefix: copy_bytes(prefix) }
    }

    /// What stands behind the prefix of a key.
    fn extract_next_component(&self, key: &[u8]) -> (r: Vec<u8>)
        requires
            byte_string::begins_with(key@, self.prefix@),
        ensures
            r@ == key@.skip(self.prefix@.len() as int),
    {
        let r = slice_of(key, self.prefix.len(), key.len());
        assert(r@ =~= key@.skip(self.prefix@.len() as int));
        r
    }
}

impl<I: Index> Index for SlateIterator<I> {
    open spec fn entries(&self) -> Seq<Seq<u8>> {
        behind(self.inner.entries(), self.prefix@.len() as int)
    }

    open spec fn position(&self) -> int {
        self.inner.position()
    }

    open spec fn inv(&self) -> bool {
        self.inner.inv() && all_begin(self.inner.entries(), self.prefix@)
    }

    open spec fn reliable(&self) -> bool {
        self.inner.reliable()
    }

    fn count(&self) -> (r: Result<u64, Error>) {
        self.inner.count()
    }

    /// The keys below are only sought forward: a cursor at the target or past it stays.
    fn seek(&mut self, key: &[u8]) -> (r: Result<(), Error>) {
        let full_key = joined(&self.prefix, key);
        let ghost keys = self.inner.entries();
        let ghost at = self.inner.position();
        proof {
            self.inner.lemma_inv();
        }
        match self.inner.get_value() {
            Err(e) => {
                return Err(e);
            },
            Ok(current) => {
                if let Some(current) = current {
                    if !comes_before(&current, &full_key) {
                        proof {
                            let p = lemma_split_exists(keys, full_key@, 0);
                            lemma_behind_splits(keys, self.prefix@, key@, p);
                            assert(index::splits(self.entries(), key@, p));
                        }
                        return Ok(());
                    }
                }
            },
        }
        match self.inner.seek(&full_key) {
            Err(e) => Err(e),
            Ok(_) => {
                proof {
                    let p = choose|p: int| #[trigger]
                        index::splits(keys, full_key@, p) && (if at <= p {
                            self.inner.position() == p
                        } else {
                            p <= self.inner.position() <= at
                        });
                    lemma_behind_splits(keys, self.prefix@, key@, p);
                    assert(index::splits(self.entries(), key@, p));
                }
                Ok(())
            },
        }
    }

    fn next(&mut self) -> (r: Result<Option<Vec<u8>>, Error>)
        ensures
            match r {
                Ok(Some(value)) => final(self).position() < final(self).entries().len() && value@
                    == final(self).entries()[final(self).position()],
                Ok(None) => final(self).position() == final(self).entries().len(),
                Err(_) => true,
            },
    {
        proof {
            self.inner.lemma_inv();
        }
        match self.inner.next() {
            Err(e) => Err(e),
            Ok(_) => self.get_value(),
        }
    }

    fn get_value(&self) -> (r: Result<Option<Vec<u8>>, Error>) {
        proof {
            self.inner.lemma_inv();
        }
        match self.inner.get_value() {
            Err(e) => Err(e),
            Ok(None) => Ok(None),
            Ok(Some(key)) => Ok(Some(self.extract_next_component(&key))),
        }
    }

    fn has_next(&self) -> (r: bool) {
        self.inner.has_next()
    }

    proof fn lemma_inv(&self) {
        self.inner.lemma_inv();
        let keys = self.inner.entries();
        let shown = self.entries();
        assert forall|i: int, j: int| 0 <= i < j < shown.len() implies !byte_string::before(
            #[trigger] shown[j],
            #[trigger] shown[i],
        ) by {
            assert(!byte_string::before(keys[j], keys[i]));
            lemma_behind_order(self.prefix@, keys[j], keys[i]);
        }
    }
}

} // verus!
