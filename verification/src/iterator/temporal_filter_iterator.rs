//! Reading an index as of a transaction.

use vstd::prelude::*;

use crate::byte_string::{self, comes_before, copy_bytes, joined, slice_of};
use crate::codec::{self, encode_i64_bytes, OP_LENGTH, RETRACT, TX_EID_OP_SUFFIX};
use crate::error::{self, Error, ErrorView};
use crate::iterator::index::{self, Index};

verus! {

/// A key without its transaction and operation.
pub open spec fn logical(key: Seq<u8>) -> Seq<u8> {
    key.take(key.len() - 9)
}

/// The encoded transaction of a key.
pub open spec fn transaction_of(key: Seq<u8>) -> Seq<u8> {
    key.subrange(key.len() - 9, key.len() - 1)
}

/// Whether the key's transaction is the given one or an earlier one. Larger numbers come
/// first in byte order.
pub open spec fn in_time(key: Seq<u8>, as_of: Seq<u8>) -> bool {
    !byte_string::before(transaction_of(key), as_of)
}

/// A key without its transaction and operation.
pub fn logical_key(key: &[u8]) -> (r: &[u8])
    requires
        key@.len() >= 9,
    ensures
        r@ == logical(key@),
{
    let r = vstd::slice::slice_subrange(key, 0, key.len() - TX_EID_OP_SUFFIX);
    assert(r@ =~= logical(key@));
    r
}

/// The encoded transaction of a key.
pub fn tx_eid_bytes(key: &[u8]) -> (r: &[u8])
    requires
        key@.len() >= 9,
    ensures
        r@ == transaction_of(key@),
{
    vstd::slice::slice_subrange(key, key.len() - TX_EID_OP_SUFFIX, key.len() - OP_LENGTH)
}

/// The operation of a key, if its transaction is the given one or an earlier one.
pub fn resolve_temporal_key(key: &[u8], as_of_encoded: &[u8]) -> (r: Option<u8>)
    requires
        key@.len() >= 9,
    ensures
        r == (if in_time(key@, as_of_encoded@) {
            Some(key@.last())
        } else {
            None::<u8>
        }),
{
    if comes_before(tx_eid_bytes(key), as_of_encoded) {
        None
    } else {
        Some(key[key.len() - 1])
    }
}

/// The encoded transaction of a key stands in time exactly when the transaction is not later.
pub proof fn law_in_time(key: Seq<u8>, tx: i64, as_of: i64)
    requires
        key.len() >= 9,
        transaction_of(key) == codec::i64_bytes(tx),
    ensures
        in_time(key, codec::i64_bytes(as_of)) == (tx <= as_of),
{
    codec::law_i64_order(tx, as_of);
}

/// The first byte string after all that begin with `s`.
pub open spec fn successor(s: Seq<u8>) -> Option<Seq<u8>>
    decreases s.len(),
{
    if s.len() == 0 {
        None
    } else {
        match successor(s.drop_first()) {
            Some(t) => Some(seq![s[0]] + t),
            None => if s[0] < 255 {
                Some(seq![(s[0] + 1) as u8])
            } else {
                None
            },
        }
    }
}

/// The first byte string after all that begin with `s`, if there is one.
pub fn next_prefix(s: &[u8]) -> (r: Option<Vec<u8>>)
    ensures
        match r {
            Some(t) => successor(s@) == Some(t@),
            None => successor(s@) is None,
        },
{
    let mut i: usize = s.len();
    while i > 0
        invariant
            i <= s@.len(),
            forall|j: int| i <= j < s@.len() ==> s@[j] == 255,
        decreases i,
    {
        if s[i - 1] < 255 {
            let mut out = slice_of(s, 0, i - 1);
            out.push(s[i - 1] + 1);
            proof {
                lemma_successor(s@, i - 1);
                assert(out@ =~= s@.take(i - 1).push((s@[i - 1] + 1) as u8));
            }
            return Some(out);
        }
        i -= 1;
    }
    proof {
        lemma_no_successor(s@);
    }
    None
}

proof fn lemma_no_successor(s: Seq<u8>)
    requires
        forall|j: int| 0 <= j < s.len() ==> s[j] == 255,
    ensures
        successor(s) is None,
    decreases s.len(),
{
    if s.len() > 0 {
        assert forall|j: int| 0 <= j < s.drop_first().len() implies s.drop_first()[j] == 255 by {
            assert(s.drop_first()[j] == s[j + 1]);
        }
        lemma_no_successor(s.drop_first());
    }
}

proof fn lemma_successor(s: Seq<u8>, i: int)
    requires
        0 <= i < s.len(),
        s[i] < 255,
        forall|j: int| i < j < s.len() ==> s[j] == 255,
    ensures
        successor(s) == Some(s.take(i).push((s[i] + 1) as u8)),
    decreases s.len(),
{
    let tail = s.drop_first();
    if i == 0 {
        assert forall|j: int| 0 <= j < tail.len() implies tail[j] == 255 by {
            assert(tail[j] == s[j + 1]);
        }
        lemma_no_successor(tail);
        assert(s.take(0).push((s[0] + 1) as u8) =~= seq![(s[0] + 1) as u8]);
    } else {
        assert forall|j: int| i - 1 < j < tail.len() implies tail[j] == 255 by {
            assert(tail[j] == s[j + 1]);
        }
        lemma_successor(tail, i - 1);
        assert(seq![s[0]] + tail.take(i - 1).push((tail[i - 1] + 1) as u8) =~= s.take(i).push(
            (s[i] + 1) as u8,
        ));
    }
}

/// What comes before the successor of `s` comes before `s` or begins with it; where there is
/// no successor, everything does.
pub proof fn lemma_before_successor(k: Seq<u8>, s: Seq<u8>)
    ensures
        match successor(s) {
            Some(t) => byte_string::before(k, t) == (byte_string::before(k, s)
                || byte_string::begins_with(k, s)),
            None => byte_string::before(k, s) || byte_string::begins_with(k, s),
        },
    decreases s.len(),
{
    if s.len() == 0 {
        assert(k.take(0) =~= s);
    } else if k.len() == 0 {
    } else {
        let ks = k.drop_first();
        let ss = s.drop_first();
        lemma_before_successor(ks, ss);
        byte_string::lemma_begins_with_step(k, s);
        match successor(ss) {
            Some(t) => {
                assert((seq![s[0]] + t)[0] == s[0]);
                assert((seq![s[0]] + t).drop_first() =~= t);
            },
            None => {
                if s[0] < 255 {
                    let t = seq![(s[0] + 1) as u8];
                    assert(t.drop_first() =~= Seq::<u8>::empty());
                    assert(!byte_string::before(ks, Seq::<u8>::empty()));
                }
            },
        }
    }
}

/// The order of byte strings with a common beginning is that of the rest.
pub proof fn lemma_before_common(p: Seq<u8>, a: Seq<u8>, b: Seq<u8>)
    ensures
        byte_string::before(p + a, p + b) == byte_string::before(a, b),
    decreases p.len(),
{
    if p.len() == 0 {
        assert(p + a =~= a);
        assert(p + b =~= b);
    } else {
        assert((p + a).drop_first() =~= p.drop_first() + a);
        assert((p + b).drop_first() =~= p.drop_first() + b);
        lemma_before_common(p.drop_first(), a, b);
    }
}

/// Beginnings of ordered byte strings are ordered the same way, unless one begins with the
/// other.
proof fn lemma_before_beginnings(a: Seq<u8>, b: Seq<u8>, la: Seq<u8>, lb: Seq<u8>)
    requires
        byte_string::before(a, b),
        byte_string::begins_with(a, la),
        byte_string::begins_with(b, lb),
        !byte_string::begins_with(la, lb),
        !byte_string::begins_with(lb, la),
    ensures
        byte_string::before(la, lb),
    decreases la.len(),
{
    if la.len() == 0 {
        assert(lb.take(0) =~= la);
    } else if lb.len() == 0 {
        assert(la.take(0) =~= lb);
    } else {
        byte_string::lemma_begins_with_step(a, la);
        byte_string::lemma_begins_with_step(b, lb);
        byte_string::lemma_begins_with_step(la, lb);
        byte_string::lemma_begins_with_step(lb, la);
        if la[0] == lb[0] {
            lemma_before_beginnings(
                a.drop_first(),
                b.drop_first(),
                la.drop_first(),
                lb.drop_first(),
            );
        }
    }
}

/// Keys of one index under a prefix: in order, each with a transaction and an operation, and
/// no logical key the beginning of another.
pub open spec fn temporal_keys(raw: Seq<Seq<u8>>, prefix: Seq<u8>) -> bool {
    &&& forall|i: int, j: int|
        0 <= i < j < raw.len() ==> byte_string::before(#[trigger] raw[i], #[trigger] raw[j])
    &&& forall|i: int|
        0 <= i < raw.len() ==> byte_string::begins_with(#[trigger] raw[i], prefix) && raw[i].len()
            >= prefix.len() + 9
    &&& forall|i: int, j: int|
        0 <= i < raw.len() && 0 <= j < raw.len() && byte_string::begins_with(
            logical(#[trigger] raw[j]),
            logical(#[trigger] raw[i]),
        ) ==> logical(raw[i]) == logical(raw[j])
}

/// Whether a key is the newest version in time of its logical key, and no retraction.
pub open spec fn visible_at(raw: Seq<Seq<u8>>, as_of: Seq<u8>, q: int) -> bool {
    &&& in_time(raw[q], as_of)
    &&& raw[q].last() != RETRACT
    &&& forall|j: int|
        0 <= j < q && logical(#[trigger] raw[j]) == logical(raw[q]) ==> !in_time(raw[j], as_of)
}

/// What a key says behind a prefix of the given length, without transaction and operation.
pub open spec fn middle(key: Seq<u8>, cut: int) -> Seq<u8> {
    key.subrange(cut, key.len() - 9)
}

/// What is visible from a place on.
pub open spec fn visible_from(raw: Seq<Seq<u8>>, as_of: Seq<u8>, cut: int, p: int) -> Seq<
    Seq<u8>,
>
    decreases raw.len() - p,
{
    if p < 0 || p >= raw.len() {
        Seq::empty()
    } else if visible_at(raw, as_of, p) {
        seq![middle(raw[p], cut)] + visible_from(raw, as_of, cut, p + 1)
    } else {
        visible_from(raw, as_of, cut, p + 1)
    }
}

/// Two keys whose logical keys begin one another have the same one.
proof fn lemma_same_logical(raw: Seq<Seq<u8>>, prefix: Seq<u8>, i: int, j: int)
    requires
        temporal_keys(raw, prefix),
        0 <= i < raw.len(),
        0 <= j < raw.len(),
        byte_string::begins_with(raw[j], logical(raw[i])),
    ensures
        logical(raw[i]) == logical(raw[j]),
{
    let a = logical(raw[i]);
    let b = logical(raw[j]);
    if a.len() <= b.len() {
        assert(b.take(a.len() as int) =~= raw[j].take(a.len() as int));
        assert(byte_string::begins_with(b, a));
    } else {
        assert(a.take(b.len() as int) =~= raw[j].take(a.len() as int).take(b.len() as int));
        assert(raw[j].take(a.len() as int).take(b.len() as int) =~= b);
        assert(byte_string::begins_with(a, b));
    }
}

/// Versions of one logical key stand together.
proof fn lemma_contiguous(raw: Seq<Seq<u8>>, prefix: Seq<u8>, i: int, j: int, k: int)
    requires
        temporal_keys(raw, prefix),
        0 <= i <= j <= k < raw.len(),
        logical(raw[i]) == logical(raw[k]),
    ensures
        logical(raw[j]) == logical(raw[i]),
{
    if i < j && j < k {
        let m = logical(raw[i]);
        byte_string::lemma_before_asymmetric(raw[i], raw[j]);
        byte_string::lemma_before_asymmetric(raw[j], raw[k]);
        assert(byte_string::begins_with(raw[i], m));
        assert(byte_string::begins_with(raw[k], m));
        byte_string::lemma_interval(raw[i], raw[j], raw[k], m);
        lemma_same_logical(raw, prefix, i, j);
    }
}

/// Behind a version in time nothing of the same logical key is visible.
proof fn lemma_skip(
    raw: Seq<Seq<u8>>,
    prefix: Seq<u8>,
    as_of: Seq<u8>,
    cut: int,
    at: int,
    from: int,
    to: int,
)
    requires
        temporal_keys(raw, prefix),
        0 <= at < from <= to <= raw.len(),
        in_time(raw[at], as_of),
        forall|i: int| from <= i < to ==> logical(#[trigger] raw[i]) == logical(raw[at]),
    ensures
        visible_from(raw, as_of, cut, from) == visible_from(raw, as_of, cut, to),
    decreases to - from,
{
    if from < to {
        assert(logical(raw[from]) == logical(raw[at]));
        assert(!visible_at(raw, as_of, from));
        lemma_skip(raw, prefix, as_of, cut, at, from + 1, to);
    }
}

/// Where a cursor lands behind the versions of a logical key.
proof fn lemma_past_group(
    raw: Seq<Seq<u8>>,
    prefix: Seq<u8>,
    at: int,
    target: Seq<u8>,
    p: int,
)
    requires
        temporal_keys(raw, prefix),
        0 <= at < raw.len(),
        successor(logical(raw[at])) == Some(target),
        index::splits(raw, target, p),
    ensures
        at < p,
        forall|i: int| at <= i < p ==> logical(#[trigger] raw[i]) == logical(raw[at]),
        forall|i: int| p <= i < raw.len() ==> logical(#[trigger] raw[i]) != logical(raw[at]),
        p < raw.len() ==> forall|j: int|
            0 <= j < p ==> logical(#[trigger] raw[j]) != logical(raw[p]),
{
    let m = logical(raw[at]);
    assert(byte_string::begins_with(raw[at], m));
    lemma_before_successor(raw[at], m);
    assert forall|i: int| at <= i < p implies logical(#[trigger] raw[i]) == m by {
        if i > at {
            lemma_before_successor(raw[i], m);
            if byte_string::before(raw[i], m) {
                byte_string::lemma_before_transitive(raw[at], raw[i], m);
                byte_string::lemma_prefix_not_after(raw[at], m);
            }
            lemma_same_logical(raw, prefix, at, i);
        }
    }
    assert forall|i: int| p <= i < raw.len() implies logical(#[trigger] raw[i]) != m by {
        lemma_before_successor(raw[i], m);
    }
    if p < raw.len() {
        assert forall|j: int| 0 <= j < p implies logical(#[trigger] raw[j]) != logical(raw[p]) by {
            if j >= at {
                assert(logical(raw[j]) == m);
                assert(logical(raw[p]) != m);
            } else if logical(raw[j]) == logical(raw[p]) {
                lemma_contiguous(raw, prefix, j, at, p);
                assert(logical(raw[p]) != m);
            }
        }
    }
}

/// Without a successor every later key has the same logical key.
proof fn lemma_last_group(raw: Seq<Seq<u8>>, prefix: Seq<u8>, at: int)
    requires
        temporal_keys(raw, prefix),
        0 <= at < raw.len(),
        successor(logical(raw[at])) is None,
    ensures
        forall|i: int| at <= i < raw.len() ==> logical(#[trigger] raw[i]) == logical(raw[at]),
{
    let m = logical(raw[at]);
    assert(byte_string::begins_with(raw[at], m));
    assert forall|i: int| at <= i < raw.len() implies logical(#[trigger] raw[i]) == m by {
        if i > at {
            lemma_before_successor(raw[i], m);
            if byte_string::before(raw[i], m) {
                byte_string::lemma_before_transitive(raw[at], raw[i], m);
                byte_string::lemma_prefix_not_after(raw[at], m);
            }
            lemma_same_logical(raw, prefix, at, i);
        }
    }
}

/// What is visible from a place on ends what is visible from an earlier place on.
proof fn lemma_suffix(raw: Seq<Seq<u8>>, as_of: Seq<u8>, cut: int, p: int, q: int)
    requires
        0 <= p <= q <= raw.len(),
    ensures
        visible_from(raw, as_of, cut, q).len() <= visible_from(raw, as_of, cut, p).len(),
        visible_from(raw, as_of, cut, p).skip(
            visible_from(raw, as_of, cut, p).len() - visible_from(raw, as_of, cut, q).len(),
        ) == visible_from(raw, as_of, cut, q),
        p < q && visible_at(raw, as_of, p) ==> visible_from(raw, as_of, cut, q).len()
            < visible_from(raw, as_of, cut, p).len(),
    decreases q - p,
{
    let a = visible_from(raw, as_of, cut, p);
    let b = visible_from(raw, as_of, cut, q);
    if p < q {
        lemma_suffix(raw, as_of, cut, p + 1, q);
        let c = visible_from(raw, as_of, cut, p + 1);
        if visible_at(raw, as_of, p) {
            assert(a.skip(a.len() - b.len()) =~= c.skip(c.len() - b.len()));
        }
    } else {
        assert(a.skip(0) =~= a);
    }
}

/// Every entry that is visible from a place on comes from a key at or behind that place.
pub proof fn lemma_visible_source(
    raw: Seq<Seq<u8>>,
    as_of: Seq<u8>,
    cut: int,
    p: int,
    n: int,
) -> (q: int)
    requires
        0 <= p <= raw.len(),
        0 <= n < visible_from(raw, as_of, cut, p).len(),
    ensures
        p <= q < raw.len(),
        visible_at(raw, as_of, q),
        visible_from(raw, as_of, cut, p)[n] == middle(raw[q], cut),
        visible_from(raw, as_of, cut, q).len() == visible_from(raw, as_of, cut, p).len() - n,
    decreases raw.len() - p,
{
    if visible_at(raw, as_of, p) {
        if n == 0 {
            p
        } else {
            lemma_visible_source(raw, as_of, cut, p + 1, n - 1)
        }
    } else {
        lemma_visible_source(raw, as_of, cut, p + 1, n)
    }
}

/// What is visible stands in order, each thing once.
pub proof fn lemma_visible_sorted(raw: Seq<Seq<u8>>, prefix: Seq<u8>, as_of: Seq<u8>)
    requires
        temporal_keys(raw, prefix),
    ensures
        forall|i: int, j: int|
            0 <= i < j < visible_from(raw, as_of, prefix.len() as int, 0).len()
                ==> byte_string::before(
                #[trigger] visible_from(raw, as_of, prefix.len() as int, 0)[i],
                #[trigger] visible_from(raw, as_of, prefix.len() as int, 0)[j],
            ),
        index::sorted(visible_from(raw, as_of, prefix.len() as int, 0)),
{
    let cut = prefix.len() as int;
    let list = visible_from(raw, as_of, cut, 0);
    assert forall|i: int, j: int| 0 <= i < j < list.len() implies byte_string::before(
        #[trigger] list[i],
        #[trigger] list[j],
    ) by {
        let a = lemma_visible_source(raw, as_of, cut, 0, i);
        let b = lemma_visible_source(raw, as_of, cut, 0, j);
        lemma_visible_order(raw, prefix, as_of, a, b);
    }
    assert forall|i: int, j: int| 0 <= i < j < list.len() implies !byte_string::before(
        #[trigger] list[j],
        #[trigger] list[i],
    ) by {
        byte_string::lemma_before_asymmetric(list[i], list[j]);
    }
}

/// Two visible keys are ordered by what they say.
proof fn lemma_visible_order(
    raw: Seq<Seq<u8>>,
    prefix: Seq<u8>,
    as_of: Seq<u8>,
    a: int,
    b: int,
)
    requires
        temporal_keys(raw, prefix),
        0 <= a < raw.len(),
        0 <= b < raw.len(),
        visible_at(raw, as_of, a),
        visible_at(raw, as_of, b),
        visible_from(raw, as_of, prefix.len() as int, b).len() < visible_from(
            raw,
            as_of,
            prefix.len() as int,
            a,
        ).len(),
    ensures
        a < b,
        byte_string::before(
            middle(raw[a], prefix.len() as int),
            middle(raw[b], prefix.len() as int),
        ),
{
    let cut = prefix.len() as int;
    if b <= a {
        lemma_suffix(raw, as_of, cut, b, a);
    }
    let la = logical(raw[a]);
    let lb = logical(raw[b]);
    assert(la != lb);
    lemma_before_beginnings(raw[a], raw[b], la, lb);
    lemma_split_prefix(raw[a], prefix);
    lemma_split_prefix(raw[b], prefix);
    lemma_before_common(prefix, middle(raw[a], cut), middle(raw[b], cut));
}

/// A logical key is its prefix and what it says behind it.
proof fn lemma_split_prefix(key: Seq<u8>, prefix: Seq<u8>)
    requires
        byte_string::begins_with(key, prefix),
        key.len() >= prefix.len() + 9,
    ensures
        logical(key) == prefix + middle(key, prefix.len() as int),
{
    assert(logical(key) =~= key.take(prefix.len() as int) + middle(key, prefix.len() as int));
}

/// A cursor over an index as of a transaction: for each logical key its newest version that is
/// not later than the transaction, unless that is a retraction.
pub struct TemporalFilterIterator<I: Index> {
    pub inner: I,
    pub prefix: Vec<u8>,
    pub as_of_encoded: Vec<u8>,
    pub current_key: Option<Vec<u8>>,
}

impl<I: Index> TemporalFilterIterator<I> {
    /// The keys of the index.
    pub open spec fn raw(&self) -> Seq<Seq<u8>> {
        self.inner.entries()
    }

    /// What is visible from a place on.
    pub open spec fn visible(&self, p: int) -> Seq<Seq<u8>> {
        visible_from(self.raw(), self.as_of_encoded@, self.prefix@.len() as int, p)
    }

    /// The keys are those of an index, and the cursor on them is sound.
    pub open spec fn sound(&self) -> bool {
        self.inner.inv() && temporal_keys(self.raw(), self.prefix@)
    }

    /// No version in time of the logical key at the cursor stands before the cursor.
    pub open spec fn fresh(&self) -> bool {
        let p = self.inner.position();
        p < self.raw().len() ==> forall|j: int|
            0 <= j < p && logical(#[trigger] self.raw()[j]) == logical(self.raw()[p]) ==> !in_time(
                self.raw()[j],
                self.as_of_encoded@,
            )
    }

    /// A cursor as of a transaction over the keys of an index that begin with a prefix.
    pub fn new(inner: I, prefix: &[u8], as_of: i64) -> (r: Result<Self, Error>)
        requires
            inner.inv(),
            inner.position() == 0,
            temporal_keys(inner.entries(), prefix@),
        ensures
            inner.reliable() ==> r is Ok,
            r matches Ok(it) ==> {
                &&& it.inv()
                &&& inner.reliable() ==> it.reliable()
                &&& it.position() == 0
                &&& it.entries() == visible_from(
                    inner.entries(),
                    codec::i64_bytes(as_of),
                    prefix@.len() as int,
                    0,
                )
            },
    {
        let mut it = TemporalFilterIterator {
            inner,
            prefix: copy_bytes(prefix),
            as_of_encoded: encode_i64_bytes(as_of),
            current_key: None,
        };
        match it.advance_to_next_valid() {
            Ok(_) => Ok(it),
            Err(e) => Err(e),
        }
    }

    /// Moves behind the versions of the logical key at the cursor; tells whether there can be
    /// any key behind them.
    fn seek_past_logical_key(&mut self, key: &[u8]) -> (r: Result<bool, Error>)
        requires
            old(self).sound(),
            old(self).inner.position() < old(self).raw().len(),
            key@ == old(self).raw()[old(self).inner.position()],
        ensures
            old(self).inner.reliable() ==> r is Ok && final(self).inner.reliable(),
            r matches Ok(more) ==> {
                &&& final(self).sound()
                &&& final(self).raw() == old(self).raw()
                &&& final(self).prefix == old(self).prefix
                &&& final(self).as_of_encoded == old(self).as_of_encoded
                &&& final(self).current_key == old(self).current_key
                &&& if more {
                    &&& final(self).inner.position() > old(self).inner.position()
                    &&& final(self).fresh()
                    &&& forall|i: int|
                        old(self).inner.position() <= i < final(self).inner.position() ==> logical(
                            #[trigger] old(self).raw()[i],
                        ) == logical(key@)
                    &&& forall|i: int|
                        final(self).inner.position() <= i < old(self).raw().len() ==> logical(
                            #[trigger] old(self).raw()[i],
                        ) != logical(key@)
                } else {
                    forall|i: int|
                        old(self).inner.position() <= i < old(self).raw().len() ==> logical(
                            #[trigger] old(self).raw()[i],
                        ) == logical(key@)
                }
            },
    {
        let ghost raw = self.raw();
        let ghost at = self.inner.position();
        proof {
            self.inner.lemma_inv();
            assert(byte_string::begins_with(raw[at], self.prefix@));
        }
        match next_prefix(logical_key(key)) {
            Some(target) => {
                match self.inner.seek(&target) {
                    Ok(_) => {},
                    Err(e) => {
                        return Err(e);
                    },
                }
                proof {
                    let p = choose|p: int| #[trigger]
                        index::splits(raw, target@, p) && (if at <= p {
                            self.inner.position() == p
                        } else {
                            p <= self.inner.position() <= at
                        });
                    lemma_past_group(raw, self.prefix@, at, target@, p);
                }
                Ok(true)
            },
            None => {
                proof {
                    lemma_last_group(raw, self.prefix@, at);
                }
                Ok(false)
            },
        }
    }

    /// Moves on to the next visible key, if there is one.
    fn advance_to_next_valid(&mut self) -> (r: Result<(), Error>)
        requires
            old(self).sound(),
            old(self).fresh(),
        ensures
            old(self).inner.reliable() ==> r is Ok && final(self).inner.reliable(),
            r is Ok ==> {
                &&& final(self).inv()
                &&& final(self).raw() == old(self).raw()
                &&& final(self).prefix == old(self).prefix
                &&& final(self).as_of_encoded == old(self).as_of_encoded
                &&& final(self).rest() == old(self).visible(old(self).inner.position())
            },
    {
        let ghost raw = self.raw();
        let ghost cut = self.prefix@.len() as int;
        let ghost as_of = self.as_of_encoded@;
        let ghost wanted = self.visible(self.inner.position());
        let ghost reliable = self.inner.reliable();
        loop
            invariant
                self.sound(),
                self.fresh(),
                self.raw() == raw,
                raw == old(self).raw(),
                self.prefix == old(self).prefix,
                self.as_of_encoded == old(self).as_of_encoded,
                cut == self.prefix@.len(),
                as_of == self.as_of_encoded@,
                wanted == self.visible(self.inner.position()),
                wanted == old(self).visible(old(self).inner.position()),
                reliable == old(self).inner.reliable(),
                reliable ==> self.inner.reliable(),
            decreases raw.len() - self.inner.position(),
        {
            proof {
                self.inner.lemma_inv();
            }
            let entry = match self.inner.get_value() {
                Ok(entry) => entry,
                Err(e) => {
                    return Err(e);
                },
            };
            match entry {
                None => {
                    self.current_key = None;
                    return Ok(());
                },
                Some(key) => {
                    let ghost at = self.inner.position();
                    assert(byte_string::begins_with(raw[at], self.prefix@));
                    match resolve_temporal_key(&key, &self.as_of_encoded) {
                        Some(op) => {
                            if op == RETRACT {
                                assert(!visible_at(raw, as_of, at));
                                match self.seek_past_logical_key(&key) {
                                    Ok(more) => {
                                        if !more {
                                            proof {
                                                lemma_skip(
                                                    raw,
                                                    self.prefix@,
                                                    as_of,
                                                    cut,
                                                    at,
                                                    at + 1,
                                                    raw.len() as int,
                                                );
                                            }
                                            self.current_key = None;
                                            return Ok(());
                                        }
                                    },
                                    Err(e) => {
                                        return Err(e);
                                    },
                                }
                                proof {
                                    self.inner.lemma_inv();
                                    lemma_skip(
                                        raw,
                                        self.prefix@,
                                        as_of,
                                        cut,
                                        at,
                                        at + 1,
                                        self.inner.position(),
                                    );
                                }
                            } else {
                                assert(visible_at(raw, as_of, at));
                                self.current_key = Some(key);
                                return Ok(());
                            }
                        },
                        None => {
                            assert(!visible_at(raw, as_of, at));
                            match self.inner.next() {
                                Ok(_) => {},
                                Err(e) => {
                                    return Err(e);
                                },
                            }
                            proof {
                                lemma_fresh_step(raw, self.prefix@, as_of, at);
                            }
                        },
                    }
                },
            }
        }
    }

    /// What is left from the current key on.
    pub open spec fn rest(&self) -> Seq<Seq<u8>> {
        if self.current_key is Some {
            self.visible(self.inner.position())
        } else {
            Seq::empty()
        }
    }
}

/// Stepping over a version that is not in time.
proof fn lemma_fresh_step(raw: Seq<Seq<u8>>, prefix: Seq<u8>, as_of: Seq<u8>, at: int)
    requires
        temporal_keys(raw, prefix),
        0 <= at < raw.len(),
        !in_time(raw[at], as_of),
        forall|j: int|
            0 <= j < at && logical(#[trigger] raw[j]) == logical(raw[at]) ==> !in_time(
                raw[j],
                as_of,
            ),
    ensures
        at + 1 < raw.len() ==> forall|j: int|
            0 <= j < at + 1 && logical(#[trigger] raw[j]) == logical(raw[at + 1]) ==> !in_time(
                raw[j],
                as_of,
            ),
{
    if at + 1 < raw.len() {
        assert forall|j: int|
            0 <= j < at + 1 && logical(#[trigger] raw[j]) == logical(raw[at + 1]) implies !in_time(
            raw[j],
            as_of,
        ) by {
            if j < at {
                lemma_contiguous(raw, prefix, j, at, at + 1);
            }
        }
    }
}

/// The beginning of a byte string comes before it or is it.
proof fn lemma_beginning_first(k: Seq<u8>, l: Seq<u8>)
    requires
        byte_string::begins_with(k, l),
    ensures
        l == k || byte_string::before(l, k),
    decreases l.len(),
{
    if l.len() == 0 {
        if k.len() == 0 {
            assert(l =~= k);
        }
    } else {
        byte_string::lemma_begins_with_step(k, l);
        lemma_beginning_first(k.drop_first(), l.drop_first());
        if l.drop_first() == k.drop_first() {
            assert(l =~= seq![l[0]] + l.drop_first());
            assert(k =~= seq![k[0]] + k.drop_first());
        }
    }
}

/// Where a target stands between the beginning of a key and the key, it begins the same way.
proof fn lemma_between(k: Seq<u8>, l: Seq<u8>, t: Seq<u8>)
    requires
        byte_string::begins_with(k, l),
        byte_string::before(l, t),
        !byte_string::before(k, t),
    ensures
        byte_string::begins_with(t, l),
{
    byte_string::lemma_before_asymmetric(l, t);
    assert(l.take(l.len() as int) =~= l);
    byte_string::lemma_interval(l, t, k, l);
}

/// The beginning of a key before a target comes before it.
proof fn lemma_beginning_before(k: Seq<u8>, l: Seq<u8>, t: Seq<u8>)
    requires
        byte_string::begins_with(k, l),
        byte_string::before(k, t),
    ensures
        byte_string::before(l, t),
{
    lemma_beginning_first(k, l);
    if l != k {
        byte_string::lemma_before_transitive(l, k, t);
    }
}

/// Of two beginnings of one byte string, one begins the other.
proof fn lemma_two_beginnings(t: Seq<u8>, a: Seq<u8>, b: Seq<u8>)
    requires
        byte_string::begins_with(t, a),
        byte_string::begins_with(t, b),
    ensures
        byte_string::begins_with(a, b) || byte_string::begins_with(b, a),
{
    if a.len() <= b.len() {
        assert(b.take(a.len() as int) =~= t.take(a.len() as int));
    } else {
        assert(a.take(b.len() as int) =~= t.take(b.len() as int));
    }
}

/// A place that splits the keys by their logical keys.
spec fn parts(raw: Seq<Seq<u8>>, target: Seq<u8>, b: int) -> bool {
    &&& 0 <= b <= raw.len()
    &&& forall|i: int| 0 <= i < b ==> byte_string::before(logical(#[trigger] raw[i]), target)
    &&& forall|i: int|
        b <= i < raw.len() ==> !byte_string::before(logical(#[trigger] raw[i]), target)
}

/// Behind the group of a key whose logical key comes before the target, though the key does
/// not, no logical key does.
proof fn lemma_straddle(raw: Seq<Seq<u8>>, prefix: Seq<u8>, at: int, target: Seq<u8>, b: int)
    requires
        temporal_keys(raw, prefix),
        0 <= at < raw.len(),
        byte_string::before(logical(raw[at]), target),
        !byte_string::before(raw[at], target),
        at < b <= raw.len(),
        forall|i: int| at <= i < b ==> logical(#[trigger] raw[i]) == logical(raw[at]),
        forall|i: int| b <= i < raw.len() ==> logical(#[trigger] raw[i]) != logical(raw[at]),
    ensures
        parts(raw, target, b),
{
    let m = logical(raw[at]);
    assert(byte_string::begins_with(raw[at], m));
    lemma_between(raw[at], m, target);
    assert forall|i: int| 0 <= i < b implies byte_string::before(
        logical(#[trigger] raw[i]),
        target,
    ) by {
        if i < at {
            assert(byte_string::begins_with(raw[i], logical(raw[i])));
            if byte_string::before(raw[i], target) {
                lemma_beginning_before(raw[i], logical(raw[i]), target);
            } else {
                byte_string::lemma_before_asymmetric(raw[i], raw[at]);
                byte_string::lemma_interval(target, raw[i], raw[at], m);
                lemma_same_logical(raw, prefix, at, i);
            }
        }
    }
    assert forall|i: int| b <= i < raw.len() implies !byte_string::before(
        logical(#[trigger] raw[i]),
        target,
    ) by {
        let l = logical(raw[i]);
        assert(byte_string::begins_with(raw[i], l));
        if byte_string::before(l, target) {
            if byte_string::before(raw[i], target) {
                byte_string::lemma_before_transitive(raw[at], raw[i], target);
            }
            lemma_between(raw[i], l, target);
            lemma_two_beginnings(target, l, m);
        }
    }
}

/// A place that splits the keys splits the logical keys, unless the logical key there comes
/// before the target.
proof fn lemma_landing(raw: Seq<Seq<u8>>, prefix: Seq<u8>, target: Seq<u8>, p: int)
    requires
        temporal_keys(raw, prefix),
        index::splits(raw, target, p),
        p < raw.len() ==> !byte_string::before(logical(raw[p]), target),
    ensures
        parts(raw, target, p),
        p < raw.len() ==> forall|j: int|
            0 <= j < p ==> logical(#[trigger] raw[j]) != logical(raw[p]),
{
    assert forall|i: int| 0 <= i < p implies byte_string::before(
        logical(#[trigger] raw[i]),
        target,
    ) by {
        assert(byte_string::begins_with(raw[i], logical(raw[i])));
        lemma_beginning_before(raw[i], logical(raw[i]), target);
    }
    assert forall|i: int| p <= i < raw.len() implies !byte_string::before(
        logical(#[trigger] raw[i]),
        target,
    ) by {
        let l = logical(raw[i]);
        let m = logical(raw[p]);
        if i > p && l != m && byte_string::before(l, target) {
            assert(byte_string::begins_with(raw[i], l));
            assert(byte_string::begins_with(raw[p], m));
            lemma_before_beginnings(raw[p], raw[i], m, l);
            byte_string::lemma_before_transitive(m, l, target);
        }
    }
}

/// A place that splits the logical keys splits what is visible.
proof fn lemma_split_entries(
    raw: Seq<Seq<u8>>,
    prefix: Seq<u8>,
    as_of: Seq<u8>,
    extension: Seq<u8>,
    b: int,
)
    requires
        temporal_keys(raw, prefix),
        parts(raw, prefix + extension, b),
    ensures
        index::splits(
            visible_from(raw, as_of, prefix.len() as int, 0),
            extension,
            visible_from(raw, as_of, prefix.len() as int, 0).len() - visible_from(
                raw,
                as_of,
                prefix.len() as int,
                b,
            ).len(),
        ),
{
    let cut = prefix.len() as int;
    let list = visible_from(raw, as_of, cut, 0);
    let tail = visible_from(raw, as_of, cut, b);
    let p = list.len() - tail.len();
    lemma_suffix(raw, as_of, cut, 0, b);
    assert forall|n: int| 0 <= n < p implies byte_string::before(#[trigger] list[n], extension) by {
        let q = lemma_visible_source(raw, as_of, cut, 0, n);
        if q >= b {
            lemma_suffix(raw, as_of, cut, b, q);
        }
        lemma_split_prefix(raw[q], prefix);
        lemma_before_common(prefix, middle(raw[q], cut), extension);
    }
    assert forall|n: int| p <= n < list.len() implies !byte_string::before(
        #[trigger] list[n],
        extension,
    ) by {
        let q = lemma_visible_source(raw, as_of, cut, 0, n);
        if q < b {
            lemma_suffix(raw, as_of, cut, q, b);
        }
        lemma_split_prefix(raw[q], prefix);
        lemma_before_common(prefix, middle(raw[q], cut), extension);
    }
}

/// Some place splits an ordered list.
proof fn lemma_split_exists(s: Seq<Seq<u8>>, key: Seq<u8>) -> (p: int)
    requires
        index::sorted(s),
    ensures
        index::splits(s, key, p),
    decreases s.len(),
{
    if s.len() == 0 {
        0
    } else {
        let earlier = s.drop_last();
        assert(index::sorted(earlier)) by {
            assert forall|i: int, j: int| 0 <= i < j < earlier.len() implies !byte_string::before(
                #[trigger] earlier[j],
                #[trigger] earlier[i],
            ) by {
                assert(!byte_string::before(s[j], s[i]));
            }
        }
        let p = lemma_split_exists(earlier, key);
        if byte_string::before(s.last(), key) {
            assert forall|i: int| 0 <= i < s.len() implies byte_string::before(
                #[trigger] s[i],
                key,
            ) by {
                if i < s.len() - 1 {
                    assert(!byte_string::before(s[s.len() - 1], s[i]));
                    byte_string::lemma_before_total(s[i], s.last());
                    if s[i] != s.last() {
                        byte_string::lemma_before_transitive(s[i], s.last(), key);
                    }
                }
            }
            s.len() as int
        } else {
            assert forall|i: int| 0 <= i < p implies byte_string::before(#[trigger] s[i], key) by {
                assert(earlier[i] == s[i]);
            }
            assert forall|i: int| p <= i < s.len() implies !byte_string::before(
                #[trigger] s[i],
                key,
            ) by {
                if i < s.len() - 1 {
                    assert(earlier[i] == s[i]);
                }
            }
            p
        }
    }
}

impl<I: Index> Index for TemporalFilterIterator<I> {
    open spec fn entries(&self) -> Seq<Seq<u8>> {
        self.visible(0)
    }

    open spec fn position(&self) -> int {
        self.visible(0).len() - self.rest().len()
    }

    open spec fn inv(&self) -> bool {
        self.sound() && match self.current_key {
            Some(key) => self.inner.position() < self.raw().len() && key@
                == self.raw()[self.inner.position()] && visible_at(
                self.raw(),
                self.as_of_encoded@,
                self.inner.position(),
            ),
            None => true,
        }
    }

    open spec fn reliable(&self) -> bool {
        self.inner.reliable()
    }

    fn count(&self) -> (r: Result<u64, Error>)
        ensures
            error::told(r) == Ok::<u64, ErrorView>(100),
    {
        Ok(100)
    }

    fn seek(&mut self, extension: &[u8]) -> (r: Result<(), Error>) {
        let ghost raw = self.raw();
        let ghost at = self.inner.position();
        let ghost cut = self.prefix@.len() as int;
        let ghost as_of = self.as_of_encoded@;
        let ghost list = self.visible(0);
        let ghost mut split: int = 0;
        proof {
            self.inner.lemma_inv();
            lemma_visible_sorted(raw, self.prefix@, as_of);
            split = lemma_split_exists(list, extension@);
            lemma_suffix(raw, as_of, cut, 0, at);
            if self.current_key is Some {
                assert(list.skip(self.position())[0] == middle(raw[at], cut));
                assert(list[self.position()] == middle(raw[at], cut));
                lemma_split_prefix(raw[at], self.prefix@);
                lemma_before_common(self.prefix@, middle(raw[at], cut), extension@);
            }
        }
        let target = joined(&self.prefix, extension);
        let key = match &self.current_key {
            Some(key) => copy_bytes(key),
            None => {
                assert(index::splits(self.entries(), extension@, split));
                return Ok(());
            },
        };
        assert(byte_string::begins_with(raw[at], self.prefix@));
        if !comes_before(logical_key(&key), &target) {
            assert(index::splits(self.entries(), extension@, split));
            assert(split <= self.position());
            return Ok(());
        }
        if comes_before(&key, &target) {
            match self.inner.seek(&target) {
                Ok(_) => {},
                Err(e) => {
                    return Err(e);
                },
            }
            proof {
                let p = choose|p: int| #[trigger]
                    index::splits(raw, target@, p) && (if at <= p {
                        self.inner.position() == p
                    } else {
                        p <= self.inner.position() <= at
                    });
                assert(at < p);
                self.inner.lemma_inv();
            }
        }
        let ghost p = self.inner.position();
        let landed = match self.inner.get_value() {
            Ok(landed) => landed,
            Err(e) => {
                return Err(e);
            },
        };
        match landed {
            None => {
                self.current_key = None;
                proof {
                    lemma_landing(raw, self.prefix@, target@, p);
                    lemma_split_entries(raw, self.prefix@, as_of, extension@, p);
                    lemma_suffix(raw, as_of, cut, at, p);
                    assert(visible_from(raw, as_of, cut, p).len() == 0);
                    assert(self.entries() == list);
                    assert(index::splits(self.entries(), extension@, list.len() as int));
                }
                return Ok(());
            },
            Some(landed_key) => {
                assert(byte_string::begins_with(raw[p], self.prefix@));
                if comes_before(logical_key(&landed_key), &target) {
                    match self.seek_past_logical_key(&landed_key) {
                        Ok(more) => {
                            if !more {
                                self.current_key = None;
                                proof {
                                    let end = raw.len() as int;
                                    lemma_straddle(raw, self.prefix@, p, target@, end);
                                    lemma_split_entries(
                                        raw,
                                        self.prefix@,
                                        as_of,
                                        extension@,
                                        end,
                                    );
                                    lemma_suffix(raw, as_of, cut, at, end);
                                    assert(visible_from(raw, as_of, cut, end).len() == 0);
                                    assert(self.entries() == list);
                                    assert(index::splits(
                                        self.entries(),
                                        extension@,
                                        list.len() as int,
                                    ));
                                }
                                return Ok(());
                            }
                            proof {
                                self.inner.lemma_inv();
                                lemma_straddle(
                                    raw,
                                    self.prefix@,
                                    p,
                                    target@,
                                    self.inner.position(),
                                );
                            }
                        },
                        Err(e) => {
                            return Err(e);
                        },
                    }
                } else {
                    proof {
                        lemma_landing(raw, self.prefix@, target@, p);
                    }
                }
            },
        }
        proof {
            let b = self.inner.position();
            lemma_split_entries(raw, self.prefix@, as_of, extension@, b);
            lemma_suffix(raw, as_of, cut, at, b);
        }
        let ghost b = self.inner.position();
        let done = self.advance_to_next_valid();
        proof {
            if done is Ok {
                assert(self.entries() == list);
                assert(self.position() == list.len() - visible_from(raw, as_of, cut, b).len());
                assert(index::splits(self.entries(), extension@, self.position()));
            }
        }
        done
    }

    fn next(&mut self) -> (r: Result<Option<Vec<u8>>, Error>)
        ensures
            match r {
                Ok(Some(value)) => final(self).position() < final(self).entries().len() && value@
                    == final(self).entries()[final(self).position()],
                Ok(None) => final(self).position() == final(self).entries().len(),
                Err(_) => true,
            },
    {
        let ghost raw = self.raw();
        let ghost at = self.inner.position();
        let ghost cut = self.prefix@.len() as int;
        let ghost as_of = self.as_of_encoded@;
        proof {
            self.inner.lemma_inv();
            lemma_suffix(raw, as_of, cut, 0, at);
        }
        let key = match &self.current_key {
            Some(key) => copy_bytes(key),
            None => {
                return Ok(None);
            },
        };
        match self.seek_past_logical_key(&key) {
            Ok(more) => {
                if !more {
                    proof {
                        lemma_skip(raw, self.prefix@, as_of, cut, at, at + 1, raw.len() as int);
                    }
                    self.current_key = None;
                    return Ok(None);
                }
            },
            Err(e) => {
                return Err(e);
            },
        }
        proof {
            self.inner.lemma_inv();
            lemma_skip(raw, self.prefix@, as_of, cut, at, at + 1, self.inner.position());
        }
        match self.advance_to_next_valid() {
            Ok(_) => {},
            Err(e) => {
                return Err(e);
            },
        }
        self.get_value()
    }

    fn get_value(&self) -> (r: Result<Option<Vec<u8>>, Error>)
        ensures
            r is Ok,
    {
        match &self.current_key {
            Some(key) => {
                proof {
                    let raw = self.raw();
                    let at = self.inner.position();
                    let cut = self.prefix@.len() as int;
                    self.inner.lemma_inv();
                    assert(byte_string::begins_with(raw[at], self.prefix@));
                    lemma_suffix(raw, self.as_of_encoded@, cut, 0, at);
                    assert(self.visible(0).skip(self.position())[0] == middle(raw[at], cut));
                }
                Ok(Some(slice_of(key, self.prefix.len(), key.len() - TX_EID_OP_SUFFIX)))
            },
            None => Ok(None),
        }
    }

    fn has_next(&self) -> (r: bool) {
        proof {
            if self.current_key is Some {
                self.inner.lemma_inv();
                assert(self.visible(self.inner.position()).len() > 0);
            }
        }
        self.current_key.is_some()
    }

    proof fn lemma_inv(&self) {
        self.inner.lemma_inv();
        lemma_visible_sorted(self.raw(), self.prefix@, self.as_of_encoded@);
        if self.current_key is Some {
            lemma_suffix(
                self.raw(),
                self.as_of_encoded@,
                self.prefix@.len() as int,
                0,
                self.inner.position(),
            );
        }
    }
}

} // verus!
