//! Extenders over the stored facts of one attribute.
//!
//! An extender tells which scan it needs behind the values that are bound; the scan is opened
//! outside, and the extender works on the cursor.

use vstd::prelude::*;

use crate::algo::generic_join::Extension;
use crate::byte_string::{self, append_bytes, copy_bytes, Row};
use crate::codec::{self, encode_i64, index_type_to_prefix};
use crate::error::Error;
use crate::iterator::index::{read_all, Index};
use crate::query::patterns::triple::{look_up, Scan, ScanView};
use crate::value::IndexType;

verus! {

/// An extender over the facts of an attribute: one index for each of the levels that it
/// constrains, and the beginning of its keys.
#[derive(Debug)]
pub struct GenericPrefixExtender {
    pub index_types: Vec<IndexType>,
    pub constant_prefix: Vec<u8>,
    pub participating_levels: Vec<usize>,
}

/// Whether levels stand in order.
pub open spec fn ascending_levels(levels: Seq<usize>) -> bool {
    forall|i: int, j: int|
        0 <= i < j < levels.len() ==> #[trigger] levels[i] <= #[trigger] levels[j]
}

/// How many of the levels come before one.
pub open spec fn levels_before(levels: Seq<usize>, n: int) -> nat
    decreases levels.len(),
{
    if levels.len() == 0 {
        0
    } else {
        levels_before(levels.drop_last(), n) + (if levels.last() < n {
            1nat
        } else {
            0nat
        })
    }
}

/// The bound values at the levels, one after another.
pub open spec fn bound_values(levels: Seq<usize>, prefix: Row) -> Seq<u8>
    decreases levels.len(),
{
    if levels.len() == 0 {
        Seq::empty()
    } else if levels.last() < prefix.len() {
        bound_values(levels.drop_last(), prefix) + prefix[levels.last() as int]
    } else {
        bound_values(levels.drop_last(), prefix)
    }
}

/// Whether the keys of an index end with a transaction and an operation.
pub open spec fn temporal(index_type: IndexType) -> bool {
    !(index_type == IndexType::AE || index_type == IndexType::AV)
}

/// Whether the keys of an index end with a transaction and an operation.
pub fn is_temporal(index_type: IndexType) -> (r: bool)
    ensures
        r == temporal(index_type),
{
    match index_type {
        IndexType::AE => false,
        IndexType::AV => false,
        _ => true,
    }
}

/// Levels before a bound are no more than all levels.
proof fn lemma_levels_before(levels: Seq<usize>, n: int)
    ensures
        levels_before(levels, n) <= levels.len(),
    decreases levels.len(),
{
    if levels.len() > 0 {
        lemma_levels_before(levels.drop_last(), n);
    }
}

/// No level at or behind the bound counts.
proof fn lemma_levels_beyond(levels: Seq<usize>, n: int, prefix: Row)
    requires
        0 <= n <= levels.len(),
        prefix.len() <= usize::MAX,
        forall|i: int| n <= i < levels.len() ==> (#[trigger] levels[i]) >= prefix.len(),
    ensures
        levels_before(levels, prefix.len() as int) == levels_before(
            levels.take(n),
            prefix.len() as int,
        ),
        bound_values(levels, prefix) == bound_values(levels.take(n), prefix),
    decreases levels.len(),
{
    if n < levels.len() {
        assert(levels.drop_last().take(n) =~= levels.take(n));
        lemma_levels_beyond(levels.drop_last(), n, prefix);
    } else {
        assert(levels.take(n) =~= levels);
    }
}

/// At one of the levels, fewer come before than there are.
pub proof fn lemma_depth(levels: Seq<usize>, prefix: Row)
    requires
        ascending_levels(levels),
        exists|i: int| 0 <= i < levels.len() && #[trigger] levels[i] == prefix.len(),
    ensures
        levels_before(levels, prefix.len() as int) < levels.len(),
{
    let at = choose|i: int| 0 <= i < levels.len() && #[trigger] levels[i] == prefix.len();
    assert forall|k: int| at <= k < levels.len() implies (#[trigger] levels[k])
        >= prefix.len() by {
        if k > at {
            assert(levels[at] <= levels[k]);
        }
    }
    lemma_levels_beyond(levels, at, prefix);
    lemma_levels_before(levels.take(at), prefix.len() as int);
}

impl GenericPrefixExtender {
    /// There is an index for each level, and the levels are in order.
    pub open spec fn inv(self) -> bool {
        &&& ascending_levels(self.participating_levels@)
        &&& self.participating_levels@.len() <= self.index_types@.len()
    }

    /// Whether the extender constrains a level.
    pub open spec fn joins(self, level: int) -> bool {
        exists|i: int|
            0 <= i < self.participating_levels@.len() && #[trigger] self.participating_levels@[i]
                == level
    }

    /// How many of the extender's variables are bound.
    pub open spec fn depth(self, prefix: Row) -> nat {
        levels_before(self.participating_levels@, prefix.len() as int)
    }

    /// The scan of the values that may follow.
    pub open spec fn scan_for(self, prefix: Row) -> ScanView {
        let index_type = self.index_types@[self.depth(prefix) as int];
        ScanView {
            index_type,
            prefix: seq![codec::index_prefix(index_type)] + self.constant_prefix@ + bound_values(
                self.participating_levels@,
                prefix,
            ),
        }
    }

    /// The extender of an attribute. What its keys begin with is the attribute and the
    /// constant part of the pattern.
    pub fn new(
        index_types: Vec<IndexType>,
        attribute_id: i64,
        constant_prefix: Vec<u8>,
        participating_levels: Vec<usize>,
    ) -> (r: Self)
        requires
            ascending_levels(participating_levels@),
            participating_levels@.len() <= index_types@.len(),
        ensures
            r.inv(),
            r.index_types == index_types,
            r.participating_levels == participating_levels,
            r.constant_prefix@ == codec::i64_bytes(attribute_id) + constant_prefix@,
    {
        let mut full_prefix: Vec<u8> = Vec::new();
        encode_i64(attribute_id, &mut full_prefix);
        append_bytes(&mut full_prefix, &constant_prefix);
        assert(full_prefix@ =~= codec::i64_bytes(attribute_id) + constant_prefix@);
        GenericPrefixExtender { index_types, constant_prefix: full_prefix, participating_levels }
    }

    /// How many of the extender's variables are bound.
    pub fn pattern_level(&self, join_prefix: &Vec<Vec<u8>>) -> (r: usize)
        ensures
            r == self.depth(join_prefix.deep_view()),
    {
        let ghost levels = self.participating_levels@;
        assert(join_prefix.deep_view().len() == join_prefix@.len());
        let mut count: usize = 0;
        let mut i: usize = 0;
        while i < self.participating_levels.len()
            invariant
                i <= levels.len(),
                levels == self.participating_levels@,
                join_prefix.deep_view().len() == join_prefix@.len(),
                count <= i,
                count == levels_before(levels.take(i as int), join_prefix@.len() as int),
            decreases levels.len() - i,
        {
            assert(levels.take(i + 1).drop_last() =~= levels.take(i as int));
            if self.participating_levels[i] < join_prefix.len() {
                count += 1;
            }
            i += 1;
        }
        assert(levels.take(i as int) =~= levels);
        count
    }

    /// The scan of the values that may follow, at a level that the extender constrains.
    pub fn build_slate_prefix(&self, join_prefix: &Vec<Vec<u8>>) -> (r: Scan)
        requires
            self.inv(),
            self.joins(join_prefix@.len() as int),
        ensures
            r@ == self.scan_for(join_prefix.deep_view()),
    {
        let ghost levels = self.participating_levels@;
        let ghost row = join_prefix.deep_view();
        assert(row.len() == join_prefix@.len());
        let level: usize = self.pattern_level(join_prefix);
        proof {
            let at = choose|i: int| 0 <= i < levels.len() && #[trigger] levels[i] == row.len();
            lemma_levels_beyond(levels, at, row);
            lemma_levels_before(levels.take(at), row.len() as int);
        }
        let index_type = self.index_types[level];
        let mut key: Vec<u8> = Vec::new();
        key.push(index_type_to_prefix(index_type));
        append_bytes(&mut key, &self.constant_prefix);
        let ghost start = key@;
        assert(start =~= seq![codec::index_prefix(index_type)] + self.constant_prefix@);
        let mut i: usize = 0;
        assert(key@ =~= start + bound_values(levels.take(0), row));
        while i < self.participating_levels.len() && self.participating_levels[i]
            < join_prefix.len()
            invariant
                i <= levels.len(),
                levels == self.participating_levels@,
                row == join_prefix.deep_view(),
                row.len() == join_prefix@.len(),
                key@ == start + bound_values(levels.take(i as int), row),
            decreases levels.len() - i,
        {
            let at: usize = self.participating_levels[i];
            proof {
                byte_string::lemma_deep_bytes(&join_prefix@[at as int]);
                assert(levels.take(i + 1).drop_last() =~= levels.take(i as int));
            }
            append_bytes(&mut key, &join_prefix[at]);
            assert(key@ =~= start + bound_values(levels.take(i + 1), row));
            i += 1;
        }
        proof {
            assert forall|k: int| i <= k < levels.len() implies (#[trigger] levels[k])
                >= row.len() by {
                if k > i {
                    assert(levels[i as int] <= levels[k]);
                }
            }
            assert(join_prefix.len() <= usize::MAX);
            lemma_levels_beyond(levels, i as int, row);
        }
        Scan { index_type, prefix: key }
    }

    /// Which component of a key holds the value that may follow: behind the attribute and a
    /// constant where one variable is all the pattern has in an index of three components, else
    /// behind the attribute and the variables that are bound.
    pub fn extractor_position(&self, join_prefix: &Vec<Vec<u8>>) -> (r: usize)
        requires
            self.inv(),
            self.joins(join_prefix@.len() as int),
        ensures
            ({
                let depth = self.depth(join_prefix.deep_view());
                let index_type = self.index_types@[depth as int];
                r == (if self.participating_levels@.len() == 1 && (index_type == IndexType::AVE
                    || index_type == IndexType::AEV || index_type == IndexType::VAE) {
                    2
                } else {
                    depth + 1
                })
            }),
    {
        let ghost levels = self.participating_levels@;
        let ghost row = join_prefix.deep_view();
        assert(row.len() == join_prefix@.len());
        let level: usize = self.pattern_level(join_prefix);
        proof {
            let at = choose|i: int| 0 <= i < levels.len() && #[trigger] levels[i] == row.len();
            lemma_levels_beyond(levels, at, row);
            lemma_levels_before(levels.take(at), row.len() as int);
            assert(self.participating_levels.len() <= usize::MAX);
        }
        let single = self.participating_levels.len() == 1;
        match self.index_types[level] {
            IndexType::AVE => if single {
                2
            } else {
                level + 1
            },
            IndexType::AEV => if single {
                2
            } else {
                level + 1
            },
            IndexType::VAE => if single {
                2
            } else {
                level + 1
            },
            _ => level + 1,
        }
    }

    /// The values that may follow: all that the scan shows.
    pub fn propose<I: Index>(&self, iterator: &mut I) -> (r: Result<Vec<Extension>, Error>)
        requires
            old(iterator).inv(),
            old(iterator).position() == 0,
        ensures
            match r {
                Ok(list) => list.deep_view() == old(iterator).entries(),
                Err(_) => !old(iterator).reliable(),
            },
    {
        read_all(iterator)
    }

    /// Those of the values that the scan shows.
    pub fn intersect<I: Index>(&self, extensions: &Vec<Extension>, iterator: &mut I) -> (r: Result<
        Vec<Extension>,
        Error,
    >)
        requires
            old(iterator).inv(),
            old(iterator).position() == 0,
        ensures
            match r {
                Ok(list) => list.deep_view() == shown(
                    extensions.deep_view(),
                    old(iterator).entries(),
                ),
                Err(_) => !old(iterator).reliable(),
            },
    {
        let ghost given = extensions.deep_view();
        let ghost entries = iterator.entries();
        assert(given.len() == extensions@.len());
        let found = match look_up(extensions, iterator) {
            Ok(found) => found,
            Err(e) => {
                return Err(e);
            },
        };
        let mut out: Vec<Extension> = Vec::new();
        let mut i: usize = 0;
        assert(out.deep_view() =~= shown(given.take(0), entries));
        while i < extensions.len()
            invariant
                i <= extensions@.len() == given.len(),
                given == extensions.deep_view(),
                found@.len() == given.len(),
                forall|j: int|
                    0 <= j < found@.len() ==> #[trigger] found@[j] == entries.contains(given[j]),
                out.deep_view() == shown(given.take(i as int), entries),
            decreases extensions@.len() - i,
        {
            proof {
                byte_string::lemma_deep_bytes(&extensions@[i as int]);
                assert(given.take(i + 1).drop_last() =~= given.take(i as int));
            }
            if found[i] {
                let value = copy_bytes(&extensions[i]);
                let ghost earlier = out;
                out.push(value);
                proof {
                    byte_string::lemma_deep_bytes(&value);
                    byte_string::lemma_deep_push(earlier, out, value);
                }
            }
            i += 1;
        }
        assert(given.take(i as int) =~= given);
        Ok(out)
    }

    /// Whether the extender constrains a level.
    pub fn participates_in_level(&self, level: usize) -> (r: bool)
        ensures
            r == self.joins(level as int),
    {
        let mut i: usize = 0;
        while i < self.participating_levels.len()
            invariant
                i <= self.participating_levels@.len(),
                forall|j: int| 0 <= j < i ==> #[trigger] self.participating_levels@[j] != level,
            decreases self.participating_levels@.len() - i,
        {
            if self.participating_levels[i] == level {
                return true;
            }
            i += 1;
        }
        false
    }
}

/// Those of the values that stand among the entries, in their order.
pub open spec fn shown(values: Seq<Seq<u8>>, entries: Seq<Seq<u8>>) -> Seq<Seq<u8>>
    decreases values.len(),
{
    if values.len() == 0 {
        Seq::empty()
    } else {
        let earlier = shown(values.drop_last(), entries);
        if entries.contains(values.last()) {
            earlier.push(values.last())
        } else {
            earlier
        }
    }
}

} // verus!
