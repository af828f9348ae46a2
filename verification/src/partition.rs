//! Entity numbers: partitions and the counters within them.
//!
//! ```text
//!  63   62   61                 42  41               0
//! +----+----+---------------------+-------------------+
//! | S  | 0  | partition (20 bits) | counter (42 bits) |
//! +----+----+---------------------+-------------------+
//! ```

use std::collections::HashMap;

use vstd::prelude::*;

use crate::byte_string;
use crate::codec::{self, encode_i64_bytes};
use crate::error::{Error, ErrorView};
use crate::ops::{TxOp, TxOpView};
use crate::protocol::TAG_LONG;
use crate::value::{DataType, Value};

verus! {

broadcast use vstd::std_specs::hash::group_hash_axioms;

/// How many bits of an entity number hold the counter.
pub const COUNTER_BITS: u32 = 42;

/// The bits that hold the counter.
pub const COUNTER_MASK: i64 = 0x3ff_ffff_ffff;

/// The bits that hold the partition.
pub const PARTITION_MASK: i64 = 0x3fff_fc00_0000_0000;

/// How many counters a partition has.
pub const COUNTERS: i64 = 0x400_0000_0000;

/// How many partitions there are.
pub const PARTITIONS: u32 = 0x10_0000;

/// The partition of schema entities.
pub const DB_PARTITION: u32 = 0;

/// The partition of transactions.
pub const TX_PARTITION: u32 = 1;

/// The partition of everything else.
pub const USER_PARTITION: u32 = 2;

/// The entity number of a counter in a partition.
pub open spec fn entity_id(partition: int, counter: int) -> int {
    partition * COUNTERS + counter
}

/// The partition of an entity number.
pub open spec fn partition_of(eid: int) -> int {
    (eid / COUNTERS as int) % (PARTITIONS as int)
}

/// The counter of an entity number.
pub open spec fn counter_of(eid: int) -> int {
    eid % (COUNTERS as int)
}

/// The entity number of a counter in a partition. In partition zero it is the counter.
pub fn make_entity_id(partition: u32, counter: i64) -> (r: i64)
    requires
        partition < PARTITIONS,
        0 <= counter <= COUNTER_MASK,
    ensures
        r == entity_id(partition as int, counter as int),
        r >= 0,
{
    partition as i64 * COUNTERS + counter
}

/// The same number without a sign: a negative one with the full range added.
proof fn lemma_unsigned(eid: i64)
    ensures
        eid >= 0 ==> (eid as u64) == eid,
        eid < 0 ==> (eid as u64) == eid + 0x1_0000_0000_0000_0000,
{
    assert(eid >= 0 ==> (eid as u64) == eid) by (bit_vector);
    assert(eid < 0 ==> (eid as u64) == eid + 0x1_0000_0000_0000_0000) by (bit_vector);
}

/// The partition of an entity number: bits 42 to 61, also of a negative one.
pub fn extract_partition(eid: i64) -> (r: u32)
    ensures
        r == partition_of(eid as int),
{
    proof {
        lemma_unsigned(eid);
        let x = eid as int;
        assert((x + 0x1_0000_0000_0000_0000) / (COUNTERS as int) == x / (COUNTERS as int)
            + 0x40_0000);
        assert((x / (COUNTERS as int) + 0x40_0000) % (PARTITIONS as int) == (x / (COUNTERS as int))
            % (PARTITIONS as int));
    }
    ((eid as u64 / COUNTERS as u64) % PARTITIONS as u64) as u32
}

/// The counter of an entity number: bits 0 to 41, also of a negative one.
pub fn extract_counter(eid: i64) -> (r: i64)
    ensures
        r == counter_of(eid as int),
        0 <= r <= COUNTER_MASK,
{
    proof {
        lemma_unsigned(eid);
        let x = eid as int;
        assert((x + 0x1_0000_0000_0000_0000) % (COUNTERS as int) == x % (COUNTERS as int));
    }
    (eid as u64 % COUNTERS as u64) as i64
}

/// An entity number gives back the partition and the counter that it was made of.
pub proof fn law_entity_id_round_trip(partition: int, counter: int)
    requires
        0 <= partition < PARTITIONS,
        0 <= counter <= COUNTER_MASK,
    ensures
        partition_of(entity_id(partition, counter)) == partition,
        counter_of(entity_id(partition, counter)) == counter,
{
}

/// Entity numbers stand in the order of their partitions, and within a partition in the order
/// of their counters.
pub proof fn law_partitions_apart(p: int, c: int, q: int, d: int)
    requires
        0 <= c <= COUNTER_MASK,
        0 <= d <= COUNTER_MASK,
    ensures
        p < q ==> entity_id(p, c) < entity_id(q, d),
        p == q && c < d ==> entity_id(p, c) < entity_id(q, d),
{
}

/// Whether an entity number stands for an entity of the transaction itself: it is negative.
pub fn is_tempid(eid: i64) -> (r: bool)
    ensures
        r == (eid < 0),
{
    eid < 0
}

/// The bytes with which the encodings of a partition's entity numbers begin, up to counters of
/// 40 bits.
pub open spec fn entity_prefix(partition: int) -> Seq<u8> {
    seq![TAG_LONG] + codec::i64_bytes(entity_id(partition, 0) as i64).take(3)
}

/// The bytes with which the encodings of a partition's entity numbers begin, up to counters of
/// 40 bits.
pub fn partition_entity_prefix(partition: u32) -> (r: Vec<u8>)
    requires
        partition < PARTITIONS,
    ensures
        r@ == entity_prefix(partition as int),
{
    let base: i64 = make_entity_id(partition, 0);
    let encoded = encode_i64_bytes(base);
    let mut prefix: Vec<u8> = Vec::new();
    prefix.push(TAG_LONG);
    prefix.push(encoded[0]);
    prefix.push(encoded[1]);
    prefix.push(encoded[2]);
    assert(prefix@ =~= entity_prefix(partition as int));
    prefix
}

/// The next counter of each partition.
pub type PartitionCounters = HashMap<u32, i64>;

/// The next counter of a partition: zero where none is on record.
pub open spec fn next_counter(counters: Map<u32, i64>, partition: u32) -> i64 {
    if counters.dom().contains(partition) {
        counters[partition]
    } else {
        0
    }
}

/// Takes the next counter of a partition.
pub fn allocate_counter(counters: &mut PartitionCounters, partition: u32) -> (r: i64)
    requires
        next_counter(old(counters)@, partition) < i64::MAX,
    ensures
        r == next_counter(old(counters)@, partition),
        final(counters)@ == old(counters)@.insert(partition, (r + 1) as i64),
{
    let value: i64 = match counters.get(&partition) {
        Some(next) => *next,
        None => 0,
    };
    counters.insert(partition, value + 1);
    value
}

/// The name under which a document holds its entity number.
pub open spec fn id_name() -> Seq<char> {
    "db/id"@
}

/// The partition of a document without an entity number: that of the schema where it names an
/// ident.
pub open spec fn document_partition(doc: Map<Seq<char>, Value>) -> u32 {
    if doc.dom().contains("db/ident"@) {
        DB_PARTITION
    } else {
        USER_PARTITION
    }
}

/// Whether an operation is refused: it puts a document whose entity number is no number.
pub open spec fn op_refused(op: TxOpView) -> bool {
    op matches TxOpView::Put(doc) && doc.dom().contains(id_name()) && !(doc[id_name()] is Long)
}

/// Whether an operation takes a counter.
pub open spec fn op_allocates(op: TxOpView) -> bool {
    op matches TxOpView::Put(doc) && !doc.dom().contains(id_name())
}

/// The counters after one operation.
pub open spec fn counters_after_op(op: TxOpView, counters: Map<u32, i64>) -> Map<u32, i64> {
    match op {
        TxOpView::Put(doc) => if op_allocates(op) {
            let p = document_partition(doc);
            counters.insert(p, (next_counter(counters, p) + 1) as i64)
        } else {
            counters
        },
        _ => counters,
    }
}

/// An operation with an entity number where it lacked one.
pub open spec fn resolved_op(op: TxOpView, counters: Map<u32, i64>) -> TxOpView {
    match op {
        TxOpView::Put(doc) => if op_allocates(op) {
            let p = document_partition(doc);
            TxOpView::Put(
                doc.insert(
                    id_name(),
                    Value::Long(entity_id(p as int, next_counter(counters, p) as int) as i64),
                ),
            )
        } else {
            op
        },
        _ => op,
    }
}

/// The counters after operations.
pub open spec fn counters_after(ops: Seq<TxOpView>, counters: Map<u32, i64>) -> Map<u32, i64>
    decreases ops.len(),
{
    if ops.len() == 0 {
        counters
    } else {
        counters_after_op(ops.last(), counters_after(ops.drop_last(), counters))
    }
}

/// Operations with entity numbers where they lacked one.
pub open spec fn resolved_ops(ops: Seq<TxOpView>, counters: Map<u32, i64>) -> Seq<TxOpView>
    decreases ops.len(),
{
    if ops.len() == 0 {
        Seq::empty()
    } else {
        resolved_ops(ops.drop_last(), counters).push(
            resolved_op(ops.last(), counters_after(ops.drop_last(), counters)),
        )
    }
}

/// What operations are.
pub open spec fn op_views(ops: Seq<TxOp>) -> Seq<TxOpView> {
    Seq::new(ops.len(), |i: int| ops[i]@)
}

/// Whether every operation that takes a counter finds one, up to the first that is refused.
pub open spec fn room_for(ops: Seq<TxOpView>, counters: Map<u32, i64>) -> bool {
    forall|i: int|
        0 <= i < ops.len() && op_allocates(#[trigger] ops[i]) && none_refused(ops.take(i)) ==> 0
            <= next_counter(
            counters_after(ops.take(i), counters),
            document_partition(ops[i]->Put_0),
        ) <= COUNTER_MASK
}

/// Whether no operation is refused.
pub open spec fn none_refused(ops: Seq<TxOpView>) -> bool {
    forall|i: int| 0 <= i < ops.len() ==> !op_refused(#[trigger] ops[i])
}

/// Gives a document without an entity number one. A document whose entity number is no number is
/// refused.
fn resolve_op(op: &TxOp, counters: &mut PartitionCounters) -> (r: Result<TxOp, Error>)
    requires
        op_allocates(op@) ==> 0 <= next_counter(
            old(counters)@,
            document_partition(op@->Put_0),
        ) <= COUNTER_MASK,
    ensures
        match r {
            Ok(resolved) => !op_refused(op@) && resolved@ == resolved_op(op@, old(counters)@)
                && final(counters)@ == counters_after_op(op@, old(counters)@),
            Err(e) => op_refused(op@) && e@ == ErrorView::EntityIdType && final(counters)@ == old(
                counters,
            )@,
        },
{
    match op {
        TxOp::Put(doc) => match doc.get("db/id") {
            Some(DataType::Long(_)) => Ok(TxOp::Put(doc.copy())),
            Some(_) => Err(Error::EntityIdType),
            None => {
                let partition: u32 = if doc.get("db/ident").is_some() {
                    DB_PARTITION
                } else {
                    USER_PARTITION
                };
                let counter: i64 = allocate_counter(counters, partition);
                let eid: i64 = make_entity_id(partition, counter);
                let mut new_doc = doc.copy();
                new_doc.insert("db/id", DataType::Long(eid));
                Ok(TxOp::Put(new_doc))
            },
        },
        other => Ok(other.copy()),
    }
}

/// Gives the documents without an entity number one: of the schema partition where they name an
/// ident, else of the user partition. Everything else is passed through. A document whose entity
/// number is no number is refused; the counters taken before it stay taken.
pub fn resolve_entity_ids(ops: &[TxOp], counters: &mut PartitionCounters) -> (r: Result<
    Vec<TxOp>,
    Error,
>)
    requires
        room_for(op_views(ops@), old(counters)@),
    ensures
        match r {
            Ok(list) => none_refused(op_views(ops@)) && op_views(list@) == resolved_ops(
                op_views(ops@),
                old(counters)@,
            ) && final(counters)@ == counters_after(op_views(ops@), old(counters)@),
            Err(e) => e@ == ErrorView::EntityIdType && exists|n: int|
                0 <= n < ops@.len() && op_refused(#[trigger] op_views(ops@)[n]) && none_refused(
                    op_views(ops@).take(n),
                ) && final(counters)@ == counters_after(op_views(ops@).take(n), old(counters)@),
        },
{
    let ghost start = counters@;
    let ghost views = op_views(ops@);
    let mut resolved: Vec<TxOp> = Vec::new();
    let mut i: usize = 0;
    assert(views.take(0) =~= Seq::<TxOpView>::empty());
    assert(op_views(resolved@) =~= Seq::<TxOpView>::empty());
    while i < ops.len()
        invariant
            i <= ops@.len() == views.len(),
            views == op_views(ops@),
            start == old(counters)@,
            room_for(views, start),
            none_refused(views.take(i as int)),
            op_views(resolved@) == resolved_ops(views.take(i as int), start),
            counters@ == counters_after(views.take(i as int), start),
        decreases ops@.len() - i,
    {
        let ghost before = resolved@;
        proof {
            assert(views.take(i + 1).drop_last() =~= views.take(i as int));
            assert(views.take(i + 1).last() == ops@[i as int]@);
            assert(views[i as int] == ops@[i as int]@);
        }
        let op = match resolve_op(&ops[i], counters) {
            Ok(op) => op,
            Err(e) => {
                assert(op_refused(views[i as int]));
                return Err(e);
            },
        };
        assert(!op_refused(views[i as int]));
        let ghost view = op@;
        resolved.push(op);
        assert(op_views(resolved@) =~= op_views(before).push(view));
        i += 1;
    }
    assert(views.take(i as int) =~= views);
    Ok(resolved)
}

/// The first three of eight bytes are those of the number without its last five.
proof fn lemma_first_bytes(x: nat, q: nat, r: nat)
    requires
        x == q * 0x100_0000_0000 + r,
        r < 0x100_0000_0000,
    ensures
        codec::be_bytes(x, 8).take(3) == codec::be_bytes(q, 3),
{
    let x1 = x / 256;
    let x2 = x1 / 256;
    let x3 = x2 / 256;
    let x4 = x3 / 256;
    let x5 = x4 / 256;
    assert(x1 == q * 0x1_0000_0000 + r / 256);
    assert(x2 == q * 0x100_0000 + r / 0x1_0000);
    assert(x3 == q * 0x1_0000 + r / 0x100_0000);
    assert(x4 == q * 0x100 + r / 0x1_0000_0000);
    assert(x5 == q);
    codec::lemma_be_len(x5, 3);
    codec::lemma_be_len(x4, 4);
    codec::lemma_be_len(x3, 5);
    codec::lemma_be_len(x2, 6);
    codec::lemma_be_len(x1, 7);
    codec::lemma_be_len(x, 8);
    assert(codec::be_bytes(x, 8) == codec::be_bytes(x1, 7).push((x % 256) as u8));
    assert(codec::be_bytes(x1, 7) == codec::be_bytes(x2, 6).push((x1 % 256) as u8));
    assert(codec::be_bytes(x2, 6) == codec::be_bytes(x3, 5).push((x2 % 256) as u8));
    assert(codec::be_bytes(x3, 5) == codec::be_bytes(x4, 4).push((x3 % 256) as u8));
    assert(codec::be_bytes(x4, 4) == codec::be_bytes(x5, 3).push((x4 % 256) as u8));
    assert(codec::be_bytes(x, 8).take(3) =~= codec::be_bytes(x5, 3));
}

/// The encoding of a number begins with a partition's bytes just where it is one of the
/// partition's entity numbers, with a counter of up to 40 bits.
pub proof fn law_entity_prefix(partition: int, id: i64)
    requires
        0 <= partition < PARTITIONS,
    ensures
        byte_string::begins_with(codec::encoding(Value::Long(id)), entity_prefix(partition)) == (
        entity_id(partition, 0) <= id < entity_id(partition, 0x100_0000_0000)),
{
    let base = entity_id(partition, 0);
    let q = (0x80_0000 - 4 * partition - 1) as nat;
    let x = (i64::MAX - id) as nat;
    let own = x / 0x100_0000_0000;
    let rest = x % 0x100_0000_0000;
    assert(i64::MAX - base == q * 0x100_0000_0000 + 0xff_ffff_ffff);
    lemma_first_bytes((i64::MAX - base) as nat, q, 0xff_ffff_ffff);
    lemma_first_bytes(x, own, rest);
    codec::lemma_be_len(x, 8);
    codec::lemma_be_len((i64::MAX - base) as nat, 8);
    assert(codec::encoding(Value::Long(id)).take(4) =~= seq![TAG_LONG] + codec::i64_bytes(id).take(
        3,
    ));
    assert(codec::pow256(3) == 0x100_0000) by {
        reveal_with_fuel(codec::pow256, 4);
    }
    codec::lemma_number_round_trip(q, 3);
    codec::lemma_number_round_trip(own, 3);
    let encoded = codec::encoding(Value::Long(id));
    let prefix = entity_prefix(partition);
    assert(encoded.take(4).skip(1) =~= codec::be_bytes(own, 3));
    assert(prefix.skip(1) =~= codec::be_bytes(q, 3));
    if own == q {
        assert(encoded.take(4) =~= prefix);
    }
}

/// The entity number that an operation is given.
pub open spec fn given_id(ops: Seq<TxOpView>, counters: Map<u32, i64>, i: int) -> int {
    let p = document_partition(ops[i]->Put_0);
    entity_id(p as int, next_counter(counters_after(ops.take(i), counters), p) as int)
}

/// The counters after operations, one operation further.
proof fn lemma_counters_step(ops: Seq<TxOpView>, counters: Map<u32, i64>, i: int)
    requires
        0 <= i < ops.len(),
    ensures
        counters_after(ops.take(i + 1), counters) == counters_after_op(
            ops[i],
            counters_after(ops.take(i), counters),
        ),
{
    assert(ops.take(i + 1).drop_last() =~= ops.take(i));
    assert(ops.take(i + 1).last() == ops[i]);
}

/// Counters do not go back from one operation to a later one.
proof fn lemma_counters_grow(
    ops: Seq<TxOpView>,
    counters: Map<u32, i64>,
    partition: u32,
    i: int,
    j: int,
)
    requires
        0 <= i <= j <= ops.len(),
        none_refused(ops),
        room_for(ops, counters),
    ensures
        next_counter(counters_after(ops.take(i), counters), partition) <= next_counter(
            counters_after(ops.take(j), counters),
            partition,
        ),
    decreases j - i,
{
    if i < j {
        lemma_counters_grow(ops, counters, partition, i, j - 1);
        lemma_counters_step(ops, counters, j - 1);
        assert(none_refused(ops.take(j - 1)));
        assert(op_allocates(ops[j - 1]) ==> ops[j - 1] is Put);
    }
}

/// Each operation is resolved with the counters after those before it.
proof fn lemma_resolved_at(ops: Seq<TxOpView>, counters: Map<u32, i64>, i: int)
    requires
        0 <= i < ops.len(),
    ensures
        resolved_ops(ops, counters).len() == ops.len(),
        resolved_ops(ops, counters)[i] == resolved_op(
            ops[i],
            counters_after(ops.take(i), counters),
        ),
    decreases ops.len(),
{
    if i < ops.len() - 1 {
        assert(ops.drop_last().take(i) =~= ops.take(i));
        lemma_resolved_at(ops.drop_last(), counters, i);
    } else {
        assert(ops.take(i) =~= ops.drop_last());
        if ops.len() > 1 {
            lemma_resolved_at(ops.drop_last(), counters, 0);
        } else {
            assert(resolved_ops(ops.drop_last(), counters).len() == 0);
        }
    }
}

/// Two documents that are given entity numbers are never given the same one.
pub proof fn law_given_ids_distinct(
    ops: Seq<TxOpView>,
    counters: Map<u32, i64>,
    i: int,
    j: int,
)
    requires
        0 <= i < j < ops.len(),
        op_allocates(ops[i]),
        op_allocates(ops[j]),
        none_refused(ops),
        room_for(ops, counters),
    ensures
        resolved_ops(ops, counters)[i]->Put_0[id_name()] == Value::Long(
            given_id(ops, counters, i) as i64,
        ),
        resolved_ops(ops, counters)[i]->Put_0[id_name()] != resolved_ops(
            ops,
            counters,
        )[j]->Put_0[id_name()],
{
    lemma_resolved_at(ops, counters, i);
    lemma_resolved_at(ops, counters, j);
    let p = document_partition(ops[i]->Put_0);
    let q = document_partition(ops[j]->Put_0);
    assert(none_refused(ops.take(i)));
    assert(none_refused(ops.take(j)));
    lemma_counters_step(ops, counters, i);
    if p == q {
        lemma_counters_grow(ops, counters, p, i + 1, j);
    }
}

/// The numbers of the partitions.
pub proof fn law_partition_numbers()
    ensures
        DB_PARTITION == 0,
        TX_PARTITION == 1,
        USER_PARTITION == 2,
{
}

/// An entity number holds its counter in the lowest 42 bits and its partition in the 20 above, and
/// both are read back from it. It stands for no entity of the transaction itself.
pub proof fn law_entity_numbers(
    partition: u32,
    counter: i64,
    eid: i64,
    p: u32,
    c: i64,
    temporary: bool,
)
    requires
        partition < 0x10_0000,
        0 <= counter < 0x400_0000_0000,
        call_ensures(make_entity_id, (partition, counter), eid),
        call_ensures(extract_partition, (eid,), p),
        call_ensures(extract_counter, (eid,), c),
        call_ensures(is_tempid, (eid,), temporary),
    ensures
        eid == partition * 0x400_0000_0000 + counter,
        p == partition,
        c == counter,
        !temporary,
{
    law_entity_id_round_trip(partition as int, counter as int);
}

/// A negative number stands for an entity of the transaction itself, and no other does.
pub proof fn law_temporary_numbers(eid: i64, temporary: bool)
    requires
        call_ensures(is_tempid, (eid,), temporary),
    ensures
        temporary == (eid < 0),
{
}

/// A document without an entity number gets the next one of its partition, that of the schema where
/// it names an ident and else that of the users, and keeps everything else. A document with one,
/// and every other operation, stays as it is.
pub proof fn law_documents_get_numbers(op: TxOpView, counters: Map<u32, i64>)
    requires
        op matches TxOpView::Put(doc) ==> (doc.dom().contains("db/ident"@) ==> 0 <= next_counter(
            counters,
            0,
        ) < 0x400_0000_0000) && (!doc.dom().contains("db/ident"@) ==> 0 <= next_counter(
            counters,
            2,
        ) < 0x400_0000_0000),
    ensures
        match op {
            TxOpView::Put(doc) => if doc.dom().contains("db/id"@) {
                resolved_op(op, counters) == op && counters_after_op(op, counters) == counters
            } else {
                let p: u32 = if doc.dom().contains("db/ident"@) {
                    0
                } else {
                    2
                };
                let counter = next_counter(counters, p);
                &&& resolved_op(op, counters) == TxOpView::Put(
                    doc.insert(
                        "db/id"@,
                        Value::Long((p * 0x400_0000_0000 + counter) as i64),
                    ),
                )
                &&& counters_after_op(op, counters) == counters.insert(p, (counter + 1) as i64)
            },
            _ => resolved_op(op, counters) == op && counters_after_op(op, counters) == counters,
        },
        op_refused(op) == (op matches TxOpView::Put(doc) && doc.dom().contains("db/id"@) && !(
        doc["db/id"@] is Long)),
{
}

/// Each operation is resolved with the counters that those before it leave.
pub proof fn law_operations_are_resolved_in_turn(
    ops: Seq<TxOpView>,
    counters: Map<u32, i64>,
    i: int,
)
    requires
        0 <= i < ops.len(),
    ensures
        resolved_ops(ops, counters).len() == ops.len(),
        resolved_ops(ops, counters)[i] == resolved_op(ops[i], counters_after(ops.take(i), counters)),
        counters_after(ops.take(0), counters) == counters,
        counters_after(ops.take(i + 1), counters) == counters_after_op(
            ops[i],
            counters_after(ops.take(i), counters),
        ),
{
    lemma_resolved_at(ops, counters, i);
    lemma_counters_step(ops, counters, i);
    assert(ops.take(0) =~= Seq::<TxOpView>::empty());
}

} // verus!
