//! What changes with every transaction: the counters of the partitions and the schema.

use std::collections::HashMap;

use vstd::prelude::*;

use crate::partition::{
    self, allocate_counter, extract_counter, extract_partition, make_entity_id,
};
use crate::schema::Schema;

verus! {

broadcast use vstd::std_specs::hash::group_hash_axioms;

/// The next counter of each partition.
#[derive(Debug)]
pub struct PartitionMap {
    pub counters: HashMap<u32, i64>,
}

impl View for PartitionMap {
    type V = Map<u32, i64>;

    open spec fn view(&self) -> Map<u32, i64> {
        self.counters@
    }
}

impl Clone for PartitionMap {
    fn clone(&self) -> (r: Self)
        ensures
            r@ == self@,
    {
        PartitionMap { counters: self.counters.clone() }
    }
}

/// Whether an entity number has been given out.
pub open spec fn given_out(counters: Map<u32, i64>, eid: int) -> bool {
    let p = partition::partition_of(eid) as u32;
    counters.dom().contains(p) && partition::counter_of(eid) < counters[p]
}

/// The counters with an entity number, and all before it in its partition, given out.
pub open spec fn noted(counters: Map<u32, i64>, eid: int) -> Map<u32, i64> {
    if given_out(counters, eid) {
        counters
    } else {
        counters.insert(
            partition::partition_of(eid) as u32,
            (partition::counter_of(eid) + 1) as i64,
        )
    }
}

impl PartitionMap {
    /// No counter has been taken yet.
    pub fn new() -> (r: Self)
        ensures
            r@ == Map::<u32, i64>::empty(),
    {
        PartitionMap { counters: HashMap::new() }
    }

    /// Takes the next counter of a partition.
    pub fn allocate_counter(&mut self, partition: u32) -> (r: i64)
        requires
            partition::next_counter(old(self)@, partition) < i64::MAX,
        ensures
            r == partition::next_counter(old(self)@, partition),
            final(self)@ == old(self)@.insert(partition, (r + 1) as i64),
    {
        allocate_counter(&mut self.counters, partition)
    }

    /// Takes the next entity number of a partition.
    pub fn allocate_entid(&mut self, partition: u32) -> (r: i64)
        requires
            partition < partition::PARTITIONS,
            0 <= partition::next_counter(old(self)@, partition) <= partition::COUNTER_MASK,
        ensures
            r == partition::entity_id(
                partition as int,
                partition::next_counter(old(self)@, partition) as int,
            ),
            final(self)@ == old(self)@.insert(
                partition,
                (partition::next_counter(old(self)@, partition) + 1) as i64,
            ),
    {
        let counter: i64 = self.allocate_counter(partition);
        make_entity_id(partition, counter)
    }

    /// Counts an entity number, and all before it in its partition, as given out.
    pub fn note_entid(&mut self, eid: i64)
        ensures
            final(self)@ == noted(old(self)@, eid as int),
            given_out(final(self)@, eid as int),
            forall|other: int| #[trigger]
                given_out(old(self)@, other) ==> given_out(final(self)@, other),
    {
        let partition: u32 = extract_partition(eid);
        let counter: i64 = extract_counter(eid);
        if !self.contains_entid(eid) {
            self.counters.insert(partition, counter + 1);
        }
    }

    /// Whether an entity number has been given out.
    pub fn contains_entid(&self, eid: i64) -> (r: bool)
        ensures
            r == given_out(self@, eid as int),
    {
        let partition: u32 = extract_partition(eid);
        let counter: i64 = extract_counter(eid);
        match self.counters.get(&partition) {
            Some(next) => counter < *next,
            None => false,
        }
    }
}

/// An entity number that is taken next has not been given out before and is given out
/// afterwards, and nothing else changes.
pub proof fn law_taken_once(counters: Map<u32, i64>, partition: u32, eid: int)
    requires
        partition < partition::PARTITIONS,
        0 <= partition::next_counter(counters, partition) <= partition::COUNTER_MASK,
    ensures
        ({
            let taken = partition::entity_id(
                partition as int,
                partition::next_counter(counters, partition) as int,
            );
            let after = counters.insert(
                partition,
                (partition::next_counter(counters, partition) + 1) as i64,
            );
            &&& !given_out(counters, taken)
            &&& given_out(after, taken)
            &&& given_out(counters, eid) ==> given_out(after, eid)
            &&& 0 <= eid && eid / (partition::COUNTERS as int) < partition::PARTITIONS && eid
                != taken ==> given_out(after, eid) == given_out(counters, eid)
        }),
{
    let next = partition::next_counter(counters, partition) as int;
    partition::law_entity_id_round_trip(partition as int, next);
    let p = partition::partition_of(eid);
    assert(0 <= p < partition::PARTITIONS);
    if 0 <= eid && eid / (partition::COUNTERS as int) < partition::PARTITIONS {
        assert(eid == p * partition::COUNTERS + partition::counter_of(eid));
    }
}

/// What changes with every transaction.
#[derive(Debug)]
pub struct Metadata {
    pub generation: u64,
    pub partition_map: PartitionMap,
    pub schema: Schema,
}

impl Metadata {
    /// The first generation.
    pub fn new(schema: Schema, partition_map: PartitionMap) -> (r: Self)
        ensures
            r.generation == 0,
            r.partition_map == partition_map,
            r.schema == schema,
    {
        Metadata { generation: 0, partition_map, schema }
    }

    /// The next generation.
    pub fn advance_generation(&mut self)
        requires
            old(self).generation < u64::MAX,
        ensures
            *final(self) == (Metadata {
                generation: (old(self).generation + 1) as u64,
                ..*old(self)
            }),
    {
        self.generation = self.generation + 1;
    }
}

/// To count an entity number as given out gives out that number and the earlier ones of its
/// partition, and no others.
pub proof fn law_noted_numbers(counters: Map<u32, i64>, eid: i64, other: int)
    ensures
        given_out(noted(counters, eid as int), other) == (given_out(counters, other) || (
        partition::partition_of(other) == partition::partition_of(eid as int)
            && partition::counter_of(other) <= partition::counter_of(eid as int))),
{
}

} // verus!
