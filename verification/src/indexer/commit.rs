//! What is written of a transaction: old values are retracted, and unique values stay unique.

use vstd::prelude::*;

use crate::byte_string::{self, append_bytes, ascending_places, has_prefix, slice_of};
use crate::codec::{self, decode_datatype};
use crate::error::{Error, ErrorView};
use crate::iterator::index::{self, Index};
use crate::metadata::{self, PartitionMap};
use crate::ops::{Datom, DatomOp, DatomView};
use crate::schema::Schema;
use crate::value::{DataType, Keyword, Value};

verus! {

/// What follows a prefix in the first entry that begins with it.
pub open spec fn first_rest(entries: Seq<Seq<u8>>, prefix: Seq<u8>) -> Option<Seq<u8>>
    decreases entries.len(),
{
    if entries.len() == 0 {
        None
    } else if byte_string::begins_with(entries[0], prefix) {
        Some(entries[0].skip(prefix.len() as int))
    } else {
        first_rest(entries.drop_first(), prefix)
    }
}

/// Where no entry before a place begins with the prefix, the first is at the place or behind it.
proof fn lemma_first_rest(entries: Seq<Seq<u8>>, prefix: Seq<u8>, p: int)
    requires
        0 <= p <= entries.len(),
        forall|i: int| 0 <= i < p ==> !byte_string::begins_with(#[trigger] entries[i], prefix),
    ensures
        first_rest(entries, prefix) == first_rest(entries.skip(p), prefix),
    decreases p,
{
    if p == 0 {
        assert(entries.skip(0) =~= entries);
    } else {
        assert forall|i: int| 0 <= i < p - 1 implies !byte_string::begins_with(
            #[trigger] entries.drop_first()[i],
            prefix,
        ) by {
            assert(entries.drop_first()[i] == entries[i + 1]);
        }
        lemma_first_rest(entries.drop_first(), prefix, p - 1);
        assert(entries.drop_first().skip(p - 1) =~= entries.skip(p));
        assert(!byte_string::begins_with(entries[0], prefix));
    }
}

/// The entry at the place that splits an ordered list decides what follows the prefix.
proof fn lemma_first_at_split(entries: Seq<Seq<u8>>, prefix: Seq<u8>, p: int)
    requires
        index::sorted(entries),
        index::splits(entries, prefix, p),
    ensures
        first_rest(entries, prefix) == (if p < entries.len() && byte_string::begins_with(
            entries[p],
            prefix,
        ) {
            Some(entries[p].skip(prefix.len() as int))
        } else {
            None
        }),
{
    assert forall|i: int| 0 <= i < p implies !byte_string::begins_with(
        #[trigger] entries[i],
        prefix,
    ) by {
        if byte_string::begins_with(entries[i], prefix) {
            byte_string::lemma_prefix_not_after(entries[i], prefix);
        }
    }
    lemma_first_rest(entries, prefix, p);
    if p < entries.len() {
        assert(entries.skip(p)[0] == entries[p]);
        if !byte_string::begins_with(entries[p], prefix) {
            assert forall|i: int| 0 <= i < entries.len() implies !byte_string::begins_with(
                #[trigger] entries[i],
                prefix,
            ) by {
                if i > p && byte_string::begins_with(entries[i], prefix) {
                    assert(prefix.take(prefix.len() as int) =~= prefix);
                    assert(!byte_string::before(entries[i], entries[p]));
                    byte_string::lemma_interval(prefix, entries[p], entries[i], prefix);
                }
            }
            lemma_first_rest(entries, prefix, entries.len() as int);
            assert(entries.skip(entries.len() as int) =~= Seq::empty());
        }
    } else {
        assert(entries.skip(p) =~= Seq::empty());
    }
}

/// Bytes that may be missing.
pub open spec fn bytes_of(found: Option<Vec<u8>>) -> Option<Seq<u8>> {
    match found {
        Some(bytes) => Some(bytes@),
        None => None,
    }
}

/// Reads for each prefix what follows it in the first entry that begins with it. The prefixes
/// are looked up in ascending order, so that the cursor only moves forward.
pub fn read_first<I: Index>(prefixes: &Vec<Vec<u8>>, iterator: &mut I) -> (r: Result<
    Vec<Option<Vec<u8>>>,
    Error,
>)
    requires
        old(iterator).inv(),
        old(iterator).position() == 0,
    ensures
        match r {
            Ok(found) => found@.len() == prefixes@.len() && forall|i: int|
                0 <= i < found@.len() ==> bytes_of(#[trigger] found@[i]) == first_rest(
                    old(iterator).entries(),
                    prefixes.deep_view()[i],
                ),
            Err(_) => !old(iterator).reliable(),
        },
{
    let ghost wanted = prefixes.deep_view();
    let ghost entries = iterator.entries();
    let ghost reliable = iterator.reliable();
    let order = ascending_places(prefixes);
    let mut found: Vec<Option<Vec<u8>>> = Vec::new();
    while found.len() < prefixes.len()
        invariant
            found@.len() <= prefixes@.len(),
        decreases prefixes@.len() - found@.len(),
    {
        found.push(None);
    }
    let mut n: usize = 0;
    while n < order.len()
        invariant
            n <= order@.len(),
            wanted == prefixes.deep_view(),
            byte_string::ascending_order(wanted, order@),
            found@.len() == prefixes@.len() == wanted.len(),
            iterator.inv(),
            iterator.entries() == entries,
            entries == old(iterator).entries(),
            reliable == old(iterator).reliable(),
            reliable ==> iterator.reliable(),
            forall|i: int|
                0 <= i < n ==> bytes_of(found@[#[trigger] order@[i] as int]) == first_rest(
                    entries,
                    wanted[order@[i] as int],
                ),
            n > 0 ==> index::splits(entries, wanted[order@[n - 1] as int], iterator.position()),
            n == 0 ==> iterator.position() == 0,
        decreases order@.len() - n,
    {
        let at: usize = order[n];
        let ghost key = wanted[at as int];
        let ghost place = iterator.position();
        proof {
            iterator.lemma_inv();
            byte_string::lemma_deep_bytes(&prefixes@[at as int]);
        }
        match iterator.seek(&prefixes[at]) {
            Ok(_) => {},
            Err(e) => {
                return Err(e);
            },
        }
        proof {
            let p = choose|p: int| #[trigger]
                index::splits(entries, key, p) && (if place <= p {
                    iterator.position() == p
                } else {
                    p <= iterator.position() <= place
                });
            if p < place {
                assert(n > 0);
                let last = wanted[order@[n - 1] as int];
                assert(byte_string::before(entries[p], last));
                assert(!byte_string::before(key, last));
                byte_string::lemma_before_total(last, key);
                if last != key {
                    byte_string::lemma_before_transitive(entries[p], last, key);
                }
            }
            assert(iterator.position() == p);
            iterator.lemma_inv();
            lemma_first_at_split(entries, key, p);
        }
        let value = match iterator.get_value() {
            Ok(value) => value,
            Err(e) => {
                return Err(e);
            },
        };
        let rest: Option<Vec<u8>> = match &value {
            Some(actual) => {
                if has_prefix(actual, &prefixes[at]) {
                    let rest = slice_of(actual, prefixes[at].len(), actual.len());
                    assert(rest@ =~= actual@.skip(key.len() as int));
                    Some(rest)
                } else {
                    None
                }
            },
            None => None,
        };
        let ghost earlier = found@;
        let ghost set = rest;
        found.set(at, rest);
        proof {
            assert(bytes_of(set) == first_rest(entries, key));
            assert forall|i: int| 0 <= i < n + 1 implies bytes_of(
                found@[#[trigger] order@[i] as int],
            ) == first_rest(entries, wanted[order@[i] as int]) by {
                if order@[i] != at {
                    assert(found@[order@[i] as int] == earlier[order@[i] as int]);
                }
            }
        }
        n += 1;
    }
    proof {
        assert forall|k: int| 0 <= k < found@.len() implies bytes_of(#[trigger] found@[k])
            == first_rest(entries, wanted[k]) by {
            assert(order@.contains(byte_string::index_of_place(k)));
            let m = order@.index_of(byte_string::index_of_place(k));
            assert(order@[m] == k);
        }
    }
    Ok(found)
}

/// Where the current value of an entity's attribute is found: what its facts begin with, behind
/// the first byte.
pub open spec fn fact_prefix(entity: i64, attribute: i64) -> Seq<u8> {
    codec::encoding(Value::Long(entity)) + codec::i64_bytes(attribute)
}

/// Where the old value of an asserted fact is found. An attribute with several values has no old
/// value, and an entity that has not been given out yet has none.
pub open spec fn asks(d: DatomView, schema: Schema, counters: Map<u32, i64>) -> Option<Seq<u8>> {
    if d.op != DatomOp::Assert {
        None
    } else {
        match schema.find(d.attribute) {
            Some(info) => if info.multival || !metadata::given_out(counters, d.entity as int) {
                None
            } else {
                Some(fact_prefix(d.entity, info.id))
            },
            None => None,
        }
    }
}

/// Where the old values of facts are found.
pub open spec fn asked(datoms: Seq<DatomView>, schema: Schema, counters: Map<u32, i64>) -> Seq<
    Seq<u8>,
>
    decreases datoms.len(),
{
    if datoms.len() == 0 {
        Seq::empty()
    } else {
        let before = asked(datoms.drop_last(), schema, counters);
        match asks(datoms.last(), schema, counters) {
            Some(prefix) => before.push(prefix),
            None => before,
        }
    }
}

/// The old value of an asserted fact, among the facts that are visible: the entries hold entity,
/// attribute and value.
pub open spec fn old_value(
    d: DatomView,
    schema: Schema,
    counters: Map<u32, i64>,
    entries: Seq<Seq<u8>>,
) -> Result<Option<Value>, ErrorView> {
    match asks(d, schema, counters) {
        None => Ok(None),
        Some(prefix) => match first_rest(entries, prefix) {
            None => Ok(None),
            Some(rest) => match codec::decoded(rest) {
                Some((v, _)) => Ok(Some(v)),
                None => Err(ErrorView::Decode),
            },
        },
    }
}

/// A list with an element that it does not hold yet.
pub open spec fn with_new(list: Seq<DatomView>, d: DatomView) -> Seq<DatomView> {
    if list.contains(d) {
        list
    } else {
        list.push(d)
    }
}

/// The retraction of a value.
pub open spec fn retraction(d: DatomView, value: Value) -> DatomView {
    DatomView { value, op: DatomOp::Retract, ..d }
}

/// What is written of facts: of an attribute with one value, an asserted value that is the old
/// one is left out, and another old value is retracted. Nothing is written twice.
pub open spec fn committed(
    datoms: Seq<DatomView>,
    schema: Schema,
    counters: Map<u32, i64>,
    entries: Seq<Seq<u8>>,
) -> Seq<DatomView>
    decreases datoms.len(),
{
    if datoms.len() == 0 {
        Seq::empty()
    } else {
        let before = committed(datoms.drop_last(), schema, counters, entries);
        let d = datoms.last();
        match old_value(d, schema, counters, entries) {
            Ok(Some(v)) => if v == d.value {
                before
            } else {
                with_new(with_new(before, retraction(d, v)), d)
            },
            _ => with_new(before, d),
        }
    }
}

/// Whether the attribute of every asserted fact is known.
pub open spec fn assertions_known(datoms: Seq<DatomView>, schema: Schema) -> bool {
    forall|i: int|
        0 <= i < datoms.len() && (#[trigger] datoms[i]).op == DatomOp::Assert ==> schema.find(
            datoms[i].attribute,
        ) is Some
}

/// The attribute of the first asserted fact whose attribute is not known.
pub open spec fn first_unknown(datoms: Seq<DatomView>, schema: Schema) -> Option<Seq<char>>
    decreases datoms.len(),
{
    if datoms.len() == 0 {
        None
    } else {
        match first_unknown(datoms.drop_last(), schema) {
            Some(name) => Some(name),
            None => if datoms.last().op == DatomOp::Assert && schema.find(
                datoms.last().attribute,
            ) is None {
                Some(datoms.last().attribute)
            } else {
                None
            },
        }
    }
}

/// The first asserted fact with an unknown attribute decides.
proof fn lemma_first_unknown(datoms: Seq<DatomView>, schema: Schema, n: int)
    requires
        0 <= n < datoms.len(),
        assertions_known(datoms.take(n), schema),
        datoms[n].op == DatomOp::Assert,
        schema.find(datoms[n].attribute) is None,
    ensures
        first_unknown(datoms, schema) == Some(datoms[n].attribute),
    decreases datoms.len(),
{
    let front = datoms.drop_last();
    if n < front.len() {
        assert(front.take(n) =~= datoms.take(n));
        lemma_first_unknown(front, schema, n);
    } else {
        assert(front =~= datoms.take(n));
        lemma_none_unknown(front, schema);
    }
}

/// Among facts whose asserted attributes are known there is none.
pub proof fn lemma_none_unknown(datoms: Seq<DatomView>, schema: Schema)
    requires
        assertions_known(datoms, schema),
    ensures
        first_unknown(datoms, schema) is None,
    decreases datoms.len(),
{
    if datoms.len() > 0 {
        assert forall|i: int|
            0 <= i < datoms.drop_last().len() && (#[trigger] datoms.drop_last()[i]).op
                == DatomOp::Assert implies schema.find(
            datoms.drop_last()[i].attribute,
        ) is Some by {
            assert(datoms[i] == datoms.drop_last()[i]);
        }
        lemma_none_unknown(datoms.drop_last(), schema);
        assert(datoms.last() == datoms[datoms.len() - 1]);
    }
}

/// Whether the old value of every fact can be read.
pub open spec fn readable(
    datoms: Seq<DatomView>,
    schema: Schema,
    counters: Map<u32, i64>,
    entries: Seq<Seq<u8>>,
) -> bool {
    forall|i: int|
        0 <= i < datoms.len() ==> old_value(#[trigger] datoms[i], schema, counters, entries) is Ok
}

/// What is asked of the first facts is asked first.
proof fn lemma_asked_first(
    datoms: Seq<DatomView>,
    schema: Schema,
    counters: Map<u32, i64>,
    n: int,
)
    requires
        0 <= n <= datoms.len(),
    ensures
        asked(datoms.take(n), schema, counters).len() <= asked(datoms, schema, counters).len(),
        forall|k: int|
            0 <= k < asked(datoms.take(n), schema, counters).len() ==> asked(
                datoms.take(n),
                schema,
                counters,
            )[k] == #[trigger] asked(datoms, schema, counters)[k],
    decreases datoms.len(),
{
    if n == datoms.len() {
        assert(datoms.take(n) =~= datoms);
    } else {
        lemma_asked_first(datoms.drop_last(), schema, counters, n);
        assert(datoms.drop_last().take(n) =~= datoms.take(n));
    }
}

/// Adds a fact that a list does not hold yet.
fn push_new(list: &mut Vec<Datom>, d: Datom)
    ensures
        final(list).deep_view() == with_new(old(list).deep_view(), d@),
{
    let mut i: usize = 0;
    while i < list.len()
        invariant
            i <= list@.len(),
            *list == *old(list),
            forall|j: int| 0 <= j < i ==> list.deep_view()[j] != d@,
        decreases list@.len() - i,
    {
        if list[i].same(&d) {
            assert(list.deep_view()[i as int] == d@);
            return ;
        }
        i += 1;
    }
    let ghost earlier = *list;
    let ghost added = d;
    list.push(d);
    proof {
        byte_string::lemma_deep_push(earlier, *list, added);
    }
}

/// Where the old values of facts are found. An asserted fact with an unknown attribute is
/// refused.
fn questions(datoms: &Vec<Datom>, schema: &Schema, partition_map: &PartitionMap) -> (r: Result<
    Vec<Vec<u8>>,
    Error,
>)
    ensures
        match r {
            Ok(prefixes) => assertions_known(datoms.deep_view(), *schema) && prefixes.deep_view()
                == asked(datoms.deep_view(), *schema, partition_map@),
            Err(e) => first_unknown(datoms.deep_view(), *schema) matches Some(name) && e@
                == ErrorView::UnknownAttribute(name),
        },
{
    let ghost facts = datoms.deep_view();
    assert(facts.len() == datoms@.len());
    let mut prefixes: Vec<Vec<u8>> = Vec::new();
    let mut i: usize = 0;
    assert(facts.take(0) =~= Seq::empty());
    assert(prefixes.deep_view() =~= asked(facts.take(0), *schema, partition_map@));
    while i < datoms.len()
        invariant
            i <= datoms@.len() == facts.len(),
            facts == datoms.deep_view(),
            assertions_known(facts.take(i as int), *schema),
            prefixes.deep_view() == asked(facts.take(i as int), *schema, partition_map@),
        decreases datoms@.len() - i,
    {
        let ghost d = facts[i as int];
        proof {
            assert(d == datoms@[i as int]@);
            assert(facts.take(i + 1).drop_last() =~= facts.take(i as int));
            assert(facts.take(i + 1).last() == d);
        }
        if datoms[i].op == DatomOp::Assert {
            let info = match schema.get_attribute(&datoms[i].attribute) {
                Some(info) => info,
                None => {
                    proof {
                        lemma_first_unknown(facts, *schema, i as int);
                    }
                    return Err(Error::UnknownAttribute(datoms[i].attribute.name.clone()));
                },
            };
            if !info.multival && partition_map.contains_entid(datoms[i].entity) {
                let mut prefix = codec::encode(&DataType::Long(datoms[i].entity));
                append_bytes(&mut prefix, &codec::encode_i64_bytes(info.id));
                let ghost earlier = prefixes;
                let ghost added = prefix;
                proof {
                    byte_string::lemma_deep_bytes(&prefix);
                }
                prefixes.push(prefix);
                proof {
                    byte_string::lemma_deep_push(earlier, prefixes, added);
                    assert(added@ == fact_prefix(d.entity, info.id));
                }
            }
        }
        proof {
            assert forall|k: int|
                0 <= k < facts.take(i + 1).len() && (#[trigger] facts.take(i + 1)[k]).op
                    == DatomOp::Assert implies schema.find(
                facts.take(i + 1)[k].attribute,
            ) is Some by {
                if k < i {
                    assert(facts.take(i as int)[k] == facts.take(i + 1)[k]);
                }
            }
        }
        i += 1;
    }
    assert(facts.take(i as int) =~= facts);
    Ok(prefixes)
}

/// What is written of facts, over a cursor on the visible facts by entity, attribute and value.
pub fn finalize_datoms_for_commit<I: Index>(
    datoms: &Vec<Datom>,
    schema: &Schema,
    partition_map: &PartitionMap,
    iterator: &mut I,
) -> (r: Result<Vec<Datom>, Error>)
    requires
        old(iterator).inv(),
        old(iterator).position() == 0,
    ensures
        match r {
            Ok(written) => assertions_known(datoms.deep_view(), *schema) && readable(
                datoms.deep_view(),
                *schema,
                partition_map@,
                old(iterator).entries(),
            ) && written.deep_view() == committed(
                datoms.deep_view(),
                *schema,
                partition_map@,
                old(iterator).entries(),
            ),
            Err(e) => old(iterator).reliable() ==> {
                ||| first_unknown(datoms.deep_view(), *schema) matches Some(name) && e@
                    == ErrorView::UnknownAttribute(name)
                ||| e@ == ErrorView::Decode && assertions_known(datoms.deep_view(), *schema)
                    && !readable(
                    datoms.deep_view(),
                    *schema,
                    partition_map@,
                    old(iterator).entries(),
                )
            },
        },
{
    let ghost facts = datoms.deep_view();
    let ghost entries = iterator.entries();
    let ghost counters = partition_map@;
    let ghost all = asked(facts, *schema, counters);
    assert(facts.len() == datoms@.len());
    let prefixes = match questions(datoms, schema, partition_map) {
        Ok(prefixes) => prefixes,
        Err(e) => {
            return Err(e);
        },
    };
    assert(prefixes.deep_view().len() == prefixes@.len());
    let rests = match read_first(&prefixes, iterator) {
        Ok(rests) => rests,
        Err(e) => {
            return Err(e);
        },
    };
    let mut written: Vec<Datom> = Vec::new();
    let mut i: usize = 0;
    let mut k: usize = 0;
    proof {
        assert(facts.take(0) =~= Seq::empty());
        assert(written.deep_view() =~= committed(facts.take(0), *schema, counters, entries));
    }
    while i < datoms.len()
        invariant
            i <= datoms@.len() == facts.len(),
            facts == datoms.deep_view(),
            entries == old(iterator).entries(),
            counters == partition_map@,
            all == asked(facts, *schema, counters),
            assertions_known(facts, *schema),
            rests@.len() == all.len(),
            forall|n: int|
                0 <= n < rests@.len() ==> bytes_of(#[trigger] rests@[n]) == first_rest(
                    entries,
                    all[n],
                ),
            k == asked(facts.take(i as int), *schema, counters).len(),
            readable(facts.take(i as int), *schema, counters, entries),
            written.deep_view() == committed(facts.take(i as int), *schema, counters, entries),
        decreases datoms@.len() - i,
    {
        let ghost d = facts[i as int];
        proof {
            assert(d == datoms@[i as int]@);
            assert(facts.take(i + 1).drop_last() =~= facts.take(i as int));
            assert(facts.take(i + 1).last() == d);
            lemma_asked_first(facts, *schema, counters, i + 1);
        }
        let mut old: Option<DataType> = None;
        if datoms[i].op == DatomOp::Assert {
            match schema.get_attribute(&datoms[i].attribute) {
                Some(info) => {
                    if !info.multival && partition_map.contains_entid(datoms[i].entity) {
                        assert(asks(d, *schema, counters) is Some);
                        assert(all[k as int] == asks(d, *schema, counters).unwrap());
                        assert(k < rests.len());
                        match &rests[k] {
                            Some(rest) => {
                                assert(rest@.skip(0) =~= rest@);
                                match decode_datatype(rest, 0) {
                                    Ok((value, _)) => {
                                        old = Some(value);
                                    },
                                    Err(e) => {
                                        assert(old_value(d, *schema, counters, entries) is Err);
                                        return Err(e);
                                    },
                                }
                            },
                            None => {},
                        }
                        k += 1;
                    }
                },
                None => {
                    assert(schema.find(facts[i as int].attribute) is Some);
                },
            }
        }
        match old {
            Some(value) => {
                assert(old_value(d, *schema, counters, entries) == Ok::<Option<Value>, ErrorView>(
                    Some(value@),
                ));
                if !value.same(&datoms[i].value) {
                    push_new(
                        &mut written,
                        Datom {
                            entity: datoms[i].entity,
                            attribute: datoms[i].attribute.clone(),
                            value,
                            op: DatomOp::Retract,
                        },
                    );
                    push_new(&mut written, datoms[i].clone());
                }
            },
            None => {
                assert(old_value(d, *schema, counters, entries) == Ok::<Option<Value>, ErrorView>(
                    None,
                ));
                push_new(&mut written, datoms[i].clone());
            },
        }
        proof {
            assert forall|n: int| 0 <= n < facts.take(i + 1).len() implies old_value(
                #[trigger] facts.take(i + 1)[n],
                *schema,
                counters,
                entries,
            ) is Ok by {
                if n < i {
                    assert(facts.take(i as int)[n] == facts.take(i + 1)[n]);
                }
            }
        }
        i += 1;
    }
    assert(facts.take(i as int) =~= facts);
    Ok(written)
}

/// What is written once stays written.
proof fn lemma_committed_grows(
    datoms: Seq<DatomView>,
    schema: Schema,
    counters: Map<u32, i64>,
    entries: Seq<Seq<u8>>,
    n: int,
    d: DatomView,
)
    requires
        0 <= n <= datoms.len(),
        committed(datoms.take(n), schema, counters, entries).contains(d),
    ensures
        committed(datoms, schema, counters, entries).contains(d),
    decreases datoms.len(),
{
    if n == datoms.len() {
        assert(datoms.take(n) =~= datoms);
    } else {
        assert(datoms.drop_last().take(n) =~= datoms.take(n));
        lemma_committed_grows(datoms.drop_last(), schema, counters, entries, n, d);
        let before = committed(datoms.drop_last(), schema, counters, entries);
        let last = datoms.last();
        lemma_with_new(before, last);
        match old_value(last, schema, counters, entries) {
            Ok(Some(v)) => {
                lemma_with_new(before, retraction(last, v));
                lemma_with_new(with_new(before, retraction(last, v)), last);
            },
            _ => {},
        }
    }
}

/// A list with a new element holds what it held, and the element.
proof fn lemma_with_new(list: Seq<DatomView>, d: DatomView)
    ensures
        with_new(list, d).contains(d),
        forall|x: DatomView|
            #![trigger with_new(list, d).contains(x)]
            with_new(list, d).contains(x) == (list.contains(x) || x == d),
        list.no_duplicates() ==> with_new(list, d).no_duplicates(),
{
    let longer = with_new(list, d);
    if !list.contains(d) {
        assert(longer[list.len() as int] == d);
        assert forall|x: DatomView| #![trigger longer.contains(x)] longer.contains(x) == (
        list.contains(x) || x == d) by {
            if list.contains(x) {
                assert(longer[list.index_of(x)] == x);
            }
        }
        assert(longer.drop_last() =~= list);
    }
}

/// Where an attribute with one value is given another value, the old one is retracted and the new
/// one asserted.
pub proof fn law_overwrite_retracts(
    datoms: Seq<DatomView>,
    schema: Schema,
    counters: Map<u32, i64>,
    entries: Seq<Seq<u8>>,
    d: DatomView,
    v: Value,
)
    requires
        datoms.contains(d),
        old_value(d, schema, counters, entries) == Ok::<Option<Value>, ErrorView>(Some(v)),
        v != d.value,
    ensures
        committed(datoms, schema, counters, entries).contains(retraction(d, v)),
        committed(datoms, schema, counters, entries).contains(d),
{
    let n = datoms.index_of(d);
    assert(datoms.take(n + 1).last() == d);
    let before = committed(datoms.take(n + 1).drop_last(), schema, counters, entries);
    lemma_with_new(before, retraction(d, v));
    lemma_with_new(with_new(before, retraction(d, v)), d);
    lemma_committed_grows(datoms, schema, counters, entries, n + 1, d);
    lemma_committed_grows(datoms, schema, counters, entries, n + 1, retraction(d, v));
}

/// What has no old value is written as it is.
pub proof fn law_new_kept(
    datoms: Seq<DatomView>,
    schema: Schema,
    counters: Map<u32, i64>,
    entries: Seq<Seq<u8>>,
    d: DatomView,
)
    requires
        datoms.contains(d),
        old_value(d, schema, counters, entries) == Ok::<Option<Value>, ErrorView>(None),
    ensures
        committed(datoms, schema, counters, entries).contains(d),
{
    let n = datoms.index_of(d);
    assert(datoms.take(n + 1).last() == d);
    lemma_with_new(committed(datoms.take(n + 1).drop_last(), schema, counters, entries), d);
    lemma_committed_grows(datoms, schema, counters, entries, n + 1, d);
}

/// Nothing is written twice, and what is written was either asked for, and says something new, or
/// retracts the old value of something that was.
pub proof fn law_written(
    datoms: Seq<DatomView>,
    schema: Schema,
    counters: Map<u32, i64>,
    entries: Seq<Seq<u8>>,
)
    ensures
        committed(datoms, schema, counters, entries).no_duplicates(),
        forall|x: DatomView|
            #![trigger committed(datoms, schema, counters, entries).contains(x)]
            committed(datoms, schema, counters, entries).contains(x) ==> {
                ||| datoms.contains(x) && old_value(x, schema, counters, entries) != Ok::<
                    Option<Value>,
                    ErrorView,
                >(Some(x.value))
                ||| exists|i: int|
                    0 <= i < datoms.len() && x.op == DatomOp::Retract && x == retraction(
                        #[trigger] datoms[i],
                        x.value,
                    ) && x.value != datoms[i].value && old_value(
                        datoms[i],
                        schema,
                        counters,
                        entries,
                    ) == Ok::<Option<Value>, ErrorView>(Some(x.value))
            },
    decreases datoms.len(),
{
    if datoms.len() > 0 {
        let shorter = datoms.drop_last();
        law_written(shorter, schema, counters, entries);
        let before = committed(shorter, schema, counters, entries);
        let d = datoms.last();
        lemma_with_new(before, d);
        match old_value(d, schema, counters, entries) {
            Ok(Some(v)) => {
                lemma_with_new(before, retraction(d, v));
                lemma_with_new(with_new(before, retraction(d, v)), d);
            },
            _ => {},
        }
        assert forall|x: DatomView|
            #![trigger committed(datoms, schema, counters, entries).contains(x)]
            committed(datoms, schema, counters, entries).contains(x) implies {
            ||| datoms.contains(x) && old_value(x, schema, counters, entries) != Ok::<
                Option<Value>,
                ErrorView,
            >(Some(x.value))
            ||| exists|i: int|
                0 <= i < datoms.len() && x.op == DatomOp::Retract && x == retraction(
                    #[trigger] datoms[i],
                    x.value,
                ) && x.value != datoms[i].value && old_value(datoms[i], schema, counters, entries)
                    == Ok::<Option<Value>, ErrorView>(Some(x.value))
        } by {
            if before.contains(x) {
                if shorter.contains(x) && old_value(x, schema, counters, entries) != Ok::<
                    Option<Value>,
                    ErrorView,
                >(Some(x.value)) {
                    assert(datoms[shorter.index_of(x)] == x);
                } else {
                    let i = choose|i: int|
                        0 <= i < shorter.len() && x.op == DatomOp::Retract && x == retraction(
                            #[trigger] shorter[i],
                            x.value,
                        ) && x.value != shorter[i].value && old_value(
                            shorter[i],
                            schema,
                            counters,
                            entries,
                        ) == Ok::<Option<Value>, ErrorView>(Some(x.value));
                    assert(datoms[i] == shorter[i]);
                }
            } else {
                assert(datoms[datoms.len() - 1] == d);
            }
        }
    }
}

/// A fact of a unique attribute that is asserted: attribute, value and entity.
pub struct UniqueClaim {
    pub ident: Seq<char>,
    pub attribute: i64,
    pub value: Value,
    pub entity: i64,
}

/// What a fact claims, if it asserts a unique value.
pub open spec fn claim(d: DatomView, schema: Schema) -> Option<UniqueClaim> {
    if d.op != DatomOp::Assert {
        None
    } else {
        match schema.find(d.attribute) {
            Some(info) => if info.unique {
                Some(
                    UniqueClaim {
                        ident: d.attribute,
                        attribute: info.id,
                        value: d.value,
                        entity: d.entity,
                    },
                )
            } else {
                None
            },
            None => None,
        }
    }
}

/// What facts claim.
pub open spec fn claims(datoms: Seq<DatomView>, schema: Schema) -> Seq<UniqueClaim>
    decreases datoms.len(),
{
    if datoms.len() == 0 {
        Seq::empty()
    } else {
        let before = claims(datoms.drop_last(), schema);
        match claim(datoms.last(), schema) {
            Some(c) => before.push(c),
            None => before,
        }
    }
}

/// Whether two claim the same value for different entities.
pub open spec fn conflict(a: UniqueClaim, b: UniqueClaim) -> bool {
    a.attribute == b.attribute && a.value == b.value && a.entity != b.entity
}

/// The first entity for which claims have the value of another one.
pub open spec fn rival(before: Seq<UniqueClaim>, c: UniqueClaim) -> Option<i64>
    decreases before.len(),
{
    if before.len() == 0 {
        None
    } else {
        match rival(before.drop_last(), c) {
            Some(entity) => Some(entity),
            None => if conflict(before.last(), c) {
                Some(before.last().entity)
            } else {
                None
            },
        }
    }
}

/// There is a rival exactly where a claim conflicts; the first one decides.
proof fn lemma_rival(before: Seq<UniqueClaim>, c: UniqueClaim, k: int)
    requires
        0 <= k <= before.len(),
        forall|j: int| 0 <= j < k ==> !conflict(#[trigger] before[j], c),
        k < before.len() ==> conflict(before[k], c),
    ensures
        rival(before, c) == (if k < before.len() {
            Some(before[k].entity)
        } else {
            None
        }),
    decreases before.len(),
{
    if before.len() > 0 {
        let front = before.drop_last();
        if k < front.len() {
            assert(front[k] == before[k]);
            lemma_rival(front, c, k);
        } else {
            lemma_rival(front, c, front.len() as int);
        }
    }
}

/// Without a rival nobody conflicts.
proof fn lemma_no_rival(before: Seq<UniqueClaim>, c: UniqueClaim, i: int)
    requires
        0 <= i < before.len(),
        rival(before, c) is None,
    ensures
        !conflict(before[i], c),
    decreases before.len(),
{
    if i < before.len() - 1 {
        lemma_no_rival(before.drop_last(), c, i);
    }
}

/// The first fault of facts by themselves: an assertion with an unknown attribute, or two
/// assertions of a unique value for different entities.
pub open spec fn batch_fault(datoms: Seq<DatomView>, schema: Schema) -> Option<ErrorView>
    decreases datoms.len(),
{
    if datoms.len() == 0 {
        None
    } else {
        match batch_fault(datoms.drop_last(), schema) {
            Some(e) => Some(e),
            None => {
                let d = datoms.last();
                if d.op == DatomOp::Assert && schema.find(d.attribute) is None {
                    Some(ErrorView::UnknownAttribute(d.attribute))
                } else {
                    match claim(d, schema) {
                        Some(c) => match rival(claims(datoms.drop_last(), schema), c) {
                            Some(other) => Some(
                                ErrorView::UniqueConflict(d.attribute, d.value, other, d.entity),
                            ),
                            None => None,
                        },
                        None => None,
                    }
                }
            },
        }
    }
}

/// Whether facts retract a unique value of an entity.
pub open spec fn retracts(
    datoms: Seq<DatomView>,
    schema: Schema,
    entity: i64,
    attribute: i64,
    value: Value,
) -> bool {
    exists|i: int|
        0 <= i < datoms.len() && (#[trigger] datoms[i]).op == DatomOp::Retract && datoms[i].entity
            == entity && datoms[i].value == value && (match schema.find(datoms[i].attribute) {
            Some(info) => info.unique && info.id == attribute,
            None => false,
        })
}

/// Whether a claimed value belongs to another entity, which does not give it up.
pub open spec fn taken(
    datoms: Seq<DatomView>,
    schema: Schema,
    c: UniqueClaim,
    owner: Option<i64>,
) -> bool {
    match owner {
        Some(o) => o != c.entity && !retracts(datoms, schema, o, c.attribute, c.value),
        None => false,
    }
}

/// What is looked up of facts: unique attributes with values, in the order of the facts.
pub open spec fn lookups_of(found: Seq<(i64, DataType, i64, Keyword)>) -> Seq<UniqueClaim> {
    Seq::new(
        found.len(),
        |i: int|
            UniqueClaim {
                ident: found[i].3@,
                attribute: found[i].0,
                value: found[i].1@,
                entity: found[i].2,
            },
    )
}

/// A fault of the first facts is a fault of all of them.
proof fn lemma_batch_fault(datoms: Seq<DatomView>, schema: Schema, n: int)
    requires
        0 <= n <= datoms.len(),
        batch_fault(datoms.take(n), schema) is Some,
    ensures
        batch_fault(datoms, schema) == batch_fault(datoms.take(n), schema),
    decreases datoms.len(),
{
    if n == datoms.len() {
        assert(datoms.take(n) =~= datoms);
    } else {
        assert(datoms.drop_last().take(n) =~= datoms.take(n));
        lemma_batch_fault(datoms.drop_last(), schema, n);
    }
}

/// Facts without a fault assert no unique value for two entities.
pub proof fn law_claims_agree(datoms: Seq<DatomView>, schema: Schema, i: int, j: int)
    requires
        batch_fault(datoms, schema) is None,
        0 <= i < j < claims(datoms, schema).len(),
    ensures
        !conflict(claims(datoms, schema)[i], claims(datoms, schema)[j]),
    decreases datoms.len(),
{
    let before = claims(datoms.drop_last(), schema);
    if j < before.len() {
        law_claims_agree(datoms.drop_last(), schema, i, j);
    } else {
        assert(claims(datoms, schema)[i] == before[i]);
        lemma_no_rival(before, claims(datoms, schema)[j], i);
    }
}

/// The unique values that facts assert, with their attributes and entities: their owners are to
/// be looked up. Two assertions of one value for different entities are refused.
pub fn unique_lookups(datoms: &[Datom], schema: &Schema) -> (r: Result<
    Vec<(i64, DataType, i64, Keyword)>,
    Error,
>)
    ensures
        match r {
            Ok(found) => batch_fault(datoms.deep_view(), *schema) is None && lookups_of(found@)
                == claims(datoms.deep_view(), *schema),
            Err(e) => batch_fault(datoms.deep_view(), *schema) == Some(e@),
        },
{
    let ghost facts = datoms.deep_view();
    assert(facts.len() == datoms@.len());
    let mut found: Vec<(i64, DataType, i64, Keyword)> = Vec::new();
    let mut i: usize = 0;
    assert(facts.take(0) =~= Seq::empty());
    assert(lookups_of(found@) =~= claims(facts.take(0), *schema));
    while i < datoms.len()
        invariant
            i <= datoms@.len() == facts.len(),
            facts == datoms.deep_view(),
            batch_fault(facts.take(i as int), *schema) is None,
            lookups_of(found@) == claims(facts.take(i as int), *schema),
        decreases datoms@.len() - i,
    {
        let ghost d = facts[i as int];
        let ghost before = claims(facts.take(i as int), *schema);
        proof {
            assert(d == datoms@[i as int]@);
            assert(facts.take(i + 1).drop_last() =~= facts.take(i as int));
            assert(facts.take(i + 1).last() == d);
        }
        if datoms[i].op == DatomOp::Assert {
            let info = match schema.get_attribute(&datoms[i].attribute) {
                Some(info) => info,
                None => {
                    proof {
                        lemma_batch_fault(facts, *schema, i + 1);
                    }
                    return Err(Error::UnknownAttribute(datoms[i].attribute.name.clone()));
                },
            };
            if info.unique {
                let ghost c = claim(d, *schema).unwrap();
                let mut k: usize = 0;
                while k < found.len()
                    invariant
                        k <= found@.len(),
                        i < datoms@.len() == facts.len(),
                        facts == datoms.deep_view(),
                        d == datoms@[i as int]@,
                        facts.take(i + 1).drop_last() == facts.take(i as int),
                        facts.take(i + 1).last() == d,
                        before == claims(facts.take(i as int), *schema),
                        lookups_of(found@) == before,
                        batch_fault(facts.take(i as int), *schema) is None,
                        d.op == DatomOp::Assert,
                        schema.find(d.attribute) == Some(info),
                        claim(d, *schema) == Some(c),
                        c.attribute == info.id,
                        c.value == d.value,
                        c.entity == d.entity,
                        c.ident == d.attribute,
                        forall|j: int| 0 <= j < k ==> !conflict(#[trigger] before[j], c),
                    decreases found@.len() - k,
                {
                    assert(before[k as int] == lookups_of(found@)[k as int]);
                    if found[k].0 == info.id && found[k].2 != datoms[i].entity && found[k].1.same(
                        &datoms[i].value,
                    ) {
                        proof {
                            lemma_rival(before, c, k as int);
                            lemma_batch_fault(facts, *schema, i + 1);
                        }
                        return Err(
                            Error::UniqueConflict(
                                datoms[i].attribute.name.clone(),
                                datoms[i].value.clone(),
                                found[k].2,
                                datoms[i].entity,
                            ),
                        );
                    }
                    k += 1;
                }
                assert(before.len() == found@.len());
                let ghost earlier = found@;
                proof {
                    lemma_rival(before, c, before.len() as int);
                }
                found.push(
                    (
                        info.id,
                        datoms[i].value.clone(),
                        datoms[i].entity,
                        datoms[i].attribute.clone(),
                    ),
                );
                proof {
                    assert(lookups_of(found@) =~= lookups_of(earlier).push(c));
                }
            }
        }
        i += 1;
    }
    assert(facts.take(i as int) =~= facts);
    Ok(found)
}

/// Whether facts retract a unique value of an entity.
fn gives_up(
    datoms: &[Datom],
    schema: &Schema,
    entity: i64,
    attribute: i64,
    value: &DataType,
) -> (r: bool)
    ensures
        r == retracts(datoms.deep_view(), *schema, entity, attribute, value@),
{
    let ghost facts = datoms.deep_view();
    assert(facts.len() == datoms@.len());
    let mut i: usize = 0;
    while i < datoms.len()
        invariant
            i <= datoms@.len() == facts.len(),
            facts == datoms.deep_view(),
            forall|j: int|
                0 <= j < i ==> !((#[trigger] facts[j]).op == DatomOp::Retract && facts[j].entity
                    == entity && facts[j].value == value@ && (match schema.find(
                    facts[j].attribute,
                ) {
                    Some(info) => info.unique && info.id == attribute,
                    None => false,
                })),
        decreases datoms@.len() - i,
    {
        assert(facts[i as int] == datoms@[i as int]@);
        if datoms[i].op == DatomOp::Retract && datoms[i].entity == entity && datoms[i].value.same(
            value,
        ) {
            match schema.get_attribute(&datoms[i].attribute) {
                Some(info) => {
                    if info.unique && info.id == attribute {
                        return true;
                    }
                },
                None => {},
            }
        }
        i += 1;
    }
    false
}

/// Whether a claim is the first one whose value belongs to another entity.
pub open spec fn owned_first(
    datoms: Seq<DatomView>,
    schema: Schema,
    owners: Seq<Option<i64>>,
    k: int,
) -> bool {
    &&& taken(datoms, schema, claims(datoms, schema)[k], owners[k])
    &&& forall|j: int|
        0 <= j < k ==> !taken(datoms, schema, claims(datoms, schema)[j], #[trigger] owners[j])
}

/// Whether unique values stay unique, where the owners of the asserted ones are these: a value
/// that another entity has, and does not give up with the same facts, is refused.
pub fn validate_unique_constraints(
    datoms: &[Datom],
    schema: &Schema,
    owners: &[Option<i64>],
) -> (r: Result<(), Error>)
    requires
        owners@.len() == claims(datoms.deep_view(), *schema).len(),
    ensures
        match r {
            Ok(_) => batch_fault(datoms.deep_view(), *schema) is None && forall|k: int|
                0 <= k < owners@.len() ==> !taken(
                    datoms.deep_view(),
                    *schema,
                    claims(datoms.deep_view(), *schema)[k],
                    #[trigger] owners@[k],
                ),
            Err(e) => match batch_fault(datoms.deep_view(), *schema) {
                Some(fault) => e@ == fault,
                None => exists|k: int|
                    0 <= k < owners@.len() && owned_first(
                        datoms.deep_view(),
                        *schema,
                        owners@,
                        k,
                    ) && e@ == ErrorView::UniqueOwned(
                        claims(datoms.deep_view(), *schema)[k].ident,
                        claims(datoms.deep_view(), *schema)[k].value,
                        (#[trigger] owners@[k]).unwrap(),
                    ),
            },
        },
{
    let ghost facts = datoms.deep_view();
    let found = match unique_lookups(datoms, schema) {
        Ok(found) => found,
        Err(e) => {
            return Err(e);
        },
    };
    let ghost all = claims(facts, *schema);
    assert(found@.len() == lookups_of(found@).len());
    let mut k: usize = 0;
    while k < owners.len()
        invariant
            k <= owners@.len() == found@.len(),
            facts == datoms.deep_view(),
            all == claims(facts, *schema),
            lookups_of(found@) == all,
            batch_fault(facts, *schema) is None,
            forall|j: int|
                0 <= j < k ==> !taken(facts, *schema, all[j], #[trigger] owners@[j]),
        decreases owners@.len() - k,
    {
        assert(all[k as int] == lookups_of(found@)[k as int]);
        match owners[k] {
            Some(owner) => {
                if owner != found[k].2 && !gives_up(
                    datoms,
                    schema,
                    owner,
                    found[k].0,
                    &found[k].1,
                ) {
                    assert(owned_first(facts, *schema, owners@, k as int));
                    return Err(
                        Error::UniqueOwned(
                            found[k].3.name.clone(),
                            found[k].1.clone(),
                            owner,
                        ),
                    );
                }
            },
            None => {},
        }
        k += 1;
    }
    Ok(())
}

} // verus!
