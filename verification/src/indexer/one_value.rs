//! An attribute with one value has one value after every transaction.

use vstd::prelude::*;

use crate::byte_string;
use crate::codec;
use crate::error::ErrorView;
use crate::indexer::basis::{self, IndexedFact};
use crate::indexer::commit;
use crate::indexer::keys;
use crate::indexer::laws;
use crate::iterator::temporal_filter_iterator;
use crate::metadata;
use crate::ops::{DatomOp, DatomView};
use crate::schema::Schema;
use crate::value::Value;

verus! {

/// Whether a fact in the index is of that entity and attribute, with that value.
pub open spec fn says(f: IndexedFact, entity: i64, attribute: i64, value: Value) -> bool {
    f.entity == entity && f.attribute == attribute && f.value == value
}

/// Whether a fact in the index is newer than another: by its transaction, and in one transaction a
/// retraction counts more than an assertion.
pub open spec fn newer_fact(a: IndexedFact, b: IndexedFact) -> bool {
    a.tx_eid > b.tx_eid || (a.tx_eid == b.tx_eid && a.op < b.op)
}

/// Whether the fact at a place decides that it holds as of a transaction.
pub open spec fn decides(
    facts: Seq<IndexedFact>,
    i: int,
    entity: i64,
    attribute: i64,
    value: Value,
    as_of: i64,
) -> bool {
    &&& says(facts[i], entity, attribute, value)
    &&& facts[i].tx_eid <= as_of
    &&& facts[i].op != codec::RETRACT
    &&& forall|j: int|
        0 <= j < facts.len() && says(#[trigger] facts[j], entity, attribute, value)
            && facts[j].tx_eid <= as_of ==> !newer_fact(facts[j], facts[i])
}

/// What keys say tells their facts apart.
proof fn lemma_logical_apart(e: i64, a: i64, v: Value, f: i64, b: i64, w: Value)
    ensures
        (laws::vnv_logical(codec::EAV, Value::Long(e), a, v) == laws::vnv_logical(
            codec::EAV,
            Value::Long(f),
            b,
            w,
        )) == (e == f && a == b && v == w),
{
    keys::law_eav_key_round_trip(Value::Long(e), a, v, 0, 0);
    keys::law_eav_key_round_trip(Value::Long(f), b, w, 0, 0);
    if laws::vnv_logical(codec::EAV, Value::Long(e), a, v) == laws::vnv_logical(
        codec::EAV,
        Value::Long(f),
        b,
        w,
    ) {
        assert(keys::eav_key(Value::Long(e), a, v, 0, 0) == keys::eav_key(
            Value::Long(f),
            b,
            w,
            0,
            0,
        ));
    }
}

/// A fact holds exactly if one of its versions decides so.
pub proof fn lemma_holds(
    facts: Seq<IndexedFact>,
    entity: i64,
    attribute: i64,
    value: Value,
    as_of: i64,
)
    ensures
        laws::fact_holds(facts, entity, attribute, value, as_of) == exists|i: int|
            0 <= i < facts.len() && #[trigger] decides(facts, i, entity, attribute, value, as_of),
{
    let versions = laws::versions_of(facts);
    let logical = laws::vnv_logical(codec::EAV, Value::Long(entity), attribute, value);
    assert forall|i: int| 0 <= i < facts.len() implies ((#[trigger] versions[i]).logical
        == logical) == says(facts[i], entity, attribute, value) by {
        lemma_logical_apart(
            facts[i].entity,
            facts[i].attribute,
            facts[i].value,
            entity,
            attribute,
            value,
        );
    }
    if laws::fact_holds(facts, entity, attribute, value, as_of) {
        let i = choose|i: int|
            0 <= i < versions.len() && (#[trigger] versions[i]).logical == logical
                && versions[i].tx_eid <= as_of && versions[i].op != codec::RETRACT && forall|
                j: int,
            |
                0 <= j < versions.len() && (#[trigger] versions[j]).logical == logical
                    && versions[j].tx_eid <= as_of ==> !laws::newer(versions[j], versions[i]);
        assert forall|j: int|
            0 <= j < facts.len() && says(#[trigger] facts[j], entity, attribute, value)
                && facts[j].tx_eid <= as_of implies !newer_fact(facts[j], facts[i]) by {
            assert(versions[j].logical == logical);
        }
        assert(decides(facts, i, entity, attribute, value, as_of));
    }
    if exists|i: int|
        0 <= i < facts.len() && #[trigger] decides(facts, i, entity, attribute, value, as_of) {
        let i = choose|i: int|
            0 <= i < facts.len() && #[trigger] decides(
                facts,
                i,
                entity,
                attribute,
                value,
                as_of,
            );
        assert(versions[i].logical == logical);
        assert forall|j: int|
            0 <= j < versions.len() && (#[trigger] versions[j]).logical == logical
                && versions[j].tx_eid <= as_of implies !laws::newer(versions[j], versions[i]) by {
            assert(says(facts[j], entity, attribute, value));
        }
    }
}

/// What is visible of an entity's attribute are the values that hold.
proof fn lemma_visible_value(
    facts: Seq<IndexedFact>,
    entity: i64,
    attribute: i64,
    as_of: i64,
    entry: Seq<u8>,
) -> (value: Value)
    requires
        laws::ascending(basis::keys_of(facts)),
        temporal_filter_iterator::visible_from(
            basis::keys_of(facts),
            codec::i64_bytes(as_of),
            1,
            0,
        ).contains(entry),
        byte_string::begins_with(entry, commit::fact_prefix(entity, attribute)),
    ensures
        entry == commit::fact_prefix(entity, attribute) + codec::encoding(value),
        laws::fact_holds(facts, entity, attribute, value, as_of),
{
    let raw = basis::keys_of(facts);
    let list = temporal_filter_iterator::visible_from(raw, codec::i64_bytes(as_of), 1, 0);
    let n = list.index_of(entry);
    let q = temporal_filter_iterator::lemma_visible_source(
        raw,
        codec::i64_bytes(as_of),
        1,
        0,
        n,
    );
    let f = facts[q];
    let own = commit::fact_prefix(f.entity, f.attribute);
    codec::law_i64_order(f.tx_eid, f.tx_eid);
    codec::law_i64_order(f.entity, entity);
    codec::law_i64_order(f.attribute, attribute);
    codec::law_i64_order(entity, f.entity);
    codec::law_i64_order(attribute, f.attribute);
    assert(entry =~= own + codec::encoding(f.value));
    let wanted = commit::fact_prefix(entity, attribute);
    assert(own.len() == wanted.len());
    assert(entry.take(wanted.len() as int) =~= own);
    assert(own.subrange(1, 9) =~= codec::i64_bytes(f.entity));
    assert(wanted.subrange(1, 9) =~= codec::i64_bytes(entity));
    assert(own.subrange(9, 17) =~= codec::i64_bytes(f.attribute));
    assert(wanted.subrange(9, 17) =~= codec::i64_bytes(attribute));
    laws::law_read_gives_what_was_written(facts, entity, attribute, f.value, as_of);
    assert(entry =~= codec::encoding(Value::Long(entity)) + codec::i64_bytes(attribute)
        + codec::encoding(f.value));
    f.value
}

/// What follows a prefix comes from an entry, and where an entry begins with the prefix, something
/// follows it.
pub proof fn lemma_first_rest(entries: Seq<Seq<u8>>, prefix: Seq<u8>)
    ensures
        match commit::first_rest(entries, prefix) {
            Some(rest) => exists|i: int|
                0 <= i < entries.len() && #[trigger] entries[i] == prefix + rest,
            None => forall|i: int|
                0 <= i < entries.len() ==> !byte_string::begins_with(
                    #[trigger] entries[i],
                    prefix,
                ),
        },
    decreases entries.len(),
{
    if entries.len() > 0 {
        if byte_string::begins_with(entries[0], prefix) {
            assert(entries[0] =~= prefix + entries[0].skip(prefix.len() as int));
        } else {
            let rest = entries.drop_first();
            lemma_first_rest(rest, prefix);
            match commit::first_rest(rest, prefix) {
                Some(r) => {
                    let i = choose|i: int| 0 <= i < rest.len() && #[trigger] rest[i] == prefix + r;
                    assert(entries[i + 1] == prefix + r);
                },
                None => {
                    assert forall|i: int| 0 <= i < entries.len() implies !byte_string::begins_with(
                        #[trigger] entries[i],
                        prefix,
                    ) by {
                        if i > 0 {
                            assert(rest[i - 1] == entries[i]);
                        }
                    }
                },
            }
        }
    }
}

/// Whether an entity's attribute has at most one value as of a transaction.
pub open spec fn at_most_one(
    facts: Seq<IndexedFact>,
    entity: i64,
    attribute: i64,
    as_of: i64,
) -> bool {
    forall|v: Value, w: Value|
        #![trigger laws::fact_holds(facts, entity, attribute, v, as_of), laws::fact_holds(facts, entity, attribute, w, as_of)]
        laws::fact_holds(facts, entity, attribute, v, as_of) && laws::fact_holds(
            facts,
            entity,
            attribute,
            w,
            as_of,
        ) ==> v == w
}

/// The visible facts by entity, attribute and value, as of the latest transaction.
pub open spec fn current_entries(facts: Seq<IndexedFact>) -> Seq<Seq<u8>> {
    temporal_filter_iterator::visible_from(
        basis::keys_of(facts),
        codec::i64_bytes(i64::MAX),
        1,
        0,
    )
}

/// The old value of an asserted fact is the value that its attribute has.
pub proof fn law_old_value_is_current(
    facts: Seq<IndexedFact>,
    d: DatomView,
    schema: Schema,
    counters: Map<u32, i64>,
    attribute: i64,
)
    requires
        laws::ascending(basis::keys_of(facts)),
        at_most_one(facts, d.entity, attribute, i64::MAX),
        commit::asks(d, schema, counters) == Some(commit::fact_prefix(d.entity, attribute)),
    ensures
        match commit::old_value(d, schema, counters, current_entries(facts)) {
            Ok(Some(v)) => laws::fact_holds(facts, d.entity, attribute, v, i64::MAX),
            Ok(None) => forall|v: Value|
                !#[trigger] laws::fact_holds(facts, d.entity, attribute, v, i64::MAX),
            Err(_) => false,
        },
{
    let entries = current_entries(facts);
    let prefix = commit::fact_prefix(d.entity, attribute);
    lemma_first_rest(entries, prefix);
    match commit::first_rest(entries, prefix) {
        Some(rest) => {
            let i = choose|i: int|
                0 <= i < entries.len() && #[trigger] entries[i] == prefix + rest;
            assert(entries[i].take(prefix.len() as int) =~= prefix);
            let v = lemma_visible_value(facts, d.entity, attribute, i64::MAX, entries[i]);
            assert(rest =~= (prefix + rest).skip(prefix.len() as int));
            assert(codec::encoding(v) =~= (prefix + codec::encoding(v)).skip(
                prefix.len() as int,
            ));
            codec::law_decode_encoded(v, Seq::empty());
            assert(codec::encoding(v) + Seq::<u8>::empty() =~= rest);
        },
        None => {
            assert forall|v: Value|
                !#[trigger] laws::fact_holds(facts, d.entity, attribute, v, i64::MAX) by {
                if laws::fact_holds(facts, d.entity, attribute, v, i64::MAX) {
                    laws::law_read_gives_what_was_written(
                        facts,
                        d.entity,
                        attribute,
                        v,
                        i64::MAX,
                    );
                    let entry = prefix + codec::encoding(v);
                    assert(entries.contains(entry));
                    let i = entries.index_of(entry);
                    assert(entries[i].take(prefix.len() as int) =~= prefix);
                    assert(byte_string::begins_with(entries[i], prefix));
                }
            }
        },
    }
}

/// A written fact in the index.
pub open spec fn indexed(x: DatomView, schema: Schema, tx_eid: i64) -> IndexedFact {
    IndexedFact {
        entity: x.entity,
        attribute: schema.find(x.attribute).unwrap().id,
        value: x.value,
        tx_eid,
        op: keys::op_byte(x.op),
    }
}

/// The facts in the index with what a transaction wrote.
pub open spec fn with_written(
    facts: Seq<IndexedFact>,
    written: Seq<DatomView>,
    schema: Schema,
    tx_eid: i64,
) -> Seq<IndexedFact> {
    facts + Seq::new(written.len(), |i: int| indexed(written[i], schema, tx_eid))
}

/// Whether different attributes have different numbers.
pub open spec fn numbers_apart(schema: Schema) -> bool {
    forall|a: Seq<char>, b: Seq<char>|
        #![trigger schema.find(a), schema.find(b)]
        schema.find(a) is Some && schema.find(b) is Some && schema.find(a).unwrap().id
            == schema.find(b).unwrap().id ==> a == b
}

/// Whether a transaction gives an attribute of an entity one value and does not take that value
/// back.
pub open spec fn gives_one(datoms: Seq<DatomView>, d: DatomView) -> bool {
    &&& datoms.contains(d)
    &&& d.op == DatomOp::Assert
    &&& forall|i: int|
        0 <= i < datoms.len() && (#[trigger] datoms[i]).entity == d.entity && datoms[i].attribute
            == d.attribute ==> (datoms[i].op == DatomOp::Assert <==> datoms[i].value == d.value)
}

/// What a transaction wrote of the attribute: no other value is asserted, and the given one is not
/// retracted.
proof fn lemma_written(
    datoms: Seq<DatomView>,
    schema: Schema,
    counters: Map<u32, i64>,
    entries: Seq<Seq<u8>>,
    d: DatomView,
    x: DatomView,
)
    requires
        gives_one(datoms, d),
        commit::committed(datoms, schema, counters, entries).contains(x),
        x.entity == d.entity,
        x.attribute == d.attribute,
    ensures
        (x.op == DatomOp::Assert) == (x.value == d.value),
        x.op == DatomOp::Assert ==> x == d,
{
    commit::law_written(datoms, schema, counters, entries);
    if datoms.contains(x) {
        let i = datoms.index_of(x);
        assert(datoms[i] == x);
    } else {
        let i = choose|i: int|
            0 <= i < datoms.len() && x.op == DatomOp::Retract && x == commit::retraction(
                #[trigger] datoms[i],
                x.value,
            ) && x.value != datoms[i].value && commit::old_value(
                datoms[i],
                schema,
                counters,
                entries,
            ) == Ok::<Option<Value>, ErrorView>(Some(x.value));
        assert(datoms[i].op == DatomOp::Assert);
        assert(datoms[i].value == d.value);
    }
}

/// The attribute of an asserted fact, if it has one value, has exactly that value after the
/// transaction.
pub proof fn law_one_value(
    facts: Seq<IndexedFact>,
    datoms: Seq<DatomView>,
    schema: Schema,
    counters: Map<u32, i64>,
    d: DatomView,
    tx_eid: i64,
    as_of: i64,
    w: Value,
)
    requires
        laws::ascending(basis::keys_of(facts)),
        forall|i: int| 0 <= i < facts.len() ==> (#[trigger] facts[i]).tx_eid < tx_eid,
        tx_eid <= as_of,
        numbers_apart(schema),
        keys::all_known(
            commit::committed(datoms, schema, counters, current_entries(facts)),
            schema,
        ),
        gives_one(datoms, d),
        schema.find(d.attribute) is Some,
        !schema.find(d.attribute).unwrap().multival,
        metadata::given_out(counters, d.entity as int),
        at_most_one(facts, d.entity, schema.find(d.attribute).unwrap().id, i64::MAX),
    ensures
        laws::fact_holds(
            with_written(
                facts,
                commit::committed(datoms, schema, counters, current_entries(facts)),
                schema,
                tx_eid,
            ),
            d.entity,
            schema.find(d.attribute).unwrap().id,
            w,
            as_of,
        ) == (w == d.value),
{
    let a = schema.find(d.attribute).unwrap().id;
    let entries = current_entries(facts);
    let written = commit::committed(datoms, schema, counters, entries);
    let after = with_written(facts, written, schema, tx_eid);
    let n = facts.len() as int;
    law_old_value_is_current(facts, d, schema, counters, a);
    assert forall|k: int|
        n <= k < after.len() && (#[trigger] after[k]).entity == d.entity && after[k].attribute
            == a implies {
        &&& after[k].op == codec::ADD ==> after[k].value == d.value
        &&& after[k].value == d.value ==> after[k].op == codec::ADD
        &&& after[k].tx_eid == tx_eid
        &&& after[k].value == d.value ==> written.contains(d)
    } by {
        let x = written[k - n];
        assert(after[k] == indexed(x, schema, tx_eid));
        assert(schema.find(x.attribute) is Some);
        assert(x.attribute == d.attribute);
        assert(written.contains(x));
        lemma_written(datoms, schema, counters, entries, d, x);
    }
    lemma_holds(after, d.entity, a, w, as_of);
    lemma_holds(facts, d.entity, a, w, i64::MAX);
    if w == d.value {
        match commit::old_value(d, schema, counters, entries) {
            Ok(Some(v)) => {
                if v == d.value {
                    let i = choose|i: int|
                        0 <= i < facts.len() && #[trigger] decides(
                            facts,
                            i,
                            d.entity,
                            a,
                            w,
                            i64::MAX,
                        );
                    assert(after[i] == facts[i]);
                    assert forall|j: int|
                        0 <= j < after.len() && says(#[trigger] after[j], d.entity, a, w)
                            && after[j].tx_eid <= as_of implies !newer_fact(
                        after[j],
                        after[i],
                    ) by {
                        if j < n {
                            assert(facts[j] == after[j]);
                        } else {
                            assert(written.contains(d));
                            commit::law_written(datoms, schema, counters, entries);
                        }
                    }
                    assert(decides(after, i, d.entity, a, w, as_of));
                } else {
                    commit::law_overwrite_retracts(datoms, schema, counters, entries, d, v);
                    lemma_new_decides(facts, written, schema, d, tx_eid, as_of);
                }
            },
            Ok(None) => {
                commit::law_new_kept(datoms, schema, counters, entries, d);
                lemma_new_decides(facts, written, schema, d, tx_eid, as_of);
            },
            Err(_) => {},
        }
    } else if laws::fact_holds(after, d.entity, a, w, as_of) {
        let i = choose|i: int|
            0 <= i < after.len() && #[trigger] decides(after, i, d.entity, a, w, as_of);
        assert(i < n);
        assert(after[i] == facts[i]);
        assert forall|j: int|
            0 <= j < facts.len() && says(#[trigger] facts[j], d.entity, a, w) && facts[j].tx_eid
                <= i64::MAX implies !newer_fact(facts[j], facts[i]) by {
            assert(after[j] == facts[j]);
        }
        assert(decides(facts, i, d.entity, a, w, i64::MAX));
        match commit::old_value(d, schema, counters, entries) {
            Ok(Some(v)) => {
                assert(v == w);
                commit::law_overwrite_retracts(datoms, schema, counters, entries, d, v);
                let x = commit::retraction(d, v);
                let k = n + written.index_of(x);
                assert(after[k] == indexed(x, schema, tx_eid));
                assert(says(after[k], d.entity, a, w));
                assert(newer_fact(after[k], after[i]));
            },
            _ => {},
        }
    }
}

/// What a transaction asserts last decides.
proof fn lemma_new_decides(
    facts: Seq<IndexedFact>,
    written: Seq<DatomView>,
    schema: Schema,
    d: DatomView,
    tx_eid: i64,
    as_of: i64,
)
    requires
        forall|i: int| 0 <= i < facts.len() ==> (#[trigger] facts[i]).tx_eid < tx_eid,
        tx_eid <= as_of,
        written.contains(d),
        d.op == DatomOp::Assert,
        ({
            let after = with_written(facts, written, schema, tx_eid);
            let a = schema.find(d.attribute).unwrap().id;
            forall|k: int|
                facts.len() <= k < after.len() && (#[trigger] after[k]).entity == d.entity
                    && after[k].attribute == a && after[k].value == d.value ==> after[k].op
                    == codec::ADD
        }),
    ensures
        laws::fact_holds(
            with_written(facts, written, schema, tx_eid),
            d.entity,
            schema.find(d.attribute).unwrap().id,
            d.value,
            as_of,
        ),
{
    let after = with_written(facts, written, schema, tx_eid);
    let a = schema.find(d.attribute).unwrap().id;
    let n = facts.len() as int;
    let k = n + written.index_of(d);
    assert(after[k] == indexed(d, schema, tx_eid));
    assert forall|j: int|
        0 <= j < after.len() && says(#[trigger] after[j], d.entity, a, d.value) && after[j].tx_eid
            <= as_of implies !newer_fact(after[j], after[k]) by {
        if j < n {
            assert(after[j] == facts[j]);
        } else {
            assert(after[j] == indexed(written[j - n], schema, tx_eid));
        }
    }
    lemma_holds(after, d.entity, a, d.value, as_of);
    assert(decides(after, k, d.entity, a, d.value, as_of));
}

/// A transaction that gives an attribute of an entity one value: its facts, under which schema and
/// counters it is written, the fact that gives the value, and the entity of the transaction.
pub struct Write {
    pub datoms: Seq<DatomView>,
    pub schema: Schema,
    pub counters: Map<u32, i64>,
    pub given: DatomView,
    pub tx_eid: i64,
}

impl Write {
    /// The number of the attribute.
    pub open spec fn attribute(self) -> i64 {
        self.schema.find(self.given.attribute).unwrap().id
    }

    /// What is written where the index holds some facts.
    pub open spec fn written(self, facts: Seq<IndexedFact>) -> Seq<DatomView> {
        commit::committed(self.datoms, self.schema, self.counters, current_entries(facts))
    }

    /// Whether the transaction comes behind the facts, knows its attributes and gives the one
    /// value of an attribute with one value.
    pub open spec fn fits(self, facts: Seq<IndexedFact>) -> bool {
        &&& laws::ascending(basis::keys_of(facts))
        &&& forall|i: int| 0 <= i < facts.len() ==> (#[trigger] facts[i]).tx_eid < self.tx_eid
        &&& numbers_apart(self.schema)
        &&& keys::all_known(self.written(facts), self.schema)
        &&& gives_one(self.datoms, self.given)
        &&& self.schema.find(self.given.attribute) is Some
        &&& !self.schema.find(self.given.attribute).unwrap().multival
        &&& metadata::given_out(self.counters, self.given.entity as int)
    }

    /// Whether an index holds some facts and what the transaction wrote behind them.
    pub open spec fn leads(self, facts: Seq<IndexedFact>, after: Seq<IndexedFact>) -> bool {
        &&& self.fits(facts)
        &&& forall|f: IndexedFact| #[trigger]
            after.contains(f) == with_written(
                facts,
                self.written(facts),
                self.schema,
                self.tx_eid,
            ).contains(f)
    }
}

/// What holds depends only on which facts there are.
proof fn lemma_same_facts(
    a: Seq<IndexedFact>,
    b: Seq<IndexedFact>,
    entity: i64,
    attribute: i64,
    value: Value,
    as_of: i64,
)
    requires
        forall|f: IndexedFact| #[trigger] a.contains(f) ==> b.contains(f),
        forall|f: IndexedFact| #[trigger] b.contains(f) ==> a.contains(f),
        laws::fact_holds(a, entity, attribute, value, as_of),
    ensures
        laws::fact_holds(b, entity, attribute, value, as_of),
{
    lemma_holds(a, entity, attribute, value, as_of);
    lemma_holds(b, entity, attribute, value, as_of);
    let i = choose|i: int|
        0 <= i < a.len() && #[trigger] decides(a, i, entity, attribute, value, as_of);
    assert(a.contains(a[i]));
    let k = b.index_of(a[i]);
    assert forall|j: int|
        0 <= j < b.len() && says(#[trigger] b[j], entity, attribute, value) && b[j].tx_eid
            <= as_of implies !newer_fact(b[j], b[k]) by {
        assert(b.contains(b[j]));
        let m = a.index_of(b[j]);
        assert(says(a[m], entity, attribute, value));
    }
    assert(decides(b, k, entity, attribute, value, as_of));
}

/// After one write just the value that it gave is held.
proof fn lemma_after_write(
    facts: Seq<IndexedFact>,
    w: Write,
    after: Seq<IndexedFact>,
    as_of: i64,
    value: Value,
)
    requires
        w.leads(facts, after),
        w.tx_eid <= as_of,
        at_most_one(facts, w.given.entity, w.attribute(), i64::MAX),
    ensures
        laws::fact_holds(after, w.given.entity, w.attribute(), value, as_of) == (value
            == w.given.value),
{
    let longer = with_written(facts, w.written(facts), w.schema, w.tx_eid);
    law_one_value(facts, w.datoms, w.schema, w.counters, w.given, w.tx_eid, as_of, value);
    if laws::fact_holds(after, w.given.entity, w.attribute(), value, as_of) {
        lemma_same_facts(after, longer, w.given.entity, w.attribute(), value, as_of);
    }
    if laws::fact_holds(longer, w.given.entity, w.attribute(), value, as_of) {
        lemma_same_facts(longer, after, w.given.entity, w.attribute(), value, as_of);
    }
}

/// After one write there is at most one value.
proof fn lemma_one_after_write(facts: Seq<IndexedFact>, w: Write, after: Seq<IndexedFact>)
    requires
        w.leads(facts, after),
        at_most_one(facts, w.given.entity, w.attribute(), i64::MAX),
    ensures
        at_most_one(after, w.given.entity, w.attribute(), i64::MAX),
        forall|v: Value| #[trigger]
            laws::fact_holds(after, w.given.entity, w.attribute(), v, i64::MAX) == (v
                == w.given.value),
{
    assert forall|v: Value| #[trigger]
        laws::fact_holds(after, w.given.entity, w.attribute(), v, i64::MAX) == (v
            == w.given.value) by {
        lemma_after_write(facts, w, after, i64::MAX, v);
    }
}

/// Of three values that an attribute with one value is given in turn only the last is held, and
/// the third transaction takes the second back and adds the third.
pub proof fn law_last_of_three(
    before: Seq<IndexedFact>,
    first: Write,
    between: Seq<IndexedFact>,
    second: Write,
    behind: Seq<IndexedFact>,
    third: Write,
    after: Seq<IndexedFact>,
    as_of: i64,
    value: Value,
)
    requires
        at_most_one(before, first.given.entity, first.attribute(), i64::MAX),
        first.leads(before, between),
        second.leads(between, behind),
        third.leads(behind, after),
        first.given.entity == second.given.entity == third.given.entity,
        first.attribute() == second.attribute() == third.attribute(),
        third.tx_eid <= as_of,
    ensures
        laws::fact_holds(after, third.given.entity, third.attribute(), value, as_of) == (value
            == third.given.value),
        second.given.value != third.given.value ==> {
            &&& after.contains(
                IndexedFact {
                    entity: third.given.entity,
                    attribute: third.attribute(),
                    value: second.given.value,
                    tx_eid: third.tx_eid,
                    op: codec::RETRACT,
                },
            )
            &&& after.contains(
                IndexedFact {
                    entity: third.given.entity,
                    attribute: third.attribute(),
                    value: third.given.value,
                    tx_eid: third.tx_eid,
                    op: codec::ADD,
                },
            )
        },
{
    let d = third.given;
    let a = third.attribute();
    lemma_one_after_write(before, first, between);
    lemma_one_after_write(between, second, behind);
    lemma_after_write(behind, third, after, as_of, value);
    if second.given.value != d.value {
        let entries = current_entries(behind);
        let written = third.written(behind);
        let longer = with_written(behind, written, third.schema, third.tx_eid);
        law_old_value_is_current(behind, d, third.schema, third.counters, a);
        assert(laws::fact_holds(behind, d.entity, a, second.given.value, i64::MAX));
        commit::law_overwrite_retracts(
            third.datoms,
            third.schema,
            third.counters,
            entries,
            d,
            second.given.value,
        );
        let x = commit::retraction(d, second.given.value);
        let k = behind.len() + written.index_of(x);
        let m = behind.len() + written.index_of(d);
        assert(longer[k] == indexed(x, third.schema, third.tx_eid));
        assert(longer[m] == indexed(d, third.schema, third.tx_eid));
        assert(longer.contains(longer[k]) && longer.contains(longer[m]));
    }
}

} // verus!
