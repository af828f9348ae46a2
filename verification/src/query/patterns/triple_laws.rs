//! Triple patterns match the facts that hold.

use vstd::prelude::*;

use crate::byte_string::{self, Row};
use crate::codec;
use crate::indexer::basis::IndexedFact;
use crate::indexer::keys;
use crate::indexer::laws;
use crate::indexer::pattern_laws;
use crate::iterator::stored_pattern;
use crate::query::binding_bag::Relation;
use crate::query::patterns::triple::{self, TriplePattern, TriplePosition};
use crate::value::{IndexType, Value};
use crate::variable::Name;

verus! {

/// Where both the entity and the value of a row are known, the row is confirmed exactly if its
/// fact holds as of the transaction.
pub proof fn law_check_confirms_held_facts(
    p: TriplePattern,
    layout: Seq<Name>,
    row: Row,
    keys: Seq<Seq<u8>>,
    facts: Seq<IndexedFact>,
    entity: i64,
    value: Value,
    as_of: i64,
)
    requires
        stored_pattern::index_keys(keys),
        pattern_laws::indexed(keys, facts),
        p.entity@.resolved(layout),
        p.value@.resolved(layout),
        p.entity@.bytes(layout, row) == codec::encoding(Value::Long(entity)),
        p.value@.bytes(layout, row) == codec::encoding(value),
    ensures
        p.check(layout) matches Some(check) && stored_pattern::scanned(
            keys,
            check.scan(),
            as_of,
        ).contains(
            check.key(codec::encoding(Value::Long(entity)), codec::encoding(value)),
        ) == laws::fact_holds(facts, entity, p.attribute, value, as_of),
{
    let f = IndexedFact { entity, attribute: p.attribute, value, tx_eid: 0, op: 0 };
    let check = p.check(layout).unwrap();
    let scan = check.scan();
    let index = codec::index_prefix(scan.index_type);
    let said = pattern_laws::said(index, f);
    let rest = check.key(codec::encoding(Value::Long(entity)), codec::encoding(value));
    assert(said =~= scan.prefix + rest);
    assert(said.take(scan.prefix.len() as int) =~= scan.prefix);
    assert(said.skip(scan.prefix.len() as int) =~= rest);
    pattern_laws::law_scan_shows_held_facts(keys, facts, scan, f, as_of);
}

/// What follows a key is what the entries that begin with it end with.
proof fn lemma_continuations(entries: Seq<Seq<u8>>, key: Seq<u8>, rest: Seq<u8>)
    ensures
        triple::continuations(entries, key).contains(seq![rest]) == entries.contains(key + rest),
    decreases entries.len(),
{
    let n = key.len() as int;
    let found = triple::beginning_with(entries, key);
    let list = triple::continuations(entries, key);
    if entries.len() > 0 {
        let front = entries.drop_last();
        let last = entries.last();
        let earlier = triple::beginning_with(front, key);
        lemma_continuations(front, key, rest);
        let before = triple::continuations(front, key);
        assert((key + rest).take(n) =~= key);
        assert((key + rest).skip(n) =~= rest);
        if byte_string::begins_with(last, key) {
            assert(last =~= key + last.skip(n));
            assert(found == earlier.push(last));
            assert(list =~= before.push(seq![last.skip(n)]));
            if list.contains(seq![rest]) {
                let k = list.index_of(seq![rest]);
                if k < before.len() {
                    assert(before[k] == seq![rest]);
                } else {
                    assert(seq![last.skip(n)][0] == seq![rest][0]);
                    assert(entries[entries.len() - 1] == key + rest);
                }
            }
        } else {
            assert(found == earlier);
            assert(list =~= before);
        }
        if entries.contains(key + rest) {
            let i = entries.index_of(key + rest);
            if i < front.len() {
                assert(front[i] == key + rest);
                assert(front.contains(key + rest));
                let k = before.index_of(seq![rest]);
                assert(list[k] == seq![rest]);
            } else {
                assert(list[list.len() - 1] == seq![rest]);
            }
        }
        if front.contains(key + rest) {
            let i = front.index_of(key + rest);
            assert(entries[i] == key + rest);
        }
    } else {
        assert(list.len() == 0);
    }
}

/// Where the other position of a row is known, the proposed values of a position are exactly those
/// whose facts hold as of the transaction.
pub proof fn law_proposal_gives_held_facts(
    p: TriplePattern,
    position: TriplePosition,
    input: Relation,
    i: int,
    keys: Seq<Seq<u8>>,
    facts: Seq<IndexedFact>,
    entity: i64,
    value: Value,
    as_of: i64,
)
    requires
        stored_pattern::index_keys(keys),
        pattern_laws::indexed(keys, facts),
        0 <= i < input.rows.len(),
        p.other(position).resolved(input.variables),
        p.other(position).bytes(input.variables, input.rows[i]) == (match position {
            TriplePosition::Entity => codec::encoding(value),
            TriplePosition::Value => codec::encoding(Value::Long(entity)),
        }),
    ensures
        p.candidates(
            position,
            input,
            stored_pattern::scanned(keys, p.proposal(position, input.variables), as_of),
        )[i].contains(
            seq![
                match position {
                    TriplePosition::Entity => codec::encoding(Value::Long(entity)),
                    TriplePosition::Value => codec::encoding(value),
                },
            ],
        ) == laws::fact_holds(facts, entity, p.attribute, value, as_of),
{
    let f = IndexedFact { entity, attribute: p.attribute, value, tx_eid: 0, op: 0 };
    let scan = p.proposal(position, input.variables);
    let entries = stored_pattern::scanned(keys, scan, as_of);
    let key = p.proposal_key(position, input.variables, input.rows[i]);
    let found = match position {
        TriplePosition::Entity => codec::encoding(Value::Long(entity)),
        TriplePosition::Value => codec::encoding(value),
    };
    let said = pattern_laws::said(codec::index_prefix(scan.index_type), f);
    assert(said =~= scan.prefix + (key + found));
    assert(said.take(scan.prefix.len() as int) =~= scan.prefix);
    assert(said.skip(scan.prefix.len() as int) =~= key + found);
    pattern_laws::law_scan_shows_held_facts(keys, facts, scan, f, as_of);
    lemma_continuations(entries, key, found);
}

/// Where one position is proposed and the other is not known, the scan is that of all the entities, or of
/// all the values, of the attribute: behind its prefix stands what the index holds of each.
pub proof fn law_proposal_of_one_position(
    p: TriplePattern,
    position: TriplePosition,
    layout: Seq<Name>,
    entity: i64,
    value: Value,
)
    requires
        !p.other(position).resolved(layout),
    ensures
        match position {
            TriplePosition::Entity => p.proposal(position, layout).index_type == IndexType::AE
                && p.proposal(position, layout).prefix + codec::encoding(Value::Long(entity))
                == keys::ae_key(p.attribute, Value::Long(entity)),
            TriplePosition::Value => p.proposal(position, layout).index_type == IndexType::AV
                && p.proposal(position, layout).prefix + codec::encoding(value) == keys::av_key(
                p.attribute,
                value,
            ),
        },
{
}

/// Rows of two variables of which one is known are checked by the entities, or by the values, of the
/// attribute. Where a variable is not known beside a constant, and where nothing is, nothing can be
/// checked.
pub proof fn law_check_of_one_position(
    p: TriplePattern,
    layout: Seq<Name>,
    entity: i64,
    value: Value,
)
    requires
        !p.entity@.resolved(layout) || !p.value@.resolved(layout),
    ensures
        ({
            let e = codec::encoding(Value::Long(entity));
            let v = codec::encoding(value);
            let check = p.check(layout);
            if p.entity@ is Constant || p.value@ is Constant {
                check is None
            } else if p.entity@.resolved(layout) {
                check matches Some(by) && by.scan().index_type == IndexType::AE && by.scan().prefix
                    + by.key(e, v) == keys::ae_key(p.attribute, Value::Long(entity))
            } else if p.value@.resolved(layout) {
                check matches Some(by) && by.scan().index_type == IndexType::AV && by.scan().prefix
                    + by.key(e, v) == keys::av_key(p.attribute, value)
            } else {
                check is None
            }
        }),
{
}

/// An index for proposals has the position that is proposed, and the other one in front of it where it is
/// known.
pub proof fn law_indexes_for_proposals(position: TriplePosition, known: bool, r: IndexType)
    requires
        call_ensures(TriplePattern::index_type, (position, known), r),
    ensures
        position is Entity && !known ==> r == IndexType::AE,
        position is Entity && known ==> r == IndexType::AVE,
        position is Value && !known ==> r == IndexType::AV,
        position is Value && known ==> r == IndexType::AEV,
{
}

} // verus!
