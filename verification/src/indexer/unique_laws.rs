//! Which facts are refused because of unique values, and which are not.

use vstd::prelude::*;

use crate::error::{Error, ErrorView};
use crate::indexer::basis::IndexedFact;
use crate::indexer::commit::{
    self, unique_lookups, validate_unique_constraints, UniqueClaim,
};
use crate::indexer::laws;
use crate::indexer::one_value;
use crate::indexer::owners;
use crate::indexer::transact;
use crate::indexer::unique_value;
use crate::ops::{Datom, DatomOp, DatomView};
use crate::schema::Schema;
use crate::value::{DataType, Keyword, Value};

verus! {

/// Whether a fact asserts a value of a unique attribute.
pub open spec fn asserts_unique(d: DatomView, schema: Schema) -> bool {
    d.op == DatomOp::Assert && (schema.find(d.attribute) matches Some(info) && info.unique)
}

/// Whether two facts assert one value of a unique attribute for different entities.
pub open spec fn clash(a: DatomView, b: DatomView, schema: Schema) -> bool {
    &&& asserts_unique(a, schema) && asserts_unique(b, schema)
    &&& schema.find(a.attribute).unwrap().id == schema.find(b.attribute).unwrap().id
    &&& a.value == b.value
    &&& a.entity != b.entity
}

/// Whether a fact asserts a value of an attribute that is not known.
pub open spec fn asserts_unknown(d: DatomView, schema: Schema) -> bool {
    d.op == DatomOp::Assert && schema.find(d.attribute) is None
}

/// Whether no fact asserts a value of an unknown attribute, and no two clash.
pub open spec fn harmless(datoms: Seq<DatomView>, schema: Schema) -> bool {
    &&& forall|i: int|
        0 <= i < datoms.len() ==> !asserts_unknown(#[trigger] datoms[i], schema)
    &&& forall|i: int, j: int|
        0 <= i < datoms.len() && 0 <= j < datoms.len() ==> !clash(
            #[trigger] datoms[i],
            #[trigger] datoms[j],
            schema,
        )
}

/// What a claim comes from.
proof fn lemma_claim_source(datoms: Seq<DatomView>, schema: Schema, k: int) -> (i: int)
    requires
        0 <= k < commit::claims(datoms, schema).len(),
    ensures
        0 <= i < datoms.len(),
        asserts_unique(datoms[i], schema),
        ({
            let c = commit::claims(datoms, schema)[k];
            &&& c.ident == datoms[i].attribute
            &&& c.attribute == schema.find(datoms[i].attribute).unwrap().id
            &&& c.value == datoms[i].value
            &&& c.entity == datoms[i].entity
        }),
    decreases datoms.len(),
{
    let front = datoms.drop_last();
    let before = commit::claims(front, schema);
    if k < before.len() {
        let i = lemma_claim_source(front, schema, k);
        assert(front[i] == datoms[i]);
        i
    } else {
        (datoms.len() - 1) as int
    }
}

/// What is claimed of an asserted unique value.
proof fn lemma_claim_of(datoms: Seq<DatomView>, schema: Schema, i: int) -> (k: int)
    requires
        0 <= i < datoms.len(),
        asserts_unique(datoms[i], schema),
    ensures
        0 <= k < commit::claims(datoms, schema).len(),
        ({
            let c = commit::claims(datoms, schema)[k];
            &&& c.ident == datoms[i].attribute
            &&& c.attribute == schema.find(datoms[i].attribute).unwrap().id
            &&& c.value == datoms[i].value
            &&& c.entity == datoms[i].entity
        }),
    decreases datoms.len(),
{
    let front = datoms.drop_last();
    let before = commit::claims(front, schema);
    if i < front.len() {
        assert(front[i] == datoms[i]);
        let k = lemma_claim_of(front, schema, i);
        assert(commit::claims(datoms, schema)[k] == before[k]);
        k
    } else {
        before.len() as int
    }
}

/// Where a rival is found it claims the value for another entity.
proof fn lemma_rival_claims(before: Seq<UniqueClaim>, c: UniqueClaim)
    ensures
        match commit::rival(before, c) {
            Some(entity) => exists|k: int|
                0 <= k < before.len() && (#[trigger] before[k]).entity == entity
                    && before[k].attribute == c.attribute && before[k].value == c.value && entity
                    != c.entity,
            None => forall|k: int|
                0 <= k < before.len() ==> !((#[trigger] before[k]).attribute == c.attribute
                    && before[k].value == c.value && before[k].entity != c.entity),
        },
    decreases before.len(),
{
    if before.len() > 0 {
        let front = before.drop_last();
        lemma_rival_claims(front, c);
        assert forall|k: int| 0 <= k < front.len() implies front[k] == #[trigger] before[k] by {}
        match commit::rival(front, c) {
            Some(entity) => {
                let k = choose|k: int|
                    0 <= k < front.len() && (#[trigger] front[k]).entity == entity
                        && front[k].attribute == c.attribute && front[k].value == c.value && entity
                        != c.entity;
                assert(before[k] == front[k]);
            },
            None => {
                if commit::rival(before, c) is Some {
                    assert(before[before.len() - 1] == before.last());
                }
            },
        }
    }
}

/// The fault of facts by themselves.
proof fn lemma_batch_fault(datoms: Seq<DatomView>, schema: Schema)
    ensures
        commit::batch_fault(datoms, schema) is None == harmless(datoms, schema),
        match commit::batch_fault(datoms, schema) {
            None => true,
            Some(ErrorView::UnknownAttribute(name)) => exists|i: int|
                0 <= i < datoms.len() && asserts_unknown(#[trigger] datoms[i], schema)
                    && datoms[i].attribute == name,
            Some(ErrorView::UniqueConflict(name, value, x, y)) => exists|i: int, j: int|
                0 <= i < datoms.len() && 0 <= j < datoms.len() && clash(
                    #[trigger] datoms[i],
                    #[trigger] datoms[j],
                    schema,
                ) && datoms[i].entity == x && datoms[j].entity == y && datoms[j].attribute == name
                    && datoms[j].value == value,
            Some(_) => false,
        },
    decreases datoms.len(),
{
    if datoms.len() > 0 {
        let front = datoms.drop_last();
        let d = datoms.last();
        let n = datoms.len() - 1;
        lemma_batch_fault(front, schema);
        assert forall|i: int| 0 <= i < front.len() implies front[i] == #[trigger] datoms[i] by {}
        assert(datoms[n] == d);
        match commit::batch_fault(front, schema) {
            Some(ErrorView::UnknownAttribute(name)) => {
                let i = choose|i: int|
                    0 <= i < front.len() && asserts_unknown(#[trigger] front[i], schema)
                        && front[i].attribute == name;
                assert(asserts_unknown(datoms[i], schema));
            },
            Some(ErrorView::UniqueConflict(name, value, x, y)) => {
                let (i, j) = choose|i: int, j: int|
                    0 <= i < front.len() && 0 <= j < front.len() && clash(
                        #[trigger] front[i],
                        #[trigger] front[j],
                        schema,
                    ) && front[i].entity == x && front[j].entity == y && front[j].attribute == name
                        && front[j].value == value;
                assert(clash(datoms[i], datoms[j], schema));
            },
            Some(_) => {},
            None => {
                let before = commit::claims(front, schema);
                if asserts_unknown(d, schema) {
                    assert(asserts_unknown(datoms[n], schema));
                } else if asserts_unique(d, schema) {
                    let c = commit::claim(d, schema).unwrap();
                    lemma_rival_claims(before, c);
                    match commit::rival(before, c) {
                        Some(entity) => {
                            let k = choose|k: int|
                                0 <= k < before.len() && (#[trigger] before[k]).entity == entity
                                    && before[k].attribute == c.attribute && before[k].value
                                    == c.value && entity != c.entity;
                            let i = lemma_claim_source(front, schema, k);
                            assert(clash(datoms[i], datoms[n], schema));
                        },
                        None => {
                            assert forall|i: int| 0 <= i < front.len() implies !clash(
                                #[trigger] datoms[i],
                                d,
                                schema,
                            ) && !clash(d, datoms[i], schema) by {
                                if asserts_unique(front[i], schema) {
                                    let k = lemma_claim_of(front, schema, i);
                                    assert(before[k].entity == datoms[i].entity);
                                }
                            }
                        },
                    }
                }
                if commit::batch_fault(datoms, schema) is None {
                    assert forall|i: int, j: int|
                        0 <= i < datoms.len() && 0 <= j < datoms.len() implies !clash(
                        #[trigger] datoms[i],
                        #[trigger] datoms[j],
                        schema,
                    ) by {
                        if i < n && j < n {
                            assert(!clash(front[i], front[j], schema));
                        }
                    }
                    assert forall|i: int| 0 <= i < datoms.len() implies !asserts_unknown(
                        #[trigger] datoms[i],
                        schema,
                    ) by {
                        if i < n {
                            assert(!asserts_unknown(front[i], schema));
                        }
                    }
                }
            },
        }
    }
}

/// Facts pass the check of unique values by themselves exactly if no fact asserts a value of an
/// unknown attribute and no two facts assert one value of a unique attribute for different
/// entities. Where they are refused, the error names such a fact, or two such facts.
pub proof fn law_only_clashes_are_refused(
    datoms: &[Datom],
    schema: Schema,
    r: Result<Vec<(i64, DataType, i64, Keyword)>, Error>,
)
    requires
        call_ensures(unique_lookups, (datoms, &schema), r),
    ensures
        r is Ok == harmless(datoms.deep_view(), schema),
        match r {
            Ok(_) => true,
            Err(e) => match e@ {
                ErrorView::UnknownAttribute(name) => exists|i: int|
                    0 <= i < datoms@.len() && asserts_unknown((#[trigger] datoms@[i])@, schema)
                        && datoms@[i].attribute.name@ == name,
                ErrorView::UniqueConflict(name, value, x, y) => x != y && exists|i: int, j: int|
                    0 <= i < datoms@.len() && 0 <= j < datoms@.len() && clash(
                        (#[trigger] datoms@[i])@,
                        (#[trigger] datoms@[j])@,
                        schema,
                    ) && datoms@[i].entity == x && datoms@[j].entity == y
                        && datoms@[j].attribute.name@ == name && datoms@[j].value@ == value
                        && datoms@[i].value@ == value,
                _ => false,
            },
        },
{
    let facts = datoms.deep_view();
    assert(facts.len() == datoms@.len());
    assert forall|i: int| 0 <= i < facts.len() implies #[trigger] facts[i] == datoms@[i]@ by {}
    lemma_batch_fault(facts, schema);
    if let Err(e) = r {
        match e@ {
            ErrorView::UnknownAttribute(name) => {
                let i = choose|i: int|
                    0 <= i < facts.len() && asserts_unknown(#[trigger] facts[i], schema)
                        && facts[i].attribute == name;
                assert(asserts_unknown(datoms@[i]@, schema));
            },
            ErrorView::UniqueConflict(name, value, x, y) => {
                let (i, j) = choose|i: int, j: int|
                    0 <= i < facts.len() && 0 <= j < facts.len() && clash(
                        #[trigger] facts[i],
                        #[trigger] facts[j],
                        schema,
                    ) && facts[i].entity == x && facts[j].entity == y && facts[j].attribute == name
                        && facts[j].value == value;
                assert(clash(datoms@[i]@, datoms@[j]@, schema));
            },
            _ => {},
        }
    }
}

/// Where different attributes have different numbers, a conflict is between two assertions of one
/// value of the named attribute.
pub proof fn law_conflicts_are_on_one_attribute(
    datoms: &[Datom],
    schema: Schema,
    r: Result<Vec<(i64, DataType, i64, Keyword)>, Error>,
    name: Seq<char>,
    value: Value,
    x: i64,
    y: i64,
)
    requires
        call_ensures(unique_lookups, (datoms, &schema), r),
        one_value::numbers_apart(schema),
        r matches Err(e) && e@ == ErrorView::UniqueConflict(name, value, x, y),
    ensures
        x != y,
        datoms.deep_view().contains(
            DatomView { entity: x, attribute: name, value, op: DatomOp::Assert },
        ),
        datoms.deep_view().contains(
            DatomView { entity: y, attribute: name, value, op: DatomOp::Assert },
        ),
{
    let facts = datoms.deep_view();
    law_only_clashes_are_refused(datoms, schema, r);
    let (i, j) = choose|i: int, j: int|
        0 <= i < datoms@.len() && 0 <= j < datoms@.len() && clash(
            (#[trigger] datoms@[i])@,
            (#[trigger] datoms@[j])@,
            schema,
        ) && datoms@[i].entity == x && datoms@[j].entity == y && datoms@[j].attribute.name@ == name
            && datoms@[j].value@ == value && datoms@[i].value@ == value;
    let a = facts[i];
    let b = facts[j];
    assert(schema.find(a.attribute) is Some && schema.find(b.attribute) is Some);
    assert(a == DatomView { entity: x, attribute: name, value, op: DatomOp::Assert });
    assert(b == DatomView { entity: y, attribute: name, value, op: DatomOp::Assert });
}

/// What is looked up are the asserted unique values: each with the number of its attribute, its
/// value, its entity and its attribute.
pub proof fn law_lookups_are_the_asserted_values(
    datoms: &[Datom],
    schema: Schema,
    found: Vec<(i64, DataType, i64, Keyword)>,
)
    requires
        call_ensures(
            unique_lookups,
            (datoms, &schema),
            Ok::<Vec<(i64, DataType, i64, Keyword)>, Error>(found),
        ),
    ensures
        forall|i: int|
            0 <= i < datoms@.len() && asserts_unique((#[trigger] datoms@[i])@, schema) ==> exists|
                k: int,
            |
                0 <= k < found@.len() && looks_up(#[trigger] found@[k], datoms@[i], schema),
        forall|k: int|
            0 <= k < found@.len() ==> exists|i: int|
                0 <= i < datoms@.len() && asserts_unique((#[trigger] datoms@[i])@, schema)
                    && looks_up(#[trigger] found@[k], datoms@[i], schema),
{
    let facts = datoms.deep_view();
    let claims = commit::claims(facts, schema);
    assert(facts.len() == datoms@.len());
    assert(commit::lookups_of(found@).len() == found@.len());
    assert forall|i: int|
        0 <= i < datoms@.len() && asserts_unique(
            (#[trigger] datoms@[i])@,
            schema,
        ) implies exists|k: int|
        0 <= k < found@.len() && looks_up(#[trigger] found@[k], datoms@[i], schema) by {
        assert(facts[i] == datoms@[i]@);
        let k = lemma_claim_of(facts, schema, i);
        assert(commit::lookups_of(found@)[k] == claims[k]);
        assert(looks_up(found@[k], datoms@[i], schema));
    }
    assert forall|k: int| 0 <= k < found@.len() implies exists|i: int|
        0 <= i < datoms@.len() && asserts_unique((#[trigger] datoms@[i])@, schema) && looks_up(
            #[trigger] found@[k],
            datoms@[i],
            schema,
        ) by {
        let i = lemma_claim_source(facts, schema, k);
        assert(commit::lookups_of(found@)[k] == claims[k]);
        assert(facts[i] == datoms@[i]@);
        assert(looks_up(found@[k], datoms@[i], schema));
    }
}

/// Whether a lookup is for the value that a fact asserts.
pub open spec fn looks_up(l: (i64, DataType, i64, Keyword), d: Datom, schema: Schema) -> bool {
    &&& schema.find(d.attribute.name@) matches Some(info) && l.0 == info.id
    &&& l.1@ == d.value@
    &&& l.2 == d.entity
    &&& l.3.name@ == d.attribute.name@
}

/// Whether facts take a value of an attribute away from an entity.
pub open spec fn gives_up(
    datoms: Seq<DatomView>,
    schema: Schema,
    owner: i64,
    attribute: i64,
    value: Value,
) -> bool {
    exists|i: int|
        0 <= i < datoms.len() && (#[trigger] datoms[i]).op == DatomOp::Retract && datoms[i].entity
            == owner && datoms[i].value == value && (schema.find(datoms[i].attribute) matches Some(
            info,
        ) && info.unique && info.id == attribute)
}

/// Whether a looked up value belongs to another entity, which does not give it up.
pub open spec fn belongs_to_another(
    datoms: Seq<DatomView>,
    schema: Schema,
    c: UniqueClaim,
    owner: Option<i64>,
) -> bool {
    owner matches Some(o) && o != c.entity && !gives_up(datoms, schema, o, c.attribute, c.value)
}

/// Facts keep unique values unique exactly if they do not clash and every asserted value has no
/// owner, belongs to the entity that it is asserted for, or is given up by its owner with the same
/// facts. Where they are refused because of an owner, the error names an asserted value that the
/// owner has and does not give up.
pub proof fn law_only_owned_values_are_refused(
    datoms: &[Datom],
    schema: Schema,
    owners: &[Option<i64>],
    r: Result<(), Error>,
)
    requires
        call_ensures(validate_unique_constraints, (datoms, &schema, owners), r),
        owners@.len() == commit::claims(datoms.deep_view(), schema).len(),
    ensures
        r is Ok == (harmless(datoms.deep_view(), schema) && forall|k: int|
            0 <= k < owners@.len() ==> !belongs_to_another(
                datoms.deep_view(),
                schema,
                commit::claims(datoms.deep_view(), schema)[k],
                #[trigger] owners@[k],
            )),
        r matches Err(e) ==> (e@ matches ErrorView::UniqueOwned(name, value, owner) ==> exists|
            i: int,
        |
            0 <= i < datoms@.len() && asserts_unique((#[trigger] datoms@[i])@, schema)
                && datoms@[i].attribute.name@ == name && datoms@[i].value@ == value
                && datoms@[i].entity != owner && !gives_up(
                datoms.deep_view(),
                schema,
                owner,
                schema.find(datoms@[i].attribute.name@).unwrap().id,
                datoms@[i].value@,
            ) && owners@.contains(Some(owner))),
{
    let facts = datoms.deep_view();
    let claims = commit::claims(facts, schema);
    assert(facts.len() == datoms@.len());
    lemma_batch_fault(facts, schema);
    assert forall|k: int| 0 <= k < owners@.len() implies commit::taken(
        facts,
        schema,
        claims[k],
        #[trigger] owners@[k],
    ) == belongs_to_another(facts, schema, claims[k], owners@[k]) by {
        if let Some(o) = owners@[k] {
            lemma_gives_up(facts, schema, o, claims[k].attribute, claims[k].value);
        }
    }
    if let Err(e) = r {
        if commit::batch_fault(facts, schema) is None {
            let k = choose|k: int|
                0 <= k < owners@.len() && commit::owned_first(facts, schema, owners@, k) && e@
                    == ErrorView::UniqueOwned(
                    claims[k].ident,
                    claims[k].value,
                    (#[trigger] owners@[k]).unwrap(),
                );
            assert(belongs_to_another(facts, schema, claims[k], owners@[k]));
            let i = lemma_claim_source(facts, schema, k);
            assert(facts[i] == datoms@[i]@);
            assert(owners@[k] == Some(owners@[k].unwrap()));
            assert(asserts_unique(datoms@[i]@, schema));
        }
    }
}

/// What is taken away.
proof fn lemma_gives_up(
    datoms: Seq<DatomView>,
    schema: Schema,
    owner: i64,
    attribute: i64,
    value: Value,
)
    ensures
        commit::retracts(datoms, schema, owner, attribute, value) == gives_up(
            datoms,
            schema,
            owner,
            attribute,
            value,
        ),
{
    if commit::retracts(datoms, schema, owner, attribute, value) {
        let i = choose|i: int|
            0 <= i < datoms.len() && (#[trigger] datoms[i]).op == DatomOp::Retract
                && datoms[i].entity == owner && datoms[i].value == value && (match schema.find(
                datoms[i].attribute,
            ) {
                Some(info) => info.unique && info.id == attribute,
                None => false,
            });
        assert(datoms[i].op == DatomOp::Retract);
    }
    if gives_up(datoms, schema, owner, attribute, value) {
        let i = choose|i: int|
            0 <= i < datoms.len() && (#[trigger] datoms[i]).op == DatomOp::Retract
                && datoms[i].entity == owner && datoms[i].value == value && (schema.find(
                datoms[i].attribute,
            ) matches Some(info) && info.unique && info.id == attribute);
        assert(datoms[i].op == DatomOp::Retract);
    }
}

/// Whether an asserted value is held by another entity, which does not give it up.
pub open spec fn held_by_another(
    facts: Seq<IndexedFact>,
    datoms: Seq<DatomView>,
    schema: Schema,
    d: DatomView,
    owner: i64,
) -> bool {
    &&& asserts_unique(d, schema)
    &&& owner != d.entity
    &&& laws::fact_holds(
        facts,
        owner,
        schema.find(d.attribute).unwrap().id,
        d.value,
        i64::MAX,
    )
    &&& !gives_up(datoms, schema, owner, schema.find(d.attribute).unwrap().id, d.value)
}

/// Where unique values belong to one entity each, facts break the uniqueness exactly if one asserts
/// a value of an unknown attribute, two clash, or one asserts a value that another entity holds and
/// does not give up: a transaction of which none of this holds is not refused for uniqueness.
pub proof fn law_fine_facts_are_not_refused(
    facts: Seq<IndexedFact>,
    by_value: Seq<IndexedFact>,
    datoms: Seq<DatomView>,
    schema: Schema,
)
    requires
        laws::ascending(laws::version_keys(owners::owner_versions(by_value))),
        transact::same_facts(facts, by_value),
        transact::all_unique_held(facts, schema),
    ensures
        transact::unique_fault(datoms, schema, owners::visible_owners(by_value)) is None == (
        harmless(datoms, schema) && forall|i: int, owner: i64|
            0 <= i < datoms.len() ==> !#[trigger] held_by_another(
                facts,
                datoms,
                schema,
                datoms[i],
                owner,
            )),
{
    let owned = owners::visible_owners(by_value);
    let claims = commit::claims(datoms, schema);
    lemma_batch_fault(datoms, schema);
    assert forall|k: int| 0 <= k < claims.len() implies (owners::owner_in(
        owned,
        (#[trigger] claims[k]).attribute,
        claims[k].value,
    ) matches Ok(owner) && unique_value::is_owner(
        facts,
        claims[k].attribute,
        claims[k].value,
        owner,
    )) by {
        let i = lemma_claim_source(datoms, schema, k);
        assert(transact::unique_held(
            facts,
            schema.find(claims[k].ident).unwrap().id,
            claims[k].value,
        ));
        transact::lemma_owner_read(facts, by_value, claims[k].attribute, claims[k].value);
    }
    transact::lemma_unreadable(claims, owned, claims.len() as int);
    if harmless(datoms, schema) {
        if transact::first_taken(claims, datoms, schema, owned) is None {
            assert forall|i: int, owner: i64| 0 <= i < datoms.len() implies !#[trigger]
            held_by_another(facts, datoms, schema, datoms[i], owner) by {
                if held_by_another(facts, datoms, schema, datoms[i], owner) {
                    let k = lemma_claim_of(datoms, schema, i);
                    transact::lemma_none_taken(claims, datoms, schema, owned, k);
                    lemma_gives_up(
                        datoms,
                        schema,
                        owner,
                        claims[k].attribute,
                        claims[k].value,
                    );
                    let found = owners::owner_in(
                        owned,
                        claims[k].attribute,
                        claims[k].value,
                    )->Ok_0;
                    assert(found == Some(owner));
                }
            }
        } else {
            let k = transact::lemma_some_taken(claims, datoms, schema, owned);
            let i = lemma_claim_source(datoms, schema, k);
            let found = owners::owner_in(owned, claims[k].attribute, claims[k].value)->Ok_0;
            let owner = found.unwrap();
            assert(laws::fact_holds(
                facts,
                owner,
                claims[k].attribute,
                claims[k].value,
                i64::MAX,
            ));
            lemma_gives_up(datoms, schema, owner, claims[k].attribute, claims[k].value);
            assert(held_by_another(facts, datoms, schema, datoms[i], owner));
        }
    }
}

} // verus!
