//! What the columns, groups and aggregates of a result hold.

use vstd::prelude::*;

use crate::algo::generic_join::ResultTuple;
use crate::byte_string::Row;
use crate::codec;
use crate::error::{Error, ErrorView};
use crate::expr;
use crate::query::aggregate::{self, count, count_distinct, extreme};
use crate::query::ast::{Binding, Element, FindSpec, FnArg, Limit, QueryArg};
use crate::query::find::{
    self, compile_find_plan, execute_aggregation, parse_aggregate_func, project_results,
    resolve_limit, AggregateFunc, FindPlan, Projection,
};
use crate::query::order::{self, Comparison};
use crate::value::{DataType, Value};
use crate::variable::{self, Name, Variable};

verus! {

/// The names of the aggregates differ.
proof fn lemma_aggregate_names()
    ensures
        "count"@.len() == 5,
        "count-distinct"@.len() == 14,
        "sum"@.len() == 3,
        "avg"@.len() == 3,
        "min"@.len() == 3,
        "max"@.len() == 3,
        "sum"@ != "avg"@,
        "sum"@ != "min"@,
        "sum"@ != "max"@,
        "avg"@ != "min"@,
        "avg"@ != "max"@,
        "min"@ != "max"@,
{
    reveal_strlit("count");
    reveal_strlit("count-distinct");
    reveal_strlit("sum");
    reveal_strlit("avg");
    reveal_strlit("min");
    reveal_strlit("max");
    assert("count"@.len() == 5 && "count-distinct"@.len() == 14);
    assert("sum"@[0] == 's' && "avg"@[0] == 'a' && "min"@[0] == 'm' && "max"@[0] == 'm');
    assert("min"@[1] == 'i' && "max"@[1] == 'a');
}

/// Each name means its own aggregate, and no other name means one.
pub proof fn law_aggregate_names(name: &str, r: Result<AggregateFunc, Error>)
    requires
        call_ensures(parse_aggregate_func, (name,), r),
    ensures
        (r matches Ok(f) && f == AggregateFunc::Count) == (name@ == "count"@),
        (r matches Ok(f) && f == AggregateFunc::CountDistinct) == (name@ == "count-distinct"@),
        (r matches Ok(f) && f == AggregateFunc::Sum) == (name@ == "sum"@),
        (r matches Ok(f) && f == AggregateFunc::Avg) == (name@ == "avg"@),
        (r matches Ok(f) && f == AggregateFunc::Min) == (name@ == "min"@),
        (r matches Ok(f) && f == AggregateFunc::Max) == (name@ == "max"@),
        r matches Err(e) ==> (e matches Error::UnknownAggregate(said) && said@ == name@),
{
    lemma_aggregate_names();
}

/// An aggregate is named as it is written in queries.
pub proof fn law_names_of_aggregates(f: AggregateFunc, r: &str)
    requires
        call_ensures(AggregateFunc::name, (&f,), r),
    ensures
        r@ == (match f {
            AggregateFunc::Count => "count"@,
            AggregateFunc::CountDistinct => "count-distinct"@,
            AggregateFunc::Sum => "sum"@,
            AggregateFunc::Avg => "avg"@,
            AggregateFunc::Min => "min"@,
            AggregateFunc::Max => "max"@,
        }),
{
    lemma_aggregate_names();
}

/// Whether a column of a plan is that of an element of the find clause: it shows the element's
/// variable, or the named aggregate over it.
pub open spec fn column_of(
    element: Element,
    column: Projection,
    keys: Seq<usize>,
    order: Seq<Name>,
) -> bool {
    match element {
        Element::Variable(v) => column matches Projection::GroupVar(g) && g < keys.len() && keys[
            g as int
        ] < order.len() && order[keys[g as int] as int] == v.name@,
        Element::Aggregate(a) => {
            &&& a.args@.len() == 1
            &&& a.args@[0] matches FnArg::Variable(v) && (column matches Projection::Aggregate(
                f,
                level,
            ) && level < order.len() && order[level as int] == v.name@ && named(f, a.func@))
        },
        _ => false,
    }
}

/// Whether an aggregate has a name.
pub open spec fn named(f: AggregateFunc, name: Seq<char>) -> bool {
    match f {
        AggregateFunc::Count => name == "count"@,
        AggregateFunc::CountDistinct => name == "count-distinct"@,
        AggregateFunc::Sum => name == "sum"@,
        AggregateFunc::Avg => name == "avg"@,
        AggregateFunc::Min => name == "min"@,
        AggregateFunc::Max => name == "max"@,
    }
}

/// A plan has the column of each element of the find clause, in their order, and groups by the
/// variables among them and by nothing else.
pub proof fn law_columns_of_a_plan(
    elements: Vec<Element>,
    order: &[Variable],
    plan: FindPlan,
)
    requires
        call_ensures(
            compile_find_plan,
            (&FindSpec::FindRel(elements), order),
            Ok::<FindPlan, Error>(plan),
        ),
        order@.len() <= usize::MAX,
        elements@.len() <= usize::MAX,
    ensures
        plan.projections@.len() == elements@.len(),
        forall|c: int|
            0 <= c < elements@.len() ==> column_of(
                #[trigger] elements@[c],
                plan.projections@[c],
                plan.group_key_indices@,
                order.deep_view(),
            ),
        plan.has_aggregates == exists|c: int|
            0 <= c < elements@.len() && (#[trigger] elements@[c]) is Aggregate,
        forall|g: int|
            0 <= g < plan.group_key_indices@.len() ==> exists|c: int|
                0 <= c < plan.projections@.len() && plan.projections@[c] == Projection::GroupVar(
                    #[trigger] group_place(g),
                ),
{
    lemma_columns_of(elements@, order.deep_view());
}

/// A place among the values to group by.
pub open spec fn group_place(g: int) -> usize {
    g as usize
}

/// The columns of the plan of elements.
pub proof fn lemma_columns_of(elements: Seq<Element>, order: Seq<Name>)
    requires
        order.len() <= usize::MAX,
        elements.len() <= usize::MAX,
    ensures
        find::elements_plan(elements, order) matches Ok(p) ==> {
            &&& p.columns.len() == elements.len()
            &&& p.keys.len() <= elements.len()
            &&& forall|c: int|
                0 <= c < elements.len() ==> column_of(
                    #[trigger] elements[c],
                    p.columns[c],
                    p.keys,
                    order,
                )
            &&& p.aggregates == exists|c: int|
                0 <= c < elements.len() && (#[trigger] elements[c]) is Aggregate
            &&& forall|g: int|
                0 <= g < p.keys.len() ==> exists|c: int|
                    0 <= c < p.columns.len() && p.columns[c] == Projection::GroupVar(
                        #[trigger] group_place(g),
                    )
        },
    decreases elements.len(),
{
    if elements.len() > 0 {
        let front = elements.drop_last();
        let last = elements.last();
        lemma_columns_of(front, order);
        lemma_aggregate_names();
        if let Ok(p) = find::elements_plan(front, order) {
            if let Ok(q) = find::elements_plan(elements, order) {
                assert forall|c: int| 0 <= c < elements.len() implies column_of(
                    #[trigger] elements[c],
                    q.columns[c],
                    q.keys,
                    order,
                ) by {
                    if c < front.len() {
                        assert(front[c] == elements[c]);
                        assert(column_of(front[c], p.columns[c], p.keys, order));
                        if let Projection::GroupVar(g) = p.columns[c] {
                            if g < p.keys.len() {
                                assert(q.keys[g as int] == p.keys[g as int]);
                            }
                        }
                    } else {
                        assert(elements[c] == last);
                    }
                }
                if p.aggregates {
                    let c = choose|c: int|
                        0 <= c < front.len() && (#[trigger] front[c]) is Aggregate;
                    assert(elements[c] is Aggregate);
                }
                if last is Aggregate {
                    assert(elements[elements.len() - 1] is Aggregate);
                }
                if exists|c: int| 0 <= c < elements.len() && (#[trigger] elements[c]) is Aggregate {
                    let c = choose|c: int|
                        0 <= c < elements.len() && (#[trigger] elements[c]) is Aggregate;
                    if c < front.len() {
                        assert(front[c] is Aggregate);
                    }
                }
                assert forall|g: int| 0 <= g < q.keys.len() implies exists|c: int|
                    0 <= c < q.columns.len() && q.columns[c] == Projection::GroupVar(
                        #[trigger] group_place(g),
                    ) by {
                    if g < p.keys.len() {
                        let c = choose|c: int|
                            0 <= c < p.columns.len() && p.columns[c] == Projection::GroupVar(
                                group_place(g),
                            );
                        assert(q.columns[c] == p.columns[c]);
                    } else {
                        assert(q.columns[front.len() as int] == Projection::GroupVar(
                            group_place(g),
                        ));
                    }
                }
            }
        }
    }
}

/// A column without aggregation shows, for each tuple, the value that the tuple holds at the level
/// of the column's variable.
pub proof fn law_columns_show_their_values(
    results: Vec<ResultTuple>,
    plan: FindPlan,
    width: usize,
    rows: Vec<Vec<DataType>>,
    i: int,
    c: int,
    g: usize,
    v: Value,
)
    requires
        call_ensures(
            project_results,
            (&results, &plan, width),
            Ok::<Vec<Vec<DataType>>, Error>(rows),
        ),
        0 <= i < results@.len(),
        0 <= c < plan.projections@.len(),
        plan.projections@[c] == Projection::GroupVar(g),
        results.deep_view()[i][plan.group_key_indices@[g as int] as int] == codec::encoding(v),
    ensures
        rows@.len() == results@.len(),
        rows@[i]@.len() == plan.projections@.len(),
        rows@[i]@[c]@ == v,
{
    codec::law_decode_encoded(v, Seq::empty());
    assert(codec::encoding(v) + Seq::<u8>::empty() =~= codec::encoding(v));
    assert(results.deep_view().len() == results@.len());
    assert(rows@[i]@.len() == plan@.columns.len());
    assert(find::projected(results.deep_view()[i], plan@, c, rows@[i]@[c]@));
}

/// A group holds exactly the tuples with its values to group by, in their order.
pub proof fn law_members_of_a_group(tuples: Seq<Row>, keys: Seq<usize>, key: Seq<u8>)
    ensures
        find::members(tuples, keys, key) == tuples.filter(
            |t: Row| find::group_key(t, keys) == key,
        ),
    decreases tuples.len(),
{
    let same = |t: Row| find::group_key(t, keys) == key;
    reveal(Seq::filter);
    if tuples.len() > 0 {
        law_members_of_a_group(tuples.drop_last(), keys, key);
        assert(tuples =~= tuples.drop_last().push(tuples.last()));
    }
}

/// There is one group for each combination of values to group by that some tuple has, and no other;
/// without values to group by there is one group of all tuples.
pub proof fn law_groups_of_tuples(tuples: Seq<Row>, keys: Seq<usize>)
    ensures
        variable::unique(find::groups(tuples, keys)),
        keys.len() == 0 ==> find::groups(tuples, keys) == seq![Seq::<u8>::empty()],
        keys.len() > 0 ==> forall|key: Seq<u8>| #[trigger]
            find::groups(tuples, keys).contains(key) == exists|i: int|
                0 <= i < tuples.len() && find::group_key(#[trigger] tuples[i], keys) == key,
{
    let start: Seq<Seq<u8>> = if keys.len() == 0 {
        seq![Seq::<u8>::empty()]
    } else {
        Seq::empty()
    };
    let all = find::tuple_keys(tuples, keys);
    expr::lemma_with_new(start, all);
    if keys.len() == 0 {
        assert(start[0] == Seq::<u8>::empty());
        assert forall|i: int| 0 <= i < all.len() implies start.contains(#[trigger] all[i]) by {
            assert(all[i] == Seq::<u8>::empty());
        }
        lemma_nothing_new(start, all);
    } else {
        assert forall|key: Seq<u8>| #[trigger]
            find::groups(tuples, keys).contains(key) == exists|i: int|
                0 <= i < tuples.len() && find::group_key(#[trigger] tuples[i], keys) == key by {
            if all.contains(key) {
                let i = all.index_of(key);
                assert(find::group_key(tuples[i], keys) == key);
            }
            if exists|i: int|
                0 <= i < tuples.len() && find::group_key(#[trigger] tuples[i], keys) == key {
                let i = choose|i: int|
                    0 <= i < tuples.len() && find::group_key(#[trigger] tuples[i], keys) == key;
                assert(all[i] == key);
            }
        }
    }
}

/// Nothing is added that is there.
proof fn lemma_nothing_new(start: Seq<Seq<u8>>, more: Seq<Seq<u8>>)
    requires
        forall|i: int| 0 <= i < more.len() ==> start.contains(#[trigger] more[i]),
    ensures
        expr::with_new(start, more) == start,
    decreases more.len(),
{
    if more.len() > 0 {
        assert forall|i: int| 0 <= i < more.drop_last().len() implies start.contains(
            #[trigger] more.drop_last()[i],
        ) by {
            assert(more.drop_last()[i] == more[i]);
        }
        lemma_nothing_new(start, more.drop_last());
        assert(more.last() == more[more.len() - 1]);
    }
}

/// The values of tuples at a level are those that they hold there, in the order of the tuples.
pub proof fn law_values_at_a_level(tuples: Seq<Row>, level: int, values: Seq<Value>)
    requires
        values.len() == tuples.len(),
        forall|i: int|
            0 <= i < tuples.len() ==> (#[trigger] tuples[i])[level] == codec::encoding(values[i]),
    ensures
        find::level_values(tuples, level) == Some(values),
    decreases tuples.len(),
{
    if tuples.len() > 0 {
        let front = tuples.drop_last();
        assert forall|i: int| 0 <= i < front.len() implies (#[trigger] front[i])[level]
            == codec::encoding(values.drop_last()[i]) by {
            assert(front[i] == tuples[i]);
        }
        law_values_at_a_level(front, level, values.drop_last());
        let v = values.last();
        codec::law_decode_encoded(v, Seq::empty());
        assert(codec::encoding(v) + Seq::<u8>::empty() =~= codec::encoding(v));
        assert(tuples[tuples.len() - 1][level] == codec::encoding(v));
        assert(values.drop_last().push(v) =~= values);
    } else {
        assert(values =~= Seq::empty());
    }
}

/// A row of an aggregation is that of one group. In a column with a value to group by it shows the
/// value that the tuples of the group have, and in a column with an aggregate what the aggregate
/// gives on the values of exactly these tuples.
pub proof fn law_rows_of_an_aggregation<
    F: Fn(&AggregateFunc, &Vec<DataType>) -> Result<DataType, Error>,
>(
    results: Vec<ResultTuple>,
    plan: FindPlan,
    width: usize,
    fold: F,
    rows: Vec<Vec<DataType>>,
    n: int,
    c: int,
    values: Seq<Value>,
)
    requires
        call_ensures(
            execute_aggregation::<F>,
            (&results, &plan, width, fold),
            Ok::<Vec<Vec<DataType>>, Error>(rows),
        ),
        0 <= n < rows@.len(),
        0 <= c < plan.projections@.len(),
        ({
            let group = group_of(results.deep_view(), plan.group_key_indices@, n);
            &&& values.len() == group.len()
            &&& forall|i: int|
                0 <= i < group.len() ==> (#[trigger] group[i])[column_level(plan, c)]
                    == codec::encoding(values[i])
        }),
    ensures
        rows@.len() == find::groups(results.deep_view(), plan.group_key_indices@).len(),
        match plan.projections@[c] {
            Projection::GroupVar(_) => values.len() > 0 && rows@[n]@[c]@ == values[0],
            Projection::Aggregate(f, _) => exists|given: Vec<DataType>|
                given.deep_view() == values && #[trigger] call_ensures(
                    fold,
                    (&f, &given),
                    Ok::<DataType, Error>(rows@[n]@[c]),
                ),
        },
{
    let tuples = results.deep_view();
    let keys = plan.group_key_indices@;
    let key = find::groups(tuples, keys)[n];
    law_members_of_a_group(tuples, keys, key);
    let group = find::members(tuples, keys, key);
    assert(group == group_of(tuples, keys, n));
    assert(rows@[n]@.len() == plan@.columns.len());
    assert(find::cell(fold, tuples, plan@, key, c, rows@[n]@[c]));
    match plan.projections@[c] {
        Projection::GroupVar(g) => {
            codec::law_decode_encoded(values[0], Seq::empty());
            assert(codec::encoding(values[0]) + Seq::<u8>::empty() =~= codec::encoding(values[0]));
            assert(group[0][column_level(plan, c)] == codec::encoding(values[0]));
        },
        Projection::Aggregate(f, level) => {
            law_values_at_a_level(group, level as int, values);
            let (given, out) = choose|given: Vec<DataType>, out: Result<DataType, Error>|
                given.deep_view() == values && #[trigger] call_ensures(fold, (&f, &given), out)
                    && crate::error::told(out) == Ok::<DataType, ErrorView>(rows@[n]@[c]);
            assert(out == Ok::<DataType, Error>(rows@[n]@[c]));
        },
    }
}

/// The tuples of a group: those with the same values to group by.
pub open spec fn group_of(tuples: Seq<Row>, keys: Seq<usize>, n: int) -> Seq<Row> {
    tuples.filter(|t: Row| find::group_key(t, keys) == find::groups(tuples, keys)[n])
}

/// The level that a column reads.
pub open spec fn column_level(plan: FindPlan, c: int) -> int {
    match plan.projections@[c] {
        Projection::GroupVar(g) => plan.group_key_indices@[g as int] as int,
        Projection::Aggregate(_, level) => level as int,
    }
}

/// A limit that is a variable becomes the number to which the first input of that variable binds
/// it; every other limit stays as it is.
pub proof fn law_limit_is_resolved(
    limit: Limit,
    bindings: &[Binding],
    args: &[QueryArg],
    r: Limit,
    i: int,
)
    requires
        call_ensures(resolve_limit, (&limit, bindings, args), r),
        limit matches Limit::Variable(v) ==> 0 <= i < bindings@.len() && i < args@.len() && binds(
            bindings@[i],
            v.name@,
        ) && forall|j: int| 0 <= j < i ==> !binds(#[trigger] bindings@[j], v.name@),
    ensures
        match limit {
            Limit::Unlimited => r == Limit::Unlimited,
            Limit::Fixed(n) => r == Limit::Fixed(n),
            Limit::Variable(_) => args@[i] matches QueryArg::Scalar(DataType::Long(n)) && n >= 0
                ==> r == Limit::Fixed((args@[i]->Scalar_0)->Long_0 as u64),
        },
{
    if let Limit::Variable(v) = limit {
        lemma_first_binding(bindings@, v.name@, i);
    }
}

/// Whether an input binds a variable to one value.
pub open spec fn binds(binding: Binding, name: Name) -> bool {
    binding matches Binding::BindScalar(v) && v.name@ == name
}

/// The first input of a variable.
proof fn lemma_first_binding(bindings: Seq<Binding>, name: Name, i: int)
    requires
        0 <= i < bindings.len(),
        binds(bindings[i], name),
        forall|j: int| 0 <= j < i ==> !binds(#[trigger] bindings[j], name),
    ensures
        find::scalar_input(bindings, name) == Some(i),
    decreases bindings.len(),
{
    let front = bindings.drop_last();
    assert forall|j: int| 0 <= j < front.len() implies front[j] == #[trigger] bindings[j] by {}
    if i < front.len() {
        lemma_first_binding(front, name, i);
    } else {
        lemma_no_binding(front, name);
    }
}

/// No input of a variable.
proof fn lemma_no_binding(bindings: Seq<Binding>, name: Name)
    requires
        forall|j: int| 0 <= j < bindings.len() ==> !binds(#[trigger] bindings[j], name),
    ensures
        find::scalar_input(bindings, name) is None,
    decreases bindings.len(),
{
    if bindings.len() > 0 {
        let front = bindings.drop_last();
        assert forall|j: int| 0 <= j < front.len() implies !binds(#[trigger] front[j], name) by {
            assert(front[j] == bindings[j]);
        }
        lemma_no_binding(front, name);
        assert(!binds(bindings[bindings.len() - 1], name));
    }
}

/// Counting gives the number of values, and counting distinct ones the number of different values.
pub proof fn law_counts(values: Vec<DataType>, all: DataType, distinct: DataType)
    requires
        call_ensures(count, (&values,), all),
        call_ensures(count_distinct, (&values,), distinct),
        values@.len() <= i64::MAX,
    ensures
        all matches DataType::Long(n) && n == values@.len(),
        distinct matches DataType::Long(n) && n == values.deep_view().to_set().len() && n
            <= values@.len(),
        values.deep_view().no_duplicates() ==> distinct == all,
{
    let seen = values.deep_view();
    assert(seen.len() == values@.len());
    seen.lemma_cardinality_of_set();
    if seen.no_duplicates() {
        seen.unique_seq_to_set();
    }
}

/// The least value is one of the values, and none is less; the greatest is one of them, and none is
/// more. There is one wherever there are values and all can be compared.
pub proof fn law_extremes(values: Vec<DataType>, beyond: Comparison, r: Result<DataType, Error>)
    requires
        call_ensures(extreme, (&values, beyond), r),
        beyond != Comparison::Same,
    ensures
        match r {
            Ok(found) => values.deep_view().contains(found@) && forall|i: int|
                0 <= i < values@.len() ==> {
                    let c = order::value_order((#[trigger] values@[i])@, found@);
                    c is Some && c != Some(beyond)
                },
            Err(e) => e matches Error::Incomparable,
        },
        r is Err && values@.len() > 0 ==> exists|i: int, j: int|
            0 <= i < values@.len() && 0 <= j < values@.len() && #[trigger] order::value_order(
                values@[i]@,
                values@[j]@,
            ) is None,
{
    let all = values.deep_view();
    assert(all.len() == values@.len());
    match r {
        Ok(found) => {
            let k = choose|k: int| #[trigger]
                aggregate::extreme_at(all, beyond, k) && found@ == all[k];
            assert(all[k] == found@);
            assert forall|i: int| 0 <= i < values@.len() implies {
                let c = order::value_order((#[trigger] values@[i])@, found@);
                c is Some && c != Some(beyond)
            } by {
                assert(all[i] == values@[i]@);
            }
        },
        Err(_) => {
            if values@.len() > 0 && forall|i: int, j: int|
                0 <= i < values@.len() && 0 <= j < values@.len() ==> #[trigger] order::value_order(
                    values@[i]@,
                    values@[j]@,
                ) is Some {
                assert forall|i: int, j: int|
                    0 <= i < all.len() && 0 <= j < all.len() implies #[trigger] order::value_order(
                    all[i],
                    all[j],
                ) is Some by {
                    assert(order::value_order(values@[i]@, values@[j]@) is Some);
                }
                let k = lemma_some_extreme(all, beyond);
                assert(aggregate::extreme_at(all, beyond, k));
            }
        },
    }
}

/// Values that can be compared have an extreme.
proof fn lemma_some_extreme(values: Seq<Value>, beyond: Comparison) -> (k: int)
    requires
        beyond != Comparison::Same,
        values.len() > 0,
        forall|i: int, j: int|
            0 <= i < values.len() && 0 <= j < values.len() ==> #[trigger] order::value_order(
                values[i],
                values[j],
            ) is Some,
    ensures
        aggregate::extreme_at(values, beyond, k),
    decreases values.len(),
{
    if values.len() == 1 {
        order::lemma_value_order(values[0], values[0], values[0]);
        assert(order::value_order(values[0], values[0]) is Some);
        0
    } else {
        let front = values.drop_last();
        let i = values.len() - 1;
        assert forall|a: int, b: int|
            0 <= a < front.len() && 0 <= b < front.len() implies #[trigger] order::value_order(
            front[a],
            front[b],
        ) is Some by {
            assert(order::value_order(values[a], values[b]) is Some);
        }
        let k = lemma_some_extreme(front, beyond);
        assert(values.take(i as int) =~= front);
        assert(values.take(i + 1) =~= values);
        assert(order::value_order(values[i as int], values[k]) is Some);
        aggregate::lemma_next_extreme(values, beyond, k, i as int);
        if order::value_order(values[i as int], values[k]) == Some(beyond) {
            i as int
        } else {
            k
        }
    }
}

} // verus!
