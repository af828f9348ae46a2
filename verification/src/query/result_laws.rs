//! What the rows of a query are.

use vstd::prelude::*;

use crate::byte_string::Row;
use crate::codec;
use crate::error::Error;
use crate::expr::Expr;
use crate::indexer::pattern_laws;
use crate::iterator::stored_pattern;
use crate::query::answer_laws::{self, Reading};
use crate::query::ast::{FindSpec, Limit, ParsedQuery, QueryArg};
use crate::query::compile::PlanView;
use crate::query::convert;
use crate::query::execute::{self, execute_query};
use crate::query::find::{self, AggregateFunc, Projection};
use crate::query::find_laws;
use crate::query::lower;
use crate::query::meaning::{self, Setting};
use crate::query::validation::{Fault, FaultView};
use crate::value::{DataType, Keyword};
use crate::variable::{Name, Variable};

verus! {

/// Whether a query asks for variables alone, in no order and without a limit.
pub open spec fn plain(query: ParsedQuery) -> bool {
    &&& query.find_spec matches FindSpec::FindRel(elements) && forall|c: int|
        0 <= c < elements@.len() ==> (#[trigger] elements@[c]) is Variable
    &&& query.order is None
    &&& query.limit == Limit::Unlimited
}

/// The variable that a column of a plain query shows.
pub open spec fn asked(query: ParsedQuery, c: int) -> Name {
    (query.find_spec->FindRel_0@[c])->Variable_0.name@
}

/// How many columns a plain query asks for.
pub open spec fn width(query: ParsedQuery) -> nat {
    query.find_spec->FindRel_0@.len()
}

/// Whether a row shows the values that a reading gives to the variables that are asked for.
pub open spec fn shows<
    H: Fn(&Expr, &Vec<Variable>, &Vec<DataType>) -> bool,
    E: Fn(&Expr, &Vec<Variable>, &Vec<DataType>) -> Option<DataType>,
>(r: Reading<H, E>, query: ParsedQuery, row: Vec<DataType>) -> bool {
    row@.len() == width(query) && forall|c: int|
        0 <= c < width(query) ==> (#[trigger] row@[c])@ == r.value_of(asked(query, c))
}

/// Whether a row shows what a tuple of the join holds at the levels of the variables that are asked
/// for.
pub open spec fn shows_tuple(query: ParsedQuery, tuple: Row, row: Vec<DataType>) -> bool {
    row@.len() == width(query) && forall|c: int|
        0 <= c < width(query) ==> find::value_at(
            tuple,
            execute::variables(query).index_of(asked(query, c)),
        ) == Some((#[trigger] row@[c])@)
}

/// Whether a column reads the level of the variable that is asked for there.
spec fn column_shows(query: ParsedQuery, column: Projection, keys: Seq<usize>, c: int) -> bool {
    &&& column is GroupVar
    &&& column->GroupVar_0 < keys.len()
    &&& keys[column->GroupVar_0 as int] == execute::variables(query).index_of(asked(query, c))
    &&& execute::variables(query).contains(asked(query, c))
}

/// The columns of a plain query.
proof fn lemma_plain_columns(query: ParsedQuery)
    requires
        plain(query),
        execute::variables(query).len() <= usize::MAX,
        width(query) <= usize::MAX,
        find::find_plan(query.find_spec, execute::variables(query)) is Ok,
    ensures
        ({
            let p = find::find_plan(query.find_spec, execute::variables(query))->Ok_0;
            &&& !p.aggregates
            &&& p.columns.len() == width(query)
            &&& forall|c: int|
                0 <= c < width(query) ==> column_shows(query, #[trigger] p.columns[c], p.keys, c)
        }),
{
    let elements = query.find_spec->FindRel_0@;
    let order = execute::variables(query);
    find_laws::lemma_columns_of(elements, order);
    convert::law_variable_order_unique(query.in_bindings@, query.where_clauses@);
    let p = find::find_plan(query.find_spec, order)->Ok_0;
    assert forall|c: int| 0 <= c < width(query) implies column_shows(
        query,
        #[trigger] p.columns[c],
        p.keys,
        c,
    ) by {
        assert(elements[c] is Variable);
        assert(find_laws::column_of(elements[c], p.columns[c], p.keys, order));
        let g = p.columns[c]->GroupVar_0;
        let l = p.keys[g as int] as int;
        assert(order[l] == asked(query, c));
        crate::query::binding_bag::lemma_index_of(order, l);
    }
}

/// A query for variables finds every combination of values to which the inputs bind their variables
/// and with which every clause holds, and shows in each column the value of the variable that is
/// asked for there. Every row that it gives shows the values of a tuple of the join.
pub proof fn law_rows_of_a_query<
    H: Fn(&Expr, &Vec<Variable>, &Vec<DataType>) -> bool + Copy + 'static,
    E: Fn(&Expr, &Vec<Variable>, &Vec<DataType>) -> Option<DataType> + Copy + 'static,
    F: Fn(&AggregateFunc, &Vec<DataType>) -> Result<DataType, Error>,
>(
    query: ParsedQuery,
    args: &[QueryArg],
    idents: &[(Keyword, i64)],
    keys: Vec<Vec<u8>>,
    fold: F,
    rows: Vec<Vec<DataType>>,
    plans: Seq<PlanView>,
    r: Reading<H, E>,
)
    requires
        call_ensures(
            execute_query::<H, E, F>,
            (
                &query,
                args,
                idents,
                &keys,
                r.setting.as_of,
                r.setting.holds,
                r.setting.compute,
                fold,
            ),
            Ok::<Vec<Vec<DataType>>, Fault>(rows),
        ),
        plain(query),
        stored_pattern::index_keys(r.setting.keys),
        pattern_laws::indexed(r.setting.keys, r.facts),
        r.setting.keys == keys.deep_view(),
        r.idents == idents@,
        r.order == execute::variables(query),
        r.values.len() == r.order.len() <= usize::MAX,
        width(query) <= usize::MAX,
        find::find_plan(query.find_spec, execute::variables(query)) is Ok,
        execute::query_plans(query, args@, r.idents) == Ok::<Seq<PlanView>, FaultView>(plans),
        answer_laws::all_regular(plans),
        forall|l: int| 0 <= l < r.values.len() ==> #[trigger] meaning::some_joins(plans, l),
    ensures
        (forall|i: int|
            0 <= i < args@.len() ==> r.input_holds(#[trigger] query.in_bindings@[i], args@[i]))
            && r.all_hold(query.where_clauses@) ==> exists|k: int|
            0 <= k < rows@.len() && shows(r, query, #[trigger] rows@[k]),
        forall|k: int|
            0 <= k < rows@.len() ==> exists|tuple: Row| #[trigger]
                r.setting.satisfies(plans, tuple) && tuple.len() == r.values.len() && shows_tuple(
                    query,
                    tuple,
                    #[trigger] rows@[k],
                ),
{
    let setting = Setting {
        keys: keys.deep_view(),
        as_of: r.setting.as_of,
        holds: r.setting.holds,
        compute: r.setting.compute,
    };
    assert(setting == r.setting);
    let count = execute::variables(query).len() as int;
    let p = find::find_plan(query.find_spec, execute::variables(query))->Ok_0;
    lemma_plain_columns(query);
    let tuples = choose|tuples: Seq<Row>| #[trigger]
        execute::joined(setting, plans, count, tuples) && find::answers(
            fold,
            query,
            args@,
            tuples,
            p,
            rows@,
        );
    let selected = choose|selected: Vec<Vec<DataType>>| #[trigger]
        find::selected_rows(fold, tuples, p, selected@) && find::ordered_and_limited(
            lower::value_rows(selected@),
            query.order,
            find::resolved_limit(query.limit, query.in_bindings@, args@),
            query.find_spec,
            lower::value_rows(rows@),
        );
    let all = lower::value_rows(selected@);
    assert(all.take(all.len() as int) =~= all);
    assert(lower::value_rows(rows@) == all);
    assert(lower::value_rows(rows@).len() == rows@.len() && all.len() == selected@.len());
    assert forall|k: int| 0 <= k < rows@.len() implies shows_tuple(
        query,
        tuples[k],
        #[trigger] rows@[k],
    ) by {
        lemma_row(query, tuples[k], p, selected@[k], rows@[k]);
        assert(lower::value_rows(rows@)[k] == lower::values(rows@[k]@));
        assert(all[k] == lower::values(selected@[k]@));
        assert(selected@[k]@.len() == p.columns.len());
        assert forall|c: int| 0 <= c < p.columns.len() implies find::projected(
            tuples[k],
            p,
            c,
            (#[trigger] selected@[k]@[c])@,
        ) by {}
    }
    assert forall|k: int| 0 <= k < rows@.len() implies exists|tuple: Row| #[trigger]
        r.setting.satisfies(plans, tuple) && tuple.len() == r.values.len() && shows_tuple(
            query,
            tuple,
            #[trigger] rows@[k],
        ) by {
        assert(tuples.contains(tuples[k]));
        assert(r.setting.satisfies(plans, tuples[k]));
        assert(shows_tuple(query, tuples[k], rows@[k]));
    }
    if (forall|i: int|
        0 <= i < args@.len() ==> r.input_holds(#[trigger] query.in_bindings@[i], args@[i]))
        && r.all_hold(query.where_clauses@) {
        answer_laws::law_query_finds_what_holds(r, query, args@, plans);
        assert(tuples.contains(r.tuple()));
        let k = tuples.index_of(r.tuple());
        assert(shows_tuple(query, tuples[k], rows@[k]));
        assert forall|c: int| 0 <= c < width(query) implies (#[trigger] rows@[k]@[c])@
            == r.value_of(asked(query, c)) by {
            let l = r.order.index_of(asked(query, c));
            assert(column_shows(query, p.columns[c], p.keys, c));
            assert(r.order.contains(asked(query, c)));
            codec::law_decode_encoded(r.values[l], Seq::empty());
            assert(codec::encoding(r.values[l]) + Seq::<u8>::empty() =~= codec::encoding(
                r.values[l],
            ));
        }
        assert(shows(r, query, rows@[k]));
    }
}

/// A projected row shows what the tuple holds.
proof fn lemma_row(
    query: ParsedQuery,
    tuple: Row,
    p: find::FindView,
    selected: Vec<DataType>,
    row: Vec<DataType>,
)
    requires
        p.columns.len() == width(query),
        forall|c: int|
            0 <= c < width(query) ==> column_shows(query, #[trigger] p.columns[c], p.keys, c),
    ensures
        selected@.len() == p.columns.len() && lower::values(selected@) == lower::values(row@) && (
        forall|c: int|
            0 <= c < p.columns.len() ==> find::projected(
                tuple,
                p,
                c,
                (#[trigger] selected@[c])@,
            )) ==> shows_tuple(query, tuple, row),
{
    if selected@.len() == p.columns.len() && lower::values(selected@) == lower::values(row@)
        && forall|c: int|
        0 <= c < p.columns.len() ==> find::projected(tuple, p, c, (#[trigger] selected@[c])@) {
        assert(lower::values(row@).len() == row@.len());
        assert(lower::values(selected@).len() == selected@.len());
        assert forall|c: int| 0 <= c < width(query) implies find::value_at(
            tuple,
            execute::variables(query).index_of(asked(query, c)),
        ) == Some((#[trigger] row@[c])@) by {
            assert(lower::values(row@)[c] == row@[c]@);
            assert(lower::values(selected@)[c] == selected@[c]@);
            assert(find::projected(tuple, p, c, selected@[c]@));
            assert(column_shows(query, p.columns[c], p.keys, c));
        }
    }
}

} // verus!
