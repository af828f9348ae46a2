//! From the tuples of a join to the rows that a query asks for.

use vstd::prelude::*;

use crate::algo::generic_join::ResultTuple;
use crate::byte_string::{self, append_bytes, find_bytes, Row};
use crate::codec;
use crate::error::{self, Error, ErrorView};
use crate::expr;
use crate::query::ast::{
    Binding, Direction, Element, FindSpec, FnArg, Limit, Order, ParsedQuery, QueryArg,
};
use crate::query::compile;
use crate::query::convert::same_text;
use crate::query::lower;
use crate::query::order::{self, stable_places};
use crate::query::shown::{self, argument_text};
use crate::value::{copy_values, DataType, Value};
use crate::variable::{self, position, Name, Variable};

verus! {

/// The rows of a result.
pub type QueryResult = Vec<Vec<DataType>>;

/// The aggregates.
#[derive(Clone, Copy, Debug, PartialEq, Eq, Hash, Structural)]
pub enum AggregateFunc {
    Count,
    CountDistinct,
    Sum,
    Avg,
    Min,
    Max,
}

impl AggregateFunc {
    /// The name of the aggregate in queries.
    pub fn name(&self) -> (r: &'static str)
        ensures
            aggregate_func(r@) == Some(*self),
    {
        proof {
            reveal_strlit("count");
            reveal_strlit("count-distinct");
            reveal_strlit("sum");
            reveal_strlit("avg");
            reveal_strlit("min");
            reveal_strlit("max");
            assert("count"@.len() == 5 && "count-distinct"@.len() == 14);
            assert("sum"@[0] == 's' && "avg"@[0] == 'a' && "min"@[0] == 'm' && "max"@[0] == 'm');
            assert("min"@[1] == 'i' && "max"@[1] == 'a');
            assert("sum"@.len() == 3 && "avg"@.len() == 3 && "min"@.len() == 3 && "max"@.len()
                == 3);
        }
        match self {
            AggregateFunc::Count => "count",
            AggregateFunc::CountDistinct => "count-distinct",
            AggregateFunc::Sum => "sum",
            AggregateFunc::Avg => "avg",
            AggregateFunc::Min => "min",
            AggregateFunc::Max => "max",
        }
    }
}

/// The aggregate of that name.
pub open spec fn aggregate_func(name: Seq<char>) -> Option<AggregateFunc> {
    if name == "count"@ {
        Some(AggregateFunc::Count)
    } else if name == "count-distinct"@ {
        Some(AggregateFunc::CountDistinct)
    } else if name == "sum"@ {
        Some(AggregateFunc::Sum)
    } else if name == "avg"@ {
        Some(AggregateFunc::Avg)
    } else if name == "min"@ {
        Some(AggregateFunc::Min)
    } else if name == "max"@ {
        Some(AggregateFunc::Max)
    } else {
        None
    }
}

/// The aggregate of that name.
pub fn parse_aggregate_func(name: &str) -> (r: Result<AggregateFunc, Error>)
    ensures
        match r {
            Ok(f) => aggregate_func(name@) == Some(f),
            Err(e) => e@ == ErrorView::UnknownAggregate(name@) && aggregate_func(name@) is None,
        },
{
    if same_text(name, "count") {
        Ok(AggregateFunc::Count)
    } else if same_text(name, "count-distinct") {
        Ok(AggregateFunc::CountDistinct)
    } else if same_text(name, "sum") {
        Ok(AggregateFunc::Sum)
    } else if same_text(name, "avg") {
        Ok(AggregateFunc::Avg)
    } else if same_text(name, "min") {
        Ok(AggregateFunc::Min)
    } else if same_text(name, "max") {
        Ok(AggregateFunc::Max)
    } else {
        Err(Error::UnknownAggregate(name.to_owned()))
    }
}

/// How a column of the result comes about: from one of the values to group by, or by an
/// aggregate over a level of the join.
#[derive(Clone, Copy, Debug, PartialEq, Eq, Structural)]
pub enum Projection {
    GroupVar(usize),
    Aggregate(AggregateFunc, usize),
}

/// How the result comes about: the levels to group by, and the columns.
#[derive(Debug)]
pub struct FindPlan {
    pub group_key_indices: Vec<usize>,
    pub projections: Vec<Projection>,
    pub has_aggregates: bool,
}

/// What a find plan is.
pub struct FindView {
    pub keys: Seq<usize>,
    pub columns: Seq<Projection>,
    pub aggregates: bool,
}

impl View for FindPlan {
    type V = FindView;

    open spec fn view(&self) -> FindView {
        FindView {
            keys: self.group_key_indices@,
            columns: self.projections@,
            aggregates: self.has_aggregates,
        }
    }
}

impl FindView {
    /// Whether the plan reads tuples of that width, and tells rightly whether it aggregates.
    pub open spec fn fits(self, width: int) -> bool {
        &&& forall|i: int| 0 <= i < self.keys.len() ==> (#[trigger] self.keys[i]) < width
        &&& forall|c: int|
            0 <= c < self.columns.len() ==> match #[trigger] self.columns[c] {
                Projection::GroupVar(g) => g < self.keys.len(),
                Projection::Aggregate(_, level) => level < width && self.aggregates,
            }
    }
}

/// A plan with the column of one element more.
pub open spec fn with_element(p: FindView, element: Element, order: Seq<Name>) -> Result<
    FindView,
    ErrorView,
> {
    match element {
        Element::Variable(v) => match compile::level_of(order, v@) {
            None => Err(ErrorView::FindVariable(v@)),
            Some(level) => Ok(
                FindView {
                    keys: p.keys.push(level),
                    columns: p.columns.push(Projection::GroupVar(p.keys.len() as usize)),
                    aggregates: p.aggregates,
                },
            ),
        },
        Element::Aggregate(a) => match aggregate_func(a.func@) {
            None => Err(ErrorView::UnknownAggregate(a.func@)),
            Some(f) => if a.args@.len() != 1 {
                Err(ErrorView::AggregateArity(a.func@, a.args@.len() as usize))
            } else {
                match a.args@[0] {
                    FnArg::Variable(v) => match compile::level_of(order, v@) {
                        None => Err(ErrorView::AggregateVariable(v@)),
                        Some(level) => Ok(
                            FindView {
                                keys: p.keys,
                                columns: p.columns.push(Projection::Aggregate(f, level)),
                                aggregates: true,
                            },
                        ),
                    },
                    other => Err(ErrorView::AggregateArgument(shown::argument_shown(other))),
                }
            },
        },
        Element::Corresponding => Err(ErrorView::UnsupportedElement),
        Element::Pull => Err(ErrorView::UnsupportedElement),
    }
}

/// The plan of the elements of a find clause; the first without a column decides the error.
pub open spec fn elements_plan(elements: Seq<Element>, order: Seq<Name>) -> Result<FindView, ErrorView>
    decreases elements.len(),
{
    if elements.len() == 0 {
        Ok(FindView { keys: Seq::empty(), columns: Seq::empty(), aggregates: false })
    } else {
        match elements_plan(elements.drop_last(), order) {
            Err(e) => Err(e),
            Ok(p) => with_element(p, elements.last(), order),
        }
    }
}

/// The plan of a find clause. Only relations can be asked for.
pub open spec fn find_plan(find: FindSpec, order: Seq<Name>) -> Result<FindView, ErrorView> {
    match find {
        FindSpec::FindRel(elements) => elements_plan(elements@, order),
        _ => Err(ErrorView::UnsupportedFind),
    }
}

/// An error among the first elements is that of all.
proof fn lemma_elements_error(elements: Seq<Element>, order: Seq<Name>, n: int)
    requires
        0 <= n <= elements.len(),
        elements_plan(elements.take(n), order) is Err,
    ensures
        elements_plan(elements, order) == elements_plan(elements.take(n), order),
    decreases elements.len(),
{
    if n < elements.len() {
        assert(elements.drop_last().take(n) =~= elements.take(n));
        lemma_elements_error(elements.drop_last(), order, n);
    } else {
        assert(elements.take(n) =~= elements);
    }
}

/// The level of a variable in a join order, if it has one.
fn level_in(order: &[Variable], v: &Variable) -> (r: Option<usize>)
    requires
        variable::unique(order.deep_view()),
    ensures
        r == compile::level_of(order.deep_view(), v@),
        r matches Some(l) ==> l < order@.len(),
{
    assert(order.deep_view().len() == order@.len());
    match position(order, v) {
        Some(i) => {
            proof {
                crate::query::binding_bag::lemma_index_of(order.deep_view(), i as int);
                assert(order.deep_view().contains(order.deep_view()[i as int]));
            }
            Some(i)
        },
        None => None,
    }
}

/// The plan of a find clause.
pub fn compile_find_plan(find: &FindSpec, join_order: &[Variable]) -> (r: Result<FindPlan, Error>)
    requires
        variable::unique(join_order.deep_view()),
    ensures
        match r {
            Ok(plan) => find_plan(*find, join_order.deep_view()) == Ok::<FindView, ErrorView>(plan@)
                && plan@.fits(join_order@.len() as int),
            Err(e) => find_plan(*find, join_order.deep_view()) == Err::<FindView, ErrorView>(e@),
        },
{
    let ghost order = join_order.deep_view();
    let elements = match find {
        FindSpec::FindRel(elements) => elements,
        _ => {
            return Err(Error::UnsupportedFind);
        },
    };
    let mut plan = FindPlan {
        group_key_indices: Vec::new(),
        projections: Vec::new(),
        has_aggregates: false,
    };
    let mut i: usize = 0;
    assert(plan@.keys =~= Seq::<usize>::empty());
    assert(plan@.columns =~= Seq::<Projection>::empty());
    while i < elements.len()
        invariant
            i <= elements@.len(),
            *find == FindSpec::FindRel(*elements),
            order == join_order.deep_view(),
            variable::unique(order),
            elements_plan(elements@.take(i as int), order) == Ok::<FindView, ErrorView>(plan@),
            plan@.fits(join_order@.len() as int),
        decreases elements@.len() - i,
    {
        let ghost before = plan@;
        proof {
            assert(elements@.take(i + 1).drop_last() =~= elements@.take(i as int));
            assert(elements@.take(i + 1).last() == elements@[i as int]);
            if elements_plan(elements@.take(i + 1), order) is Err {
                lemma_elements_error(elements@, order, i + 1);
            }
        }
        match &elements[i] {
            Element::Variable(var) => {
                let level: usize = match level_in(join_order, var) {
                    Some(level) => level,
                    None => {
                        return Err(Error::FindVariable(var.name.clone()));
                    },
                };
                let group: usize = plan.group_key_indices.len();
                plan.group_key_indices.push(level);
                plan.projections.push(Projection::GroupVar(group));
            },
            Element::Aggregate(aggregate) => {
                let func = match parse_aggregate_func(aggregate.func.as_str()) {
                    Ok(func) => func,
                    Err(e) => {
                        return Err(e);
                    },
                };
                if aggregate.args.len() != 1 {
                    return Err(
                        Error::AggregateArity(aggregate.func.clone(), aggregate.args.len()),
                    );
                }
                let var = match &aggregate.args[0] {
                    FnArg::Variable(var) => var,
                    other => {
                        return Err(Error::AggregateArgument(argument_text(other)));
                    },
                };
                let level: usize = match level_in(join_order, var) {
                    Some(level) => level,
                    None => {
                        return Err(Error::AggregateVariable(var.name.clone()));
                    },
                };
                plan.has_aggregates = true;
                plan.projections.push(Projection::Aggregate(func, level));
            },
            _ => {
                return Err(Error::UnsupportedElement);
            },
        }
        proof {
            assert forall|c: int| 0 <= c < plan@.columns.len() implies match #[trigger] plan@.columns[c] {
                Projection::GroupVar(g) => g < plan@.keys.len(),
                Projection::Aggregate(_, level) => level < join_order@.len() && plan@.aggregates,
            } by {
                if c < before.columns.len() {
                    assert(plan@.columns[c] == before.columns[c]);
                }
            }
            assert forall|k: int| 0 <= k < plan@.keys.len() implies (#[trigger] plan@.keys[k])
                < join_order@.len() by {
                if k < before.keys.len() {
                    assert(plan@.keys[k] == before.keys[k]);
                }
            }
        }
        i += 1;
    }
    assert(elements@.take(i as int) =~= elements@);
    Ok(plan)
}

/// Whether all tuples have that width.
pub open spec fn of_width(tuples: Seq<Row>, width: int) -> bool {
    forall|i: int| 0 <= i < tuples.len() ==> (#[trigger] tuples[i]).len() == width
}

/// The value at a level of a tuple.
pub open spec fn value_at(tuple: Row, level: int) -> Option<Value> {
    match codec::decoded(tuple[level]) {
        Some(found) => Some(found.0),
        None => None,
    }
}

/// Whether a column of a row holds the value that the plan says.
pub open spec fn projected(tuple: Row, plan: FindView, c: int, value: Value) -> bool {
    plan.columns[c] matches Projection::GroupVar(g) && value_at(tuple, plan.keys[g as int] as int)
        == Some(value)
}

/// Whether a column of a tuple can be read.
pub open spec fn column_readable(tuple: Row, plan: FindView, c: int) -> bool {
    plan.columns[c] matches Projection::GroupVar(g) ==> value_at(tuple, plan.keys[g as int] as int)
        is Some
}

/// Whether rows are those of a plan without aggregates.
pub open spec fn plain_rows(tuples: Seq<Row>, plan: FindView, rows: Seq<Vec<DataType>>) -> bool {
    rows.len() == tuples.len() && forall|i: int|
        0 <= i < rows.len() ==> (#[trigger] rows[i])@.len() == plan.columns.len() && forall|c: int|
            0 <= c < plan.columns.len() ==> projected(
                tuples[i],
                plan,
                c,
                (#[trigger] rows[i]@[c])@,
            )
}

/// Whether all that a plan without aggregates reads can be read.
pub open spec fn plain_readable(tuples: Seq<Row>, plan: FindView) -> bool {
    forall|i: int, c: int|
        0 <= i < tuples.len() && 0 <= c < plan.columns.len() ==> #[trigger] column_readable(
            tuples[i],
            plan,
            c,
        )
}

/// The rows without aggregation: the values of the find clause's variables in each tuple.
pub fn project_results(results: &Vec<ResultTuple>, plan: &FindPlan, width: usize) -> (r: Result<
    QueryResult,
    Error,
>)
    requires
        of_width(results.deep_view(), width as int),
        plan@.fits(width as int),
        !plan.has_aggregates,
    ensures
        match r {
            Ok(rows) => plain_rows(results.deep_view(), plan@, rows@),
            Err(e) => e@ == ErrorView::Decode && !plain_readable(results.deep_view(), plan@),
        },
{
    let ghost tuples = results.deep_view();
    assert(tuples.len() == results@.len());
    let mut rows: QueryResult = Vec::new();
    let mut i: usize = 0;
    while i < results.len()
        invariant
            i <= results@.len() == tuples.len(),
            tuples == results.deep_view(),
            of_width(tuples, width as int),
            plan@.fits(width as int),
            !plan.has_aggregates,
            rows@.len() == i,
            forall|k: int|
                0 <= k < i ==> (#[trigger] rows@[k])@.len() == plan@.columns.len() && forall|c: int|
                    0 <= c < plan@.columns.len() ==> projected(
                        tuples[k],
                        plan@,
                        c,
                        (#[trigger] rows@[k]@[c])@,
                    ),
        decreases results@.len() - i,
    {
        let mut row: Vec<DataType> = Vec::new();
        let mut c: usize = 0;
        assert(tuples[i as int].len() == width);
        assert(results@[i as int]@.len() == width);
        while c < plan.projections.len()
            invariant
                i < results@.len() == tuples.len(),
                tuples == results.deep_view(),
                results@[i as int]@.len() == width,
                c <= plan@.columns.len(),
                plan@.fits(width as int),
                !plan.has_aggregates,
                row@.len() == c,
                forall|k: int|
                    0 <= k < c ==> projected(tuples[i as int], plan@, k, (#[trigger] row@[k])@),
            decreases plan@.columns.len() - c,
        {
            let projection = plan.projections[c];
            assert(projection == plan@.columns[c as int]);
            match projection {
                Projection::GroupVar(g) => {
                    let level: usize = plan.group_key_indices[g];
                    proof {
                        assert(plan@.keys[g as int] < width);
                        byte_string::lemma_deep_bytes(&results@[i as int]@[level as int]);
                    }
                    match codec::decode(&results[i][level]) {
                        Ok(value) => {
                            row.push(value);
                        },
                        Err(e) => {
                            assert(!column_readable(tuples[i as int], plan@, c as int));
                            return Err(e);
                        },
                    }
                },
                Projection::Aggregate(_, _) => {
                    assert(false);
                },
            }
            c += 1;
        }
        rows.push(row);
        i += 1;
    }
    Ok(rows)
}

/// What tuples are grouped by: the bytes of their values at the levels, one after another.
pub open spec fn group_key(tuple: Row, keys: Seq<usize>) -> Seq<u8>
    decreases keys.len(),
{
    if keys.len() == 0 {
        Seq::empty()
    } else {
        group_key(tuple, keys.drop_last()) + tuple[keys.last() as int]
    }
}

/// Whether a tuple holds the encodings of values at the levels.
pub open spec fn holds_at(tuple: Row, keys: Seq<usize>, values: Seq<Value>) -> bool {
    keys.len() == values.len() && forall|i: int|
        0 <= i < keys.len() ==> tuple[#[trigger] keys[i] as int] == codec::encoding(values[i])
}

/// Encodings one after another tell where each ends, whatever follows the last.
proof fn lemma_group_key_parts(
    s: Row,
    t: Row,
    keys: Seq<usize>,
    a: Seq<Value>,
    b: Seq<Value>,
    x: Seq<u8>,
    y: Seq<u8>,
)
    requires
        holds_at(s, keys, a),
        holds_at(t, keys, b),
        group_key(s, keys) + x == group_key(t, keys) + y,
    ensures
        a == b,
        x == y,
    decreases keys.len(),
{
    if keys.len() == 0 {
        assert(a =~= b);
        assert(group_key(s, keys) + x =~= x);
        assert(group_key(t, keys) + y =~= y);
    } else {
        let front = keys.drop_last();
        let n = keys.len() - 1;
        assert(keys[n] == keys.last());
        let v = codec::encoding(a[n]);
        let w = codec::encoding(b[n]);
        assert(group_key(s, keys) + x =~= group_key(s, front) + (v + x));
        assert(group_key(t, keys) + y =~= group_key(t, front) + (w + y));
        assert forall|i: int| 0 <= i < front.len() implies s[#[trigger] front[i] as int]
            == codec::encoding(a.drop_last()[i]) && t[front[i] as int] == codec::encoding(
            b.drop_last()[i],
        ) by {
            assert(front[i] == keys[i]);
        }
        lemma_group_key_parts(s, t, front, a.drop_last(), b.drop_last(), v + x, w + y);
        codec::law_decode_encoded(a[n], x);
        codec::law_decode_encoded(b[n], y);
        assert((v + x).skip(v.len() as int) =~= x);
        assert((w + y).skip(w.len() as int) =~= y);
        assert(a =~= a.drop_last().push(a[n]));
        assert(b =~= b.drop_last().push(b[n]));
    }
}

/// Tuples are grouped together just where they hold the same values to group by: what they are
/// grouped by tells different combinations of values apart.
pub proof fn law_group_key_tells_values_apart(
    s: Row,
    t: Row,
    keys: Seq<usize>,
    a: Seq<Value>,
    b: Seq<Value>,
)
    requires
        holds_at(s, keys, a),
        holds_at(t, keys, b),
    ensures
        (group_key(s, keys) == group_key(t, keys)) == (a == b),
{
    let nothing = Seq::<u8>::empty();
    if group_key(s, keys) == group_key(t, keys) {
        lemma_group_key_parts(s, t, keys, a, b, nothing, nothing);
    }
    if a == b {
        lemma_same_group_key(s, t, keys, a);
    }
}

/// Tuples that hold the same values are grouped by the same.
proof fn lemma_same_group_key(s: Row, t: Row, keys: Seq<usize>, values: Seq<Value>)
    requires
        holds_at(s, keys, values),
        holds_at(t, keys, values),
    ensures
        group_key(s, keys) == group_key(t, keys),
    decreases keys.len(),
{
    if keys.len() > 0 {
        let front = keys.drop_last();
        assert forall|i: int| 0 <= i < front.len() implies s[#[trigger] front[i] as int]
            == codec::encoding(values.drop_last()[i]) && t[front[i] as int] == codec::encoding(
            values.drop_last()[i],
        ) by {
            assert(front[i] == keys[i]);
        }
        lemma_same_group_key(s, t, front, values.drop_last());
        assert(keys[keys.len() - 1] == keys.last());
    }
}

/// What each tuple is grouped by.
pub open spec fn tuple_keys(tuples: Seq<Row>, keys: Seq<usize>) -> Seq<Seq<u8>> {
    Seq::new(tuples.len(), |i: int| group_key(tuples[i], keys))
}

/// The groups in the order of their first tuple. Where there is nothing to group by there is one
/// group, even without tuples.
pub open spec fn groups(tuples: Seq<Row>, keys: Seq<usize>) -> Seq<Seq<u8>> {
    expr::with_new(
        if keys.len() == 0 {
            seq![Seq::<u8>::empty()]
        } else {
            Seq::empty()
        },
        tuple_keys(tuples, keys),
    )
}

/// The tuples of a group, in order.
pub open spec fn members(tuples: Seq<Row>, keys: Seq<usize>, key: Seq<u8>) -> Seq<Row>
    decreases tuples.len(),
{
    if tuples.len() == 0 {
        Seq::empty()
    } else {
        let earlier = members(tuples.drop_last(), keys, key);
        if group_key(tuples.last(), keys) == key {
            earlier.push(tuples.last())
        } else {
            earlier
        }
    }
}

/// The values of tuples at a level; none where one cannot be read.
pub open spec fn level_values(tuples: Seq<Row>, level: int) -> Option<Seq<Value>>
    decreases tuples.len(),
{
    if tuples.len() == 0 {
        Some(Seq::empty())
    } else {
        match (level_values(tuples.drop_last(), level), value_at(tuples.last(), level)) {
            (Some(front), Some(v)) => Some(front.push(v)),
            _ => None,
        }
    }
}

/// Whether an aggregation gives a result on values.
pub open spec fn folds<F: Fn(&AggregateFunc, &Vec<DataType>) -> Result<DataType, Error>>(
    fold: F,
    func: AggregateFunc,
    values: Seq<Value>,
    result: Result<DataType, ErrorView>,
) -> bool {
    exists|v: Vec<DataType>, out: Result<DataType, Error>|
        v.deep_view() == values && #[trigger] call_ensures(fold, (&func, &v), out)
            && error::told(out) == result
}

/// Whether a column of a group's row holds what the plan says: the value to group by of the
/// group's first tuple, or the aggregate over the values of all its tuples.
pub open spec fn cell<F: Fn(&AggregateFunc, &Vec<DataType>) -> Result<DataType, Error>>(
    fold: F,
    tuples: Seq<Row>,
    plan: FindView,
    key: Seq<u8>,
    c: int,
    value: DataType,
) -> bool {
    let group = members(tuples, plan.keys, key);
    match plan.columns[c] {
        Projection::GroupVar(g) => group.len() > 0 && value_at(
            group[0],
            plan.keys[g as int] as int,
        ) == Some(value@),
        Projection::Aggregate(func, level) => level_values(group, level as int) matches Some(vs)
            && folds(fold, func, vs, Ok(value)),
    }
}

/// Whether a column of a group's row cannot be had: because of a value that cannot be read, or
/// because the aggregation fails.
pub open spec fn cell_fails<F: Fn(&AggregateFunc, &Vec<DataType>) -> Result<DataType, Error>>(
    fold: F,
    tuples: Seq<Row>,
    plan: FindView,
    key: Seq<u8>,
    c: int,
    e: ErrorView,
) -> bool {
    let group = members(tuples, plan.keys, key);
    match plan.columns[c] {
        Projection::GroupVar(g) => e == ErrorView::Decode && group.len() > 0 && value_at(
            group[0],
            plan.keys[g as int] as int,
        ) is None,
        Projection::Aggregate(func, level) => match level_values(group, level as int) {
            Some(vs) => folds(fold, func, vs, Err::<DataType, ErrorView>(e)),
            None => e == ErrorView::Decode,
        },
    }
}

/// Whether rows are those of a plan with aggregates.
pub open spec fn grouped_rows<F: Fn(&AggregateFunc, &Vec<DataType>) -> Result<DataType, Error>>(
    fold: F,
    tuples: Seq<Row>,
    plan: FindView,
    rows: Seq<Vec<DataType>>,
) -> bool {
    rows.len() == groups(tuples, plan.keys).len() && forall|n: int|
        0 <= n < rows.len() ==> (#[trigger] rows[n])@.len() == plan.columns.len() && forall|c: int|
            0 <= c < plan.columns.len() ==> cell(
                fold,
                tuples,
                plan,
                groups(tuples, plan.keys)[n],
                c,
                #[trigger] rows[n]@[c],
            )
}

/// Whether a column of some group's row cannot be had.
pub open spec fn grouping_fails<F: Fn(&AggregateFunc, &Vec<DataType>) -> Result<DataType, Error>>(
    fold: F,
    tuples: Seq<Row>,
    plan: FindView,
    e: ErrorView,
) -> bool {
    exists|n: int, c: int|
        0 <= n < groups(tuples, plan.keys).len() && 0 <= c < plan.columns.len()
            && #[trigger] cell_fails(fold, tuples, plan, groups(tuples, plan.keys)[n], c, e)
}

/// What a tuple is grouped by.
fn key_of(tuple: &ResultTuple, keys: &Vec<usize>) -> (r: Vec<u8>)
    requires
        forall|i: int| 0 <= i < keys@.len() ==> (#[trigger] keys@[i]) < tuple@.len(),
    ensures
        r@ == group_key(tuple.deep_view(), keys@),
{
    let mut key: Vec<u8> = Vec::new();
    let mut i: usize = 0;
    assert(key@ =~= group_key(tuple.deep_view(), keys@.take(0)));
    while i < keys.len()
        invariant
            i <= keys@.len(),
            forall|j: int| 0 <= j < keys@.len() ==> (#[trigger] keys@[j]) < tuple@.len(),
            key@ == group_key(tuple.deep_view(), keys@.take(i as int)),
        decreases keys@.len() - i,
    {
        let level: usize = keys[i];
        proof {
            assert(keys@.take(i + 1).drop_last() =~= keys@.take(i as int));
            byte_string::lemma_deep_bytes(&tuple@[level as int]);
        }
        append_bytes(&mut key, &tuple[level]);
        i += 1;
    }
    assert(keys@.take(i as int) =~= keys@);
    key
}

/// The values at a level of the tuples whose key is given.
fn values_of_group(
    results: &Vec<ResultTuple>,
    keys: &Vec<Vec<u8>>,
    key: &Vec<u8>,
    level: usize,
    Ghost(by): Ghost<Seq<usize>>,
) -> (r: Result<Vec<DataType>, Error>)
    requires
        keys.deep_view() == tuple_keys(results.deep_view(), by),
        forall|i: int| 0 <= i < results@.len() ==> level < (#[trigger] results@[i])@.len(),
    ensures
        match r {
            Ok(values) => level_values(
                members(results.deep_view(), by, key@),
                level as int,
            ) == Some(values.deep_view()),
            Err(e) => e@ == ErrorView::Decode && level_values(
                members(results.deep_view(), by, key@),
                level as int,
            ) is None,
        },
{
    let ghost tuples = results.deep_view();
    assert(tuples.len() == results@.len());
    assert(keys.deep_view().len() == keys@.len());
    let mut values: Vec<DataType> = Vec::new();
    let mut i: usize = 0;
    assert(values.deep_view() =~= Seq::<Value>::empty());
    assert(members(tuples.take(0), by, key@).len() == 0);
    while i < results.len()
        invariant
            i <= results@.len() == tuples.len(),
            tuples == results.deep_view(),
            keys@.len() == tuples.len(),
            keys.deep_view() == tuple_keys(tuples, by),
            forall|k: int| 0 <= k < results@.len() ==> level < (#[trigger] results@[k])@.len(),
            level_values(members(tuples.take(i as int), by, key@), level as int) == Some(
                values.deep_view(),
            ),
        decreases results@.len() - i,
    {
        let ghost earlier_group = members(tuples.take(i as int), by, key@);
        proof {
            assert(tuples.take(i + 1).drop_last() =~= tuples.take(i as int));
            assert(tuples.take(i + 1).last() == tuples[i as int]);
            byte_string::lemma_deep_bytes(&keys@[i as int]);
            assert(keys@[i as int]@ == keys.deep_view()[i as int]);
            assert(earlier_group.push(tuples[i as int]).drop_last() =~= earlier_group);
        }
        if byte_string::same_bytes(&keys[i], key) {
            proof {
                byte_string::lemma_deep_bytes(&results@[i as int]@[level as int]);
            }
            match codec::decode(&results[i][level]) {
                Ok(value) => {
                    let ghost earlier = values;
                    values.push(value);
                    proof {
                        byte_string::lemma_deep_push(earlier, values, value);
                    }
                },
                Err(e) => {
                    proof {
                        lemma_unreadable(tuples, by, key@, level as int, i + 1);
                    }
                    return Err(e);
                },
            }
        }
        i += 1;
    }
    assert(tuples.take(i as int) =~= tuples);
    Ok(values)
}

/// A value that cannot be read among the first tuples of a group is one of the group.
proof fn lemma_unreadable(tuples: Seq<Row>, by: Seq<usize>, key: Seq<u8>, level: int, n: int)
    requires
        0 <= n <= tuples.len(),
        level_values(members(tuples.take(n), by, key), level) is None,
    ensures
        level_values(members(tuples, by, key), level) is None,
    decreases tuples.len(),
{
    if n < tuples.len() {
        assert(tuples.drop_last().take(n) =~= tuples.take(n));
        lemma_unreadable(tuples.drop_last(), by, key, level, n);
        let earlier = members(tuples.drop_last(), by, key);
        assert(earlier.push(tuples.last()).drop_last() =~= earlier);
    } else {
        assert(tuples.take(n) =~= tuples);
    }
}

/// The first tuple with a key is the first of its group.
proof fn lemma_first_member(tuples: Seq<Row>, by: Seq<usize>, key: Seq<u8>, k: int)
    requires
        0 <= k < tuples.len(),
        group_key(tuples[k], by) == key,
        forall|i: int| 0 <= i < k ==> group_key(#[trigger] tuples[i], by) != key,
    ensures
        members(tuples, by, key).len() > 0,
        members(tuples, by, key)[0] == tuples[k],
    decreases tuples.len(),
{
    if k < tuples.len() - 1 {
        assert forall|i: int| 0 <= i < k implies group_key(
            #[trigger] tuples.drop_last()[i],
            by,
        ) != key by {
            assert(tuples.drop_last()[i] == tuples[i]);
        }
        lemma_first_member(tuples.drop_last(), by, key, k);
    } else {
        lemma_no_member(tuples.drop_last(), by, key);
    }
}

/// Without a tuple of its key a group is empty.
proof fn lemma_no_member(tuples: Seq<Row>, by: Seq<usize>, key: Seq<u8>)
    requires
        forall|i: int| 0 <= i < tuples.len() ==> group_key(#[trigger] tuples[i], by) != key,
    ensures
        members(tuples, by, key).len() == 0,
    decreases tuples.len(),
{
    if tuples.len() > 0 {
        assert(tuples.last() == tuples[tuples.len() - 1]);
        assert forall|i: int| 0 <= i < tuples.drop_last().len() implies group_key(
            #[trigger] tuples.drop_last()[i],
            by,
        ) != key by {
            assert(tuples.drop_last()[i] == tuples[i]);
        }
        lemma_no_member(tuples.drop_last(), by, key);
    }
}

/// The keys of all tuples.
fn all_keys(results: &Vec<ResultTuple>, keys: &Vec<usize>, width: usize) -> (r: Vec<Vec<u8>>)
    requires
        of_width(results.deep_view(), width as int),
        forall|i: int| 0 <= i < keys@.len() ==> (#[trigger] keys@[i]) < width,
    ensures
        r.deep_view() == tuple_keys(results.deep_view(), keys@),
{
    let ghost wanted = tuple_keys(results.deep_view(), keys@);
    let mut out: Vec<Vec<u8>> = Vec::new();
    let mut i: usize = 0;
    assert(wanted.len() == results@.len());
    assert(out.deep_view() =~= wanted.take(0));
    while i < results.len()
        invariant
            i <= results@.len() == wanted.len(),
            wanted == tuple_keys(results.deep_view(), keys@),
            of_width(results.deep_view(), width as int),
            forall|j: int| 0 <= j < keys@.len() ==> (#[trigger] keys@[j]) < width,
            out.deep_view() == wanted.take(i as int),
        decreases results@.len() - i,
    {
        assert(results.deep_view()[i as int].len() == width);
        assert(results@[i as int]@.len() == width);
        let key = key_of(&results[i], keys);
        let ghost earlier = out;
        out.push(key);
        proof {
            byte_string::lemma_deep_bytes(&key);
            byte_string::lemma_deep_push(earlier, out, key);
        }
        i += 1;
        assert(out.deep_view() =~= wanted.take(i as int));
    }
    assert(wanted.take(i as int) =~= wanted);
    out
}

/// The groups of tuples.
fn all_groups(keys: &Vec<Vec<u8>>, grouped: bool) -> (r: Vec<Vec<u8>>)
    ensures
        r.deep_view() == expr::with_new(
            if grouped {
                Seq::empty()
            } else {
                seq![Seq::<u8>::empty()]
            },
            keys.deep_view(),
        ),
{
    let ghost all = keys.deep_view();
    let ghost start: Seq<Seq<u8>> = if grouped {
        Seq::empty()
    } else {
        seq![Seq::<u8>::empty()]
    };
    assert(all.len() == keys@.len());
    let mut out: Vec<Vec<u8>> = Vec::new();
    assert(out.deep_view() =~= Seq::<Seq<u8>>::empty());
    if !grouped {
        let empty: Vec<u8> = Vec::new();
        let ghost earlier = out;
        let ghost copy = empty;
        proof {
            byte_string::lemma_deep_bytes(&empty);
        }
        out.push(empty);
        proof {
            byte_string::lemma_deep_push(earlier, out, copy);
            assert(copy@ =~= Seq::<u8>::empty());
            assert(out.deep_view() =~= seq![Seq::<u8>::empty()]);
        }
    }
    let mut i: usize = 0;
    assert(expr::with_new(start, all.take(0)) == start);
    while i < keys.len()
        invariant
            i <= keys@.len() == all.len(),
            all == keys.deep_view(),
            out.deep_view() == expr::with_new(start, all.take(i as int)),
        decreases keys@.len() - i,
    {
        proof {
            assert(all.take(i + 1).drop_last() =~= all.take(i as int));
            assert(all.take(i + 1).last() == all[i as int]);
            byte_string::lemma_deep_bytes(&keys@[i as int]);
        }
        if find_bytes(&out, &keys[i]).is_none() {
            let key = byte_string::copy_bytes(&keys[i]);
            let ghost earlier = out;
            out.push(key);
            proof {
                byte_string::lemma_deep_bytes(&key);
                byte_string::lemma_deep_push(earlier, out, key);
            }
        }
        i += 1;
    }
    assert(all.take(i as int) =~= all);
    out
}

/// The rows with aggregation: one for each group of tuples, in the order of the groups' first
/// tuples. `fold` computes an aggregate over the values of a group.
pub fn execute_aggregation<
    F: Fn(&AggregateFunc, &Vec<DataType>) -> Result<DataType, Error>,
>(results: &Vec<ResultTuple>, plan: &FindPlan, width: usize, fold: F) -> (r: Result<
    QueryResult,
    Error,
>)
    requires
        of_width(results.deep_view(), width as int),
        plan@.fits(width as int),
        forall|f: AggregateFunc, v: Vec<DataType>| #[trigger] call_requires(fold, (&f, &v)),
    ensures
        match r {
            Ok(rows) => grouped_rows(fold, results.deep_view(), plan@, rows@),
            Err(e) => grouping_fails(fold, results.deep_view(), plan@, e@),
        },
{
    let ghost tuples = results.deep_view();
    let ghost by = plan@.keys;
    let keys = all_keys(results, &plan.group_key_indices, width);
    let group_keys = all_groups(&keys, plan.group_key_indices.len() > 0);
    let ghost all = groups(tuples, by);
    assert(group_keys.deep_view() == all);
    assert(all.len() == group_keys@.len());
    let mut rows: QueryResult = Vec::new();
    let mut n: usize = 0;
    while n < group_keys.len()
        invariant
            n <= group_keys@.len() == all.len(),
            tuples == results.deep_view(),
            by == plan@.keys,
            all == groups(tuples, by),
            group_keys.deep_view() == all,
            keys.deep_view() == tuple_keys(tuples, by),
            of_width(tuples, width as int),
            plan@.fits(width as int),
            forall|f: AggregateFunc, v: Vec<DataType>| #[trigger] call_requires(fold, (&f, &v)),
            rows@.len() == n,
            forall|k: int|
                0 <= k < n ==> (#[trigger] rows@[k])@.len() == plan@.columns.len() && forall|c: int|
                    0 <= c < plan@.columns.len() ==> cell(
                        fold,
                        tuples,
                        plan@,
                        all[k],
                        c,
                        #[trigger] rows@[k]@[c],
                    ),
        decreases group_keys@.len() - n,
    {
        proof {
            byte_string::lemma_deep_bytes(&group_keys@[n as int]);
        }
        let mut row: Vec<DataType> = Vec::new();
        let mut c: usize = 0;
        while c < plan.projections.len()
            invariant
                n < group_keys@.len() == all.len(),
                group_keys@[n as int]@ == all[n as int],
                c <= plan@.columns.len(),
                tuples == results.deep_view(),
                by == plan@.keys,
                all == groups(tuples, by),
                keys.deep_view() == tuple_keys(tuples, by),
                of_width(tuples, width as int),
                plan@.fits(width as int),
                forall|f: AggregateFunc, v: Vec<DataType>| #[trigger]
                    call_requires(fold, (&f, &v)),
                row@.len() == c,
                forall|k: int|
                    0 <= k < c ==> cell(
                        fold,
                        tuples,
                        plan@,
                        all[n as int],
                        k,
                        #[trigger] row@[k],
                    ),
            decreases plan@.columns.len() - c,
        {
            let projection = plan.projections[c];
            assert(projection == plan@.columns[c as int]);
            assert(tuples.len() == results@.len());
            match projection {
                Projection::GroupVar(g) => {
                    let level: usize = plan.group_key_indices[g];
                    assert(plan@.keys[g as int] < width);
                    let ghost key = all[n as int];
                    let at: usize = match find_bytes(&keys, &group_keys[n]) {
                        Some(at) => at,
                        None => {
                            proof {
                                expr::lemma_with_new(Seq::<Seq<u8>>::empty(), tuple_keys(tuples, by));
                                assert(all.contains(all[n as int]));
                                assert(false);
                            }
                            0
                        },
                    };
                    proof {
                        assert(keys.deep_view().len() == keys@.len());
                        assert(tuple_keys(tuples, by)[at as int] == key);
                        assert forall|i: int| 0 <= i < at implies group_key(
                            #[trigger] tuples[i],
                            by,
                        ) != key by {
                            assert(tuple_keys(tuples, by)[i] == group_key(tuples[i], by));
                        }
                        lemma_first_member(tuples, by, key, at as int);
                        assert(tuples[at as int].len() == width);
                        assert(results@[at as int]@.len() == width);
                        byte_string::lemma_deep_bytes(&results@[at as int]@[level as int]);
                    }
                    match codec::decode(&results[at][level]) {
                        Ok(value) => {
                            row.push(value);
                        },
                        Err(e) => {
                            assert(cell_fails(fold, tuples, plan@, all[n as int], c as int, e@));
                            return Err(e);
                        },
                    }
                },
                Projection::Aggregate(func, level) => {
                    proof {
                        assert forall|i: int| 0 <= i < results@.len() implies level
                            < (#[trigger] results@[i])@.len() by {
                            assert(tuples[i].len() == width);
                        }
                    }
                    let values = match values_of_group(
                        results,
                        &keys,
                        &group_keys[n],
                        level,
                        Ghost(by),
                    ) {
                        Ok(values) => values,
                        Err(e) => {
                            assert(cell_fails(fold, tuples, plan@, all[n as int], c as int, e@));
                            return Err(e);
                        },
                    };
                    let folded = fold(&func, &values);
                    assert(call_ensures(fold, (&func, &values), folded));
                    match folded {
                        Ok(value) => {
                            proof {
                                assert(folds(
                                    fold,
                                    func,
                                    values.deep_view(),
                                    Ok::<DataType, ErrorView>(value),
                                ));
                            }
                            row.push(value);
                        },
                        Err(e) => {
                            proof {
                                assert(folds(
                                    fold,
                                    func,
                                    values.deep_view(),
                                    Err::<DataType, ErrorView>(e@),
                                ));
                                assert(cell_fails(fold, tuples, plan@, all[n as int], c as int, e@));
                            }
                            return Err(e);
                        },
                    }
                },
            }
            c += 1;
        }
        rows.push(row);
        n += 1;
    }
    Ok(rows)
}

/// Where a variable stands in a find clause; of several places the last.
pub open spec fn find_position(elements: Seq<Element>, v: Name) -> Option<usize>
    decreases elements.len(),
{
    if elements.len() == 0 {
        None
    } else {
        match elements.last() {
            Element::Variable(x) => if x@ == v {
                Some((elements.len() - 1) as usize)
            } else {
                find_position(elements.drop_last(), v)
            },
            _ => find_position(elements.drop_last(), v),
        }
    }
}

/// The columns to sort by; the first variable without a column decides the error.
pub open spec fn order_columns(orders: Seq<Order>, elements: Seq<Element>) -> Result<
    Seq<(usize, Direction)>,
    ErrorView,
>
    decreases orders.len(),
{
    if orders.len() == 0 {
        Ok(Seq::empty())
    } else {
        match order_columns(orders.drop_last(), elements) {
            Err(e) => Err(e),
            Ok(front) => match find_position(elements, orders.last().variable@) {
                Some(c) => Ok(front.push((c, orders.last().direction))),
                None => Err(ErrorView::OrderVariable(orders.last().variable@)),
            },
        }
    }
}

/// The columns to sort a result by. Only relations can be sorted.
pub open spec fn sort_columns(orders: Seq<Order>, find: FindSpec) -> Result<
    Seq<(usize, Direction)>,
    ErrorView,
> {
    match find {
        FindSpec::FindRel(elements) => order_columns(orders, elements@),
        _ => Err(ErrorView::OrderFind),
    }
}

/// Where a variable stands in a find clause; of several places the last.
pub fn last_position(elements: &Vec<Element>, v: &Variable) -> (r: Option<usize>)
    ensures
        r == find_position(elements@, v@),
        r matches Some(c) ==> c < elements@.len(),
{
    let mut i: usize = elements.len();
    assert(elements@.take(i as int) =~= elements@);
    while i > 0
        invariant
            i <= elements@.len(),
            find_position(elements@, v@) == find_position(elements@.take(i as int), v@),
        decreases i,
    {
        assert(elements@.take(i as int).drop_last() =~= elements@.take(i - 1));
        assert(elements@.take(i as int).last() == elements@[i - 1]);
        if let Element::Variable(x) = &elements[i - 1] {
            if x.same(v) {
                return Some(i - 1);
            }
        }
        i -= 1;
    }
    None
}

/// An error among the first variables to sort by is that of all.
proof fn lemma_order_error(orders: Seq<Order>, elements: Seq<Element>, n: int)
    requires
        0 <= n <= orders.len(),
        order_columns(orders.take(n), elements) is Err,
    ensures
        order_columns(orders, elements) == order_columns(orders.take(n), elements),
    decreases orders.len(),
{
    if n < orders.len() {
        assert(orders.drop_last().take(n) =~= orders.take(n));
        lemma_order_error(orders.drop_last(), elements, n);
    } else {
        assert(orders.take(n) =~= orders);
    }
}

/// The columns to sort a result by.
pub fn resolve_order_columns(orders: &Vec<Order>, find_spec: &FindSpec) -> (r: Result<
    Vec<(usize, Direction)>,
    Error,
>)
    ensures
        match r {
            Ok(columns) => sort_columns(orders@, *find_spec) == Ok::<
                Seq<(usize, Direction)>,
                ErrorView,
            >(columns@) && (*find_spec matches FindSpec::FindRel(elements) ==> forall|i: int|
                0 <= i < columns@.len() ==> (#[trigger] columns@[i]).0 < elements@.len()),
            Err(e) => sort_columns(orders@, *find_spec) == Err::<Seq<(usize, Direction)>, ErrorView>(e@),
        },
{
    let elements = match find_spec {
        FindSpec::FindRel(elements) => elements,
        _ => {
            return Err(Error::OrderFind);
        },
    };
    let mut columns: Vec<(usize, Direction)> = Vec::new();
    let mut i: usize = 0;
    assert(orders@.take(0) =~= Seq::<Order>::empty());
    assert(columns@ =~= Seq::<(usize, Direction)>::empty());
    while i < orders.len()
        invariant
            i <= orders@.len(),
            order_columns(orders@.take(i as int), elements@) == Ok::<
                Seq<(usize, Direction)>,
                ErrorView,
            >(columns@),
            forall|k: int| 0 <= k < columns@.len() ==> (#[trigger] columns@[k]).0 < elements@.len(),
            *find_spec == FindSpec::FindRel(*elements),
        decreases orders@.len() - i,
    {
        proof {
            assert(orders@.take(i + 1).drop_last() =~= orders@.take(i as int));
            assert(orders@.take(i + 1).last() == orders@[i as int]);
        }
        match last_position(elements, &orders[i].variable) {
            Some(c) => {
                columns.push((c, orders[i].direction));
            },
            None => {
                proof {
                    lemma_order_error(orders@, elements@, i + 1);
                }
                return Err(Error::OrderVariable(orders[i].variable.name.clone()));
            },
        }
        i += 1;
    }
    assert(orders@.take(i as int) =~= orders@);
    Ok(columns)
}

/// How many rows a limit keeps of so many; none where the limit is still a variable.
pub open spec fn kept(limit: Limit, count: nat) -> Option<nat> {
    match limit {
        Limit::Unlimited => Some(count),
        Limit::Fixed(n) => Some(if n < count {
            n as nat
        } else {
            count
        }),
        Limit::Variable(_) => None,
    }
}

/// The first rows at the places.
pub open spec fn rows_at(rows: Seq<Seq<Value>>, places: Seq<usize>, count: nat) -> Seq<Seq<Value>> {
    Seq::new(count, |i: int| rows[places[i] as int])
}

/// Whether rows are the first of the results in the order of the columns to sort by.
pub open spec fn in_order(
    results: Seq<Seq<Value>>,
    keys: Seq<(usize, Direction)>,
    count: nat,
    rows: Seq<Seq<Value>>,
) -> bool {
    exists|places: Seq<usize>|
        #![trigger rows_at(results, places, count)]
        order::stable_order(results, keys, places, results.len() as int) && rows == rows_at(
            results,
            places,
            count,
        )
}

/// Whether a result is the given one in order and cut to the limit.
pub open spec fn ordered_and_limited(
    results: Seq<Seq<Value>>,
    order: Option<Vec<Order>>,
    limit: Limit,
    find: FindSpec,
    rows: Seq<Seq<Value>>,
) -> bool {
    match order {
        None => kept(limit, results.len()) matches Some(n) && rows == results.take(n as int),
        Some(orders) => match (sort_columns(orders@, find), kept(limit, results.len())) {
            (Ok(keys), Some(n)) => in_order(results, keys, n, rows),
            _ => false,
        },
    }
}

/// Whether a result cannot be put in order and cut to the limit: a variable to sort by is not
/// there, rows have no order, or the limit is still a variable.
pub open spec fn ordering_fails(
    results: Seq<Seq<Value>>,
    order: Option<Vec<Order>>,
    limit: Limit,
    find: FindSpec,
    e: ErrorView,
) -> bool {
    let unlimited = limit matches Limit::Variable(v) && e == ErrorView::LimitVariable(v@);
    match order {
        None => unlimited,
        Some(orders) => match sort_columns(orders@, find) {
            Err(fault) => e == fault,
            Ok(keys) => unlimited || (e == ErrorView::Incomparable && !order::comparable(
                results,
                keys,
            )),
        },
    }
}

/// How many rows a limit keeps of so many.
fn kept_rows(limit: &Limit, count: usize) -> (r: Result<usize, Error>)
    ensures
        match r {
            Ok(n) => kept(*limit, count as nat) == Some(n as nat) && n <= count,
            Err(e) => limit matches Limit::Variable(v) && e@ == ErrorView::LimitVariable(v@),
        },
{
    match limit {
        Limit::Unlimited => Ok(count),
        Limit::Fixed(n) => if *n < count as u64 {
            Ok(*n as usize)
        } else {
            Ok(count)
        },
        Limit::Variable(v) => Err(Error::LimitVariable(v.name.clone())),
    }
}

/// Sorts a result and cuts it to a limit. Rows that the columns to sort by do not tell apart
/// keep their order.
pub fn apply_order_and_limit(
    results: QueryResult,
    order: &Option<Vec<Order>>,
    limit: &Limit,
    find_spec: &FindSpec,
) -> (r: Result<QueryResult, Error>)
    requires
        *order is Some ==> (*find_spec matches FindSpec::FindRel(elements) ==> forall|i: int|
            0 <= i < results@.len() ==> elements@.len() <= (#[trigger] results@[i])@.len()),
    ensures
        match r {
            Ok(rows) => ordered_and_limited(
                lower::value_rows(results@),
                *order,
                *limit,
                *find_spec,
                lower::value_rows(rows@),
            ),
            Err(e) => ordering_fails(
                lower::value_rows(results@),
                *order,
                *limit,
                *find_spec,
                e@,
            ),
        },
{
    let ghost all = lower::value_rows(results@);
    match order {
        None => {
            let n: usize = match kept_rows(limit, results.len()) {
                Ok(n) => n,
                Err(e) => {
                    return Err(e);
                },
            };
            let mut rows: QueryResult = Vec::new();
            let mut i: usize = 0;
            assert(lower::value_rows(rows@) =~= all.take(0));
            while i < n
                invariant
                    i <= n <= results@.len() == all.len(),
                    all == lower::value_rows(results@),
                    lower::value_rows(rows@) == all.take(i as int),
                decreases n - i,
            {
                let row = copy_values(&results[i]);
                let ghost earlier = rows@;
                rows.push(row);
                proof {
                    lemma_copied(row, results@[i as int]);
                    assert(lower::value_rows(rows@) =~= lower::value_rows(earlier).push(
                        lower::values(row@),
                    ));
                }
                i += 1;
                assert(lower::value_rows(rows@) =~= all.take(i as int));
            }
            Ok(rows)
        },
        Some(orders) => {
            let keys = match resolve_order_columns(orders, find_spec) {
                Ok(keys) => keys,
                Err(e) => {
                    return Err(e);
                },
            };
            proof {
                assert forall|i: int, j: int|
                    0 <= i < keys@.len() && 0 <= j < results@.len() implies (#[trigger] keys@[i]).0
                    < #[trigger] results@[j]@.len() by {
                    assert(results@[j]@.len() >= 0);
                }
            }
            let places = match stable_places(&results, &keys) {
                Ok(places) => places,
                Err(e) => {
                    return Err(e);
                },
            };
            let n: usize = match kept_rows(limit, results.len()) {
                Ok(n) => n,
                Err(e) => {
                    return Err(e);
                },
            };
            let ghost wanted = rows_at(all, places@, n as nat);
            let mut rows: QueryResult = Vec::new();
            let mut i: usize = 0;
            assert(lower::value_rows(rows@) =~= wanted.take(0));
            while i < n
                invariant
                    i <= n <= results@.len() == all.len(),
                    all == lower::value_rows(results@),
                    wanted == rows_at(all, places@, n as nat),
                    places@.len() == results@.len(),
                    forall|k: int|
                        0 <= k < places@.len() ==> (#[trigger] places@[k]) < results@.len(),
                    lower::value_rows(rows@) == wanted.take(i as int),
                decreases n - i,
            {
                let at: usize = places[i];
                assert(places@[i as int] < results@.len());
                let row = copy_values(&results[at]);
                let ghost earlier = rows@;
                rows.push(row);
                proof {
                    lemma_copied(row, results@[at as int]);
                    assert(lower::value_rows(rows@) =~= lower::value_rows(earlier).push(
                        lower::values(row@),
                    ));
                }
                i += 1;
                assert(lower::value_rows(rows@) =~= wanted.take(i as int));
            }
            assert(wanted.take(i as int) =~= wanted);
            assert(in_order(all, keys@, n as nat, lower::value_rows(rows@)));
            Ok(rows)
        },
    }
}

/// A copy of values holds the same values.
proof fn lemma_copied(copy: Vec<DataType>, from: Vec<DataType>)
    requires
        copy.deep_view() == from.deep_view(),
    ensures
        lower::values(copy@) == lower::values(from@),
{
    assert(copy.deep_view().len() == copy@.len());
    assert(from.deep_view().len() == from@.len());
    assert forall|i: int| 0 <= i < copy@.len() implies lower::values(copy@)[i] == #[trigger] lower::values(
    from@)[i] by {
        assert(copy.deep_view()[i] == from.deep_view()[i]);
        assert(copy.deep_view()[i] == copy@[i].deep_view());
        assert(from.deep_view()[i] == from@[i].deep_view());
    }
    assert(lower::values(copy@) =~= lower::values(from@));
}

/// The first input that binds the variable alone.
pub open spec fn scalar_input(bindings: Seq<Binding>, v: Name) -> Option<int>
    decreases bindings.len(),
{
    if bindings.len() == 0 {
        None
    } else {
        match scalar_input(bindings.drop_last(), v) {
            Some(i) => Some(i),
            None => match bindings.last() {
                Binding::BindScalar(x) => if x@ == v {
                    Some(bindings.len() - 1)
                } else {
                    None
                },
                _ => None,
            },
        }
    }
}

/// The number that a limit's variable is bound to, if it is bound to one that is not negative.
pub open spec fn bound_limit(v: Name, bindings: Seq<Binding>, args: Seq<QueryArg>) -> Option<u64> {
    match scalar_input(bindings, v) {
        Some(i) => if i < args.len() {
            match args[i] {
                QueryArg::Scalar(DataType::Long(n)) => if n >= 0 {
                    Some(n as u64)
                } else {
                    None
                },
                _ => None,
            }
        } else {
            None
        },
        None => None,
    }
}

/// A limit with its variable, which an input binds to a number that is not negative, replaced
/// by the number.
pub fn resolve_limit(limit: &Limit, in_bindings: &[Binding], args: &[QueryArg]) -> (r: Limit)
    requires
        *limit matches Limit::Variable(v) ==> bound_limit(v@, in_bindings@, args@) is Some,
    ensures
        match *limit {
            Limit::Unlimited => r == Limit::Unlimited,
            Limit::Fixed(n) => r == Limit::Fixed(n),
            Limit::Variable(v) => r == Limit::Fixed(
                bound_limit(v@, in_bindings@, args@).unwrap(),
            ),
        },
{
    match limit {
        Limit::Unlimited => Limit::Unlimited,
        Limit::Fixed(n) => Limit::Fixed(*n),
        Limit::Variable(v) => {
            let mut i: usize = 0;
            assert(in_bindings@.take(0) =~= Seq::<Binding>::empty());
            while i < in_bindings.len()
                invariant
                    i <= in_bindings@.len(),
                    *limit == Limit::Variable(*v),
                    bound_limit(v@, in_bindings@, args@) is Some,
                    scalar_input(in_bindings@.take(i as int), v@) is None,
                decreases in_bindings@.len() - i,
            {
                proof {
                    assert(in_bindings@.take(i + 1).drop_last() =~= in_bindings@.take(i as int));
                    assert(in_bindings@.take(i + 1).last() == in_bindings@[i as int]);
                }
                if let Binding::BindScalar(x) = &in_bindings[i] {
                    if x.same(v) {
                        proof {
                            lemma_scalar_input(in_bindings@, v@, i + 1);
                        }
                        if let QueryArg::Scalar(DataType::Long(n)) = &args[i] {
                            return Limit::Fixed(*n as u64);
                        }
                        assert(false);
                    }
                }
                i += 1;
            }
            assert(in_bindings@.take(i as int) =~= in_bindings@);
            assert(false);
            Limit::Unlimited
        },
    }
}

/// The first such input among the first is the first of all.
pub proof fn lemma_scalar_input(bindings: Seq<Binding>, v: Name, n: int)
    requires
        0 <= n <= bindings.len(),
        scalar_input(bindings.take(n), v) is Some,
    ensures
        scalar_input(bindings, v) == scalar_input(bindings.take(n), v),
    decreases bindings.len(),
{
    if n < bindings.len() {
        assert(bindings.drop_last().take(n) =~= bindings.take(n));
        lemma_scalar_input(bindings.drop_last(), v, n);
    } else {
        assert(bindings.take(n) =~= bindings);
    }
}

/// The input that binds a variable is one of them.
pub proof fn lemma_input_place(bindings: Seq<Binding>, v: Name)
    ensures
        scalar_input(bindings, v) matches Some(i) ==> 0 <= i < bindings.len(),
    decreases bindings.len(),
{
    if bindings.len() > 0 {
        lemma_input_place(bindings.drop_last(), v);
    }
}

/// A plan has one column for each element.
proof fn lemma_columns(elements: Seq<Element>, order: Seq<Name>)
    ensures
        elements_plan(elements, order) matches Ok(p) ==> p.columns.len() == elements.len(),
    decreases elements.len(),
{
    if elements.len() > 0 {
        lemma_columns(elements.drop_last(), order);
    }
}

/// A limit with its variable replaced by the number that an input binds it to.
pub open spec fn resolved_limit(limit: Limit, bindings: Seq<Binding>, args: Seq<QueryArg>) -> Limit {
    match limit {
        Limit::Variable(v) => Limit::Fixed(bound_limit(v@, bindings, args).unwrap()),
        other => other,
    }
}

/// Whether rows are those of a plan.
pub open spec fn selected_rows<F: Fn(&AggregateFunc, &Vec<DataType>) -> Result<DataType, Error>>(
    fold: F,
    tuples: Seq<Row>,
    plan: FindView,
    rows: Seq<Vec<DataType>>,
) -> bool {
    if plan.aggregates {
        grouped_rows(fold, tuples, plan, rows)
    } else {
        plain_rows(tuples, plan, rows)
    }
}

/// Whether the rows of a plan cannot be had.
pub open spec fn selection_fails<F: Fn(&AggregateFunc, &Vec<DataType>) -> Result<DataType, Error>>(
    fold: F,
    tuples: Seq<Row>,
    plan: FindView,
    e: ErrorView,
) -> bool {
    if plan.aggregates {
        grouping_fails(fold, tuples, plan, e)
    } else {
        e == ErrorView::Decode && !plain_readable(tuples, plan)
    }
}

/// Whether rows answer a query whose join has these tuples.
pub open spec fn answers<F: Fn(&AggregateFunc, &Vec<DataType>) -> Result<DataType, Error>>(
    fold: F,
    query: ParsedQuery,
    args: Seq<QueryArg>,
    tuples: Seq<Row>,
    plan: FindView,
    rows: Seq<Vec<DataType>>,
) -> bool {
    exists|selected: QueryResult| #[trigger]
        selected_rows(fold, tuples, plan, selected@) && ordered_and_limited(
            lower::value_rows(selected@),
            query.order,
            resolved_limit(query.limit, query.in_bindings@, args),
            query.find_spec,
            lower::value_rows(rows),
        )
}

/// Whether a query whose join has these tuples ends with an error.
pub open spec fn answer_fails<F: Fn(&AggregateFunc, &Vec<DataType>) -> Result<DataType, Error>>(
    fold: F,
    query: ParsedQuery,
    args: Seq<QueryArg>,
    tuples: Seq<Row>,
    plan: FindView,
    e: ErrorView,
) -> bool {
    ||| selection_fails(fold, tuples, plan, e)
    ||| exists|selected: QueryResult| #[trigger]
        selected_rows(fold, tuples, plan, selected@) && ordering_fails(
            lower::value_rows(selected@),
            query.order,
            resolved_limit(query.limit, query.in_bindings@, args),
            query.find_spec,
            e,
        )
}

/// The rows of a query from the tuples of its join: projected or aggregated, in order and cut to
/// the limit.
pub fn complete_query<
    F: Fn(&AggregateFunc, &Vec<DataType>) -> Result<DataType, Error>,
>(
    query: &ParsedQuery,
    args: &[QueryArg],
    join_order: &[Variable],
    results: &Vec<ResultTuple>,
    fold: F,
) -> (r: Result<QueryResult, Error>)
    requires
        variable::unique(join_order.deep_view()),
        of_width(results.deep_view(), join_order@.len() as int),
        query.limit matches Limit::Variable(v) ==> bound_limit(
            v@,
            query.in_bindings@,
            args@,
        ) is Some,
        forall|f: AggregateFunc, v: Vec<DataType>| #[trigger] call_requires(fold, (&f, &v)),
    ensures
        match find_plan(query.find_spec, join_order.deep_view()) {
            Err(fault) => r matches Err(e) && e@ == fault,
            Ok(plan) => match r {
                Ok(rows) => answers(fold, *query, args@, results.deep_view(), plan, rows@),
                Err(e) => answer_fails(fold, *query, args@, results.deep_view(), plan, e@),
            },
        },
{
    let ghost tuples = results.deep_view();
    let plan = match compile_find_plan(&query.find_spec, join_order) {
        Ok(plan) => plan,
        Err(e) => {
            return Err(e);
        },
    };
    let width: usize = join_order.len();
    let selected = if plan.has_aggregates {
        execute_aggregation(results, &plan, width, fold)
    } else {
        project_results(results, &plan, width)
    };
    let selected = match selected {
        Ok(selected) => selected,
        Err(e) => {
            return Err(e);
        },
    };
    let limit = resolve_limit(&query.limit, &query.in_bindings, args);
    let ghost rows = selected;
    proof {
        assert(selected_rows(fold, tuples, plan@, rows@));
        assert(limit == resolved_limit(query.limit, query.in_bindings@, args@));
        if let FindSpec::FindRel(elements) = &query.find_spec {
            lemma_columns(elements@, join_order.deep_view());
            assert forall|i: int| 0 <= i < rows@.len() implies elements@.len()
                <= (#[trigger] rows@[i])@.len() by {}
        }
    }
    apply_order_and_limit(selected, &query.order, &limit, &query.find_spec)
}

} // verus!
