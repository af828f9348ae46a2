//! What a query finds is what holds.

use vstd::prelude::*;

use crate::byte_string::Row;
use crate::codec;
use crate::error::ErrorView;
use crate::expr::Expr;
use crate::indexer::basis::IndexedFact;
use crate::indexer::laws;
use crate::indexer::pattern_laws;
use crate::iterator::stored_pattern;
use crate::query::ast::{ConstantView, ParsedQuery, PatternView, PlaceView, WhereClause};
use crate::query::binding_bag;
use crate::query::compile::{self, PlanView};
use crate::query::convert;
use crate::query::execute;
use crate::query::meaning::{self, Setting};
use crate::query::validation::FaultView;
use crate::value::{DataType, IndexType, Keyword, Value};
use crate::variable::{self, Name, Variable};

verus! {

/// Whether a tuple satisfies an extender at all the levels in which it takes part.
pub open spec fn meets<
    H: Fn(&Expr, &Vec<Variable>, &Vec<DataType>) -> bool,
    E: Fn(&Expr, &Vec<Variable>, &Vec<DataType>) -> Option<DataType>,
>(setting: Setting<H, E>, plan: PlanView, tuple: Row) -> bool {
    forall|l: int|
        0 <= l < tuple.len() && meaning::joins(plan, l) ==> setting.accepts(
            plan,
            tuple.take(l),
            #[trigger] tuple[l],
        )
}

/// A tuple is one of a join exactly if some extender takes part in each of its levels and it
/// satisfies every extender.
pub proof fn law_tuples_meet_every_extender<
    H: Fn(&Expr, &Vec<Variable>, &Vec<DataType>) -> bool,
    E: Fn(&Expr, &Vec<Variable>, &Vec<DataType>) -> Option<DataType>,
>(setting: Setting<H, E>, plans: Seq<PlanView>, tuple: Row)
    ensures
        setting.satisfies(plans, tuple) == ((forall|l: int|
            0 <= l < tuple.len() ==> #[trigger] meaning::some_joins(plans, l)) && forall|i: int|
            0 <= i < plans.len() ==> meets(setting, #[trigger] plans[i], tuple)),
{
    if setting.satisfies(plans, tuple) {
        assert forall|l: int| 0 <= l < tuple.len() implies #[trigger] meaning::some_joins(
            plans,
            l,
        ) by {
            assert(setting.may_follow(plans, tuple.take(l), tuple[l]));
            assert(tuple.take(l).len() == l);
        }
        assert forall|i: int| 0 <= i < plans.len() implies meets(
            setting,
            #[trigger] plans[i],
            tuple,
        ) by {
            assert forall|l: int| 0 <= l < tuple.len() && meaning::joins(
                plans[i],
                l,
            ) implies setting.accepts(plans[i], tuple.take(l), #[trigger] tuple[l]) by {
                assert(setting.may_follow(plans, tuple.take(l), tuple[l]));
                assert(tuple.take(l).len() == l);
            }
        }
    }
    if (forall|l: int| 0 <= l < tuple.len() ==> #[trigger] meaning::some_joins(plans, l))
        && forall|i: int| 0 <= i < plans.len() ==> meets(setting, #[trigger] plans[i], tuple) {
        assert forall|l: int| 0 <= l < tuple.len() implies setting.may_follow(
            plans,
            tuple.take(l),
            #[trigger] tuple[l],
        ) by {
            assert(tuple.take(l).len() == l);
            assert(meaning::some_joins(plans, l));
            assert forall|i: int| 0 <= i < plans.len() && meaning::joins(
                #[trigger] plans[i],
                l,
            ) implies setting.accepts(plans[i], tuple.take(l), tuple[l]) by {
                assert(meets(setting, plans[i], tuple));
            }
        }
    }
}

/// The value that a position of a pattern stands for by itself: a number, a keyword or a constant
/// for itself.
pub open spec fn own_value(place: PlaceView) -> Option<Value> {
    match place {
        PlaceView::Number(x) => Some(Value::Long(x)),
        PlaceView::Ident(name) => Some(Value::Keyword(name)),
        PlaceView::Constant(ConstantView::Boolean(b)) => Some(Value::Boolean(b)),
        PlaceView::Constant(ConstantView::BigInteger(x)) => Some(Value::BigInt(x)),
        PlaceView::Constant(ConstantView::Float(bits)) => Some(Value::Double(bits)),
        PlaceView::Constant(ConstantView::Text(s)) => Some(Value::String(s)),
        PlaceView::Constant(ConstantView::Instant(t)) => Some(Value::Instant(t)),
        PlaceView::Constant(ConstantView::Uuid(u)) => Some(Value::Uuid(u)),
        _ => None,
    }
}

/// Whether a position of a pattern stands for a value in a tuple: a constant for itself, a
/// variable for the value at its level.
pub open spec fn stands_for(place: PlaceView, order: Seq<Name>, tuple: Row, value: Value) -> bool {
    match place {
        PlaceView::Variable(v) => order.contains(v) && tuple[order.index_of(v)] == codec::encoding(
            value,
        ),
        _ => own_value(place) == Some(value),
    }
}

/// A tuple satisfies the pattern `[entity attribute value]` exactly if the fact that it makes of
/// the pattern holds as of the transaction. At least one position is a variable, and no variable
/// stands in both.
pub proof fn law_pattern_finds_held_facts<
    H: Fn(&Expr, &Vec<Variable>, &Vec<DataType>) -> bool,
    E: Fn(&Expr, &Vec<Variable>, &Vec<DataType>) -> Option<DataType>,
>(
    setting: Setting<H, E>,
    facts: Seq<IndexedFact>,
    p: PatternView,
    order: Seq<Name>,
    plan: PlanView,
    tuple: Row,
    entity: i64,
    attribute: i64,
    value: Value,
)
    requires
        stored_pattern::index_keys(setting.keys),
        pattern_laws::indexed(setting.keys, facts),
        variable::unique(order),
        tuple.len() == order.len() <= usize::MAX,
        p.entity is Variable || p.value is Variable,
        p.entity != p.value,
        !(p.attribute is Variable) && !(p.attribute is Placeholder),
        compile::pattern_plan(p, order, attribute) == Ok::<PlanView, ErrorView>(plan),
        stands_for(p.entity, order, tuple, Value::Long(entity)),
        stands_for(p.value, order, tuple, value),
    ensures
        meets(setting, plan, tuple) == laws::fact_holds(
            facts,
            entity,
            attribute,
            value,
            setting.as_of,
        ),
{
    let names = convert::pattern_names(p);
    let indexes = compile::pattern_indexes(p, order)->Ok_0;
    let at = compile::pattern_levels(p, order);
    let constant = codec::i64_bytes(attribute) + compile::constant_part(p, indexes[0]);
    reveal_with_fuel(compile::present_levels, 4);
    assert(plan == PlanView::Pattern(indexes, constant, at));
    if let (PlaceView::Variable(a), PlaceView::Variable(b)) = (p.entity, p.value) {
        assert(names =~= seq![a, b]);
        assert(names.drop_last() =~= seq![a]);
        assert(names.drop_last().drop_last() =~= Seq::<Name>::empty());
        let x = order.index_of(a);
        let y = order.index_of(b);
        assert(order[x] == a && order[y] == b);
        assert(constant =~= codec::i64_bytes(attribute));
        let (i, j) = if x < y {
            (x, y)
        } else {
            (y, x)
        };
        assert(at =~= seq![i as usize, j as usize]);
        pattern_laws::law_pattern_of_two_variables(
            setting.keys,
            setting.as_of,
            indexes,
            constant,
            at,
            facts,
            entity,
            attribute,
            value,
            tuple,
        );
        lemma_met_at_two(setting, plan, tuple, indexes, constant, at);
    } else {
        let v = if let PlaceView::Variable(a) = p.entity {
            a
        } else {
            p.value->Variable_0
        };
        assert(names =~= seq![v]);
        assert(names.drop_last() =~= Seq::<Name>::empty());
        let x = order.index_of(v);
        assert(order[x] == v);
        assert(at =~= seq![x as usize]);
        pattern_laws::law_pattern_of_one_variable(
            setting.keys,
            setting.as_of,
            indexes,
            constant,
            at,
            facts,
            entity,
            attribute,
            value,
            tuple,
        );
        lemma_met_at_one(setting, plan, tuple, indexes, constant, at);
    }
}

/// A pattern of one level is met where it shows the value of that level.
pub proof fn lemma_met_at_one<
    H: Fn(&Expr, &Vec<Variable>, &Vec<DataType>) -> bool,
    E: Fn(&Expr, &Vec<Variable>, &Vec<DataType>) -> Option<DataType>,
>(
    setting: Setting<H, E>,
    plan: PlanView,
    tuple: Row,
    indexes: Seq<IndexType>,
    constant: Seq<u8>,
    at: Seq<usize>,
)
    requires
        plan == PlanView::Pattern(indexes, constant, at),
        at.len() == 1,
        at[0] < tuple.len(),
    ensures
        meets(setting, plan, tuple) == setting.shows(
            indexes,
            constant,
            at,
            tuple.take(at[0] as int),
        ).contains(tuple[at[0] as int]),
{
    let i = at[0] as int;
    assert(meaning::at_level(at, i));
    assert(meaning::joins(plan, i));
    assert(setting.accepts(plan, tuple.take(i), tuple[i]) == setting.shows(
        indexes,
        constant,
        at,
        tuple.take(i),
    ).contains(tuple[i]));
    assert forall|l: int| 0 <= l < tuple.len() && meaning::joins(plan, l) implies l == i by {
        assert(meaning::at_level(at, l));
    }
}

/// A pattern of two levels is met where it shows the values of both.
pub proof fn lemma_met_at_two<
    H: Fn(&Expr, &Vec<Variable>, &Vec<DataType>) -> bool,
    E: Fn(&Expr, &Vec<Variable>, &Vec<DataType>) -> Option<DataType>,
>(
    setting: Setting<H, E>,
    plan: PlanView,
    tuple: Row,
    indexes: Seq<IndexType>,
    constant: Seq<u8>,
    at: Seq<usize>,
)
    requires
        plan == PlanView::Pattern(indexes, constant, at),
        at.len() == 2,
        at[0] < tuple.len(),
        at[1] < tuple.len(),
    ensures
        meets(setting, plan, tuple) == (setting.shows(
            indexes,
            constant,
            at,
            tuple.take(at[0] as int),
        ).contains(tuple[at[0] as int]) && setting.shows(
            indexes,
            constant,
            at,
            tuple.take(at[1] as int),
        ).contains(tuple[at[1] as int])),
{
    let i = at[0] as int;
    let j = at[1] as int;
    assert(meaning::at_level(at, i) && meaning::at_level(at, j));
    assert(meaning::joins(plan, i) && meaning::joins(plan, j));
    assert(setting.accepts(plan, tuple.take(i), tuple[i]) == setting.shows(
        indexes,
        constant,
        at,
        tuple.take(i),
    ).contains(tuple[i]));
    assert(setting.accepts(plan, tuple.take(j), tuple[j]) == setting.shows(
        indexes,
        constant,
        at,
        tuple.take(j),
    ).contains(tuple[j]));
    assert forall|l: int| 0 <= l < tuple.len() && meaning::joins(plan, l) implies l == i || l
        == j by {
        assert(meaning::at_level(at, l));
    }
}

/// The pattern of a clause.
pub open spec fn pattern_of(clause: WhereClause) -> PatternView {
    clause->Pattern_0@
}

/// Whether a clause is a pattern with a known attribute, a variable, and no variable twice.
pub open spec fn is_plain(clause: WhereClause) -> bool {
    clause is Pattern && {
        let p = pattern_of(clause);
        &&& p.entity is Variable || p.value is Variable
        &&& p.entity != p.value
        &&& !(p.entity is Placeholder) && !(p.value is Placeholder)
        &&& !(p.attribute is Variable) && !(p.attribute is Placeholder)
    }
}

/// The extenders of clauses stand in the order of the clauses.
pub proof fn lemma_plan_of_clause(
    clauses: Seq<WhereClause>,
    order: Seq<Name>,
    idents: Seq<(Keyword, i64)>,
    i: int,
)
    requires
        0 <= i < clauses.len(),
        compile::clause_plans(clauses, order, idents) is Ok,
    ensures
        ({
            let plans = compile::clause_plans(clauses, order, idents)->Ok_0;
            plans.len() == clauses.len() && compile::clause_plan(clauses[i], order, idents) == Ok::<
                PlanView,
                ErrorView,
            >(plans[i])
        }),
    decreases clauses.len(),
{
    let front = clauses.drop_last();
    if i < front.len() {
        lemma_plan_of_clause(front, order, idents, i);
        assert(front[i] == clauses[i]);
    } else if front.len() > 0 {
        lemma_plan_of_clause(front, order, idents, 0);
    }
}

/// A variable that patterns contribute stands in one of them.
proof fn lemma_contributed(clauses: Seq<WhereClause>, v: Name) -> (i: int)
    requires
        forall|k: int| 0 <= k < clauses.len() ==> is_plain(#[trigger] clauses[k]),
        convert::grouped_names(clauses, false).contains(v),
    ensures
        0 <= i < clauses.len(),
        convert::pattern_names(pattern_of(clauses[i])).contains(v),
    decreases clauses.len(),
{
    let n = clauses.len() - 1;
    assert(is_plain(clauses[n]));
    let front = convert::grouped_names(clauses.drop_last(), false);
    let own = convert::clause_names(clauses.last());
    let k = (front + own).index_of(v);
    if k < front.len() {
        assert(front[k] == v);
        assert forall|j: int| 0 <= j < clauses.drop_last().len() implies is_plain(
            #[trigger] clauses.drop_last()[j],
        ) by {
            assert(clauses[j] == clauses.drop_last()[j]);
        }
        lemma_contributed(clauses.drop_last(), v)
    } else {
        assert(own[k - front.len()] == v);
        n
    }
}

/// A plain pattern takes part in the level of each of its variables.
proof fn lemma_joins_its_variables(p: PatternView, order: Seq<Name>, attribute: i64, v: Name)
    requires
        order.len() <= usize::MAX,
        order.contains(v),
        convert::pattern_names(p).contains(v),
        convert::pattern_names(p).len() <= 2,
        compile::pattern_plan(p, order, attribute) is Ok,
    ensures
        meaning::joins(
            compile::pattern_plan(p, order, attribute)->Ok_0,
            order.index_of(v),
        ),
{
    let names = convert::pattern_names(p);
    let at = compile::pattern_levels(p, order);
    let k = names.index_of(v);
    reveal_with_fuel(compile::present_levels, 4);
    assert(names.drop_last().drop_last() =~= Seq::<Name>::empty() || names.len() == 1);
    let l = order.index_of(v);
    assert(order[l] == v);
    if names.len() == 2 {
        assert(names.drop_last().last() == names[0]);
        let found = compile::present_levels(order, names);
        let x = order.index_of(names[0]);
        let y = order.index_of(names[1]);
        assert(order.contains(names[0]) && order.contains(names[1]));
        assert(found =~= seq![x as usize, y as usize]);
        assert(at[0] == l || at[1] == l);
    } else {
        assert(names.drop_last() =~= Seq::<Name>::empty());
        assert(at =~= seq![l as usize]);
        assert(at[0] == l);
    }
    assert(meaning::at_level(at, l));
}

/// Whether all the facts hold as of a transaction.
pub open spec fn all_hold(
    facts: Seq<IndexedFact>,
    entities: Seq<i64>,
    attributes: Seq<i64>,
    values: Seq<Value>,
    as_of: i64,
) -> bool {
    forall|i: int|
        0 <= i < entities.len() ==> laws::fact_holds(
            facts,
            #[trigger] entities[i],
            attributes[i],
            values[i],
            as_of,
        )
}

/// A query of patterns alone finds exactly the tuples with which every pattern makes a fact that
/// holds as of the transaction.
pub proof fn law_query_finds_held_facts<
    H: Fn(&Expr, &Vec<Variable>, &Vec<DataType>) -> bool,
    E: Fn(&Expr, &Vec<Variable>, &Vec<DataType>) -> Option<DataType>,
>(
    setting: Setting<H, E>,
    facts: Seq<IndexedFact>,
    query: ParsedQuery,
    idents: Seq<(Keyword, i64)>,
    plans: Seq<PlanView>,
    tuple: Row,
    entities: Seq<i64>,
    attributes: Seq<i64>,
    values: Seq<Value>,
)
    requires
        stored_pattern::index_keys(setting.keys),
        pattern_laws::indexed(setting.keys, facts),
        query.in_bindings@.len() == 0,
        execute::query_plans(query, Seq::empty(), idents) == Ok::<
            Seq<PlanView>,
            FaultView,
        >(plans),
        tuple.len() == execute::variables(query).len() <= usize::MAX,
        entities.len() == attributes.len() == values.len() == query.where_clauses@.len(),
        forall|i: int|
            0 <= i < query.where_clauses@.len() ==> {
                let p = pattern_of(#[trigger] query.where_clauses@[i]);
                &&& is_plain(query.where_clauses@[i])
                &&& convert::resolved(p.attribute, idents) == Ok::<i64, ErrorView>(attributes[i])
                &&& stands_for(p.entity, execute::variables(query), tuple, Value::Long(entities[i]))
                &&& stands_for(p.value, execute::variables(query), tuple, values[i])
            },
    ensures
        setting.satisfies(plans, tuple) == all_hold(
            facts,
            entities,
            attributes,
            values,
            setting.as_of,
        ),
{
    let clauses = query.where_clauses@;
    let order = execute::variables(query);
    convert::law_variable_order_unique(query.in_bindings@, clauses);
    law_tuples_meet_every_extender(setting, plans, tuple);
    let rest = compile::clause_plans(clauses, order, idents)->Ok_0;
    if clauses.len() > 0 {
        lemma_plan_of_clause(clauses, order, idents, 0);
    } else {
        assert(rest.len() == 0);
    }
    assert(plans =~= rest);
    assert forall|i: int| 0 <= i < clauses.len() implies meets(setting, #[trigger] plans[i], tuple)
        == laws::fact_holds(facts, entities[i], attributes[i], values[i], setting.as_of) by {
        let p = pattern_of(clauses[i]);
        lemma_plan_of_clause(clauses, order, idents, i);
        law_pattern_finds_held_facts(
            setting,
            facts,
            p,
            order,
            plans[i],
            tuple,
            entities[i],
            attributes[i],
            values[i],
        );
    }
    assert forall|l: int| 0 <= l < tuple.len() implies #[trigger] meaning::some_joins(
        plans,
        l,
    ) by {
        let v = order[l];
        assert(order.contains(v));
        assert(convert::all_binding_names(query.in_bindings@) =~= Seq::<Name>::empty());
        lemma_no_functions(clauses);
        assert(convert::grouped_names(clauses, false).contains(v));
        let i = lemma_contributed(clauses, v);
        assert(is_plain(clauses[i]));
        lemma_plan_of_clause(clauses, order, idents, i);
        lemma_joins_its_variables(pattern_of(clauses[i]), order, attributes[i], v);
        binding_bag::lemma_index_of(order, l);
        assert(meaning::joins(plans[i], l));
    }
    if all_hold(facts, entities, attributes, values, setting.as_of) {
        assert forall|i: int| 0 <= i < plans.len() implies meets(
            setting,
            #[trigger] plans[i],
            tuple,
        ) by {
            assert(laws::fact_holds(
                facts,
                entities[i],
                attributes[i],
                values[i],
                setting.as_of,
            ));
        }
        assert(setting.satisfies(plans, tuple));
    }
    if setting.satisfies(plans, tuple) {
        assert forall|i: int| 0 <= i < entities.len() implies laws::fact_holds(
            facts,
            #[trigger] entities[i],
            attributes[i],
            values[i],
            setting.as_of,
        ) by {
            assert(meets(setting, plans[i], tuple));
        }
    }
}

/// Patterns contribute nothing as functions.
proof fn lemma_no_functions(clauses: Seq<WhereClause>)
    requires
        forall|k: int| 0 <= k < clauses.len() ==> is_plain(#[trigger] clauses[k]),
    ensures
        convert::grouped_names(clauses, true).len() == 0,
    decreases clauses.len(),
{
    if clauses.len() > 0 {
        assert(is_plain(clauses[clauses.len() - 1]));
        assert forall|j: int| 0 <= j < clauses.drop_last().len() implies is_plain(
            #[trigger] clauses.drop_last()[j],
        ) by {
            assert(clauses[j] == clauses.drop_last()[j]);
        }
        lemma_no_functions(clauses.drop_last());
    }
}

} // verus!
