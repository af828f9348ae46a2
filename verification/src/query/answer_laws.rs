//! What a query with inputs, disjunctions and negations finds.

use vstd::prelude::*;

use crate::byte_string::Row;
use crate::codec;
use crate::error::ErrorView;
use crate::expr::{self, Expr, ExprView};
use crate::indexer::basis::IndexedFact;
use crate::indexer::pattern_laws;
use crate::iterator::stored_pattern;
use crate::query::ast::{
    Binding, OrWhereClause, ParsedQuery, PatternView, PlaceView, QueryArg, WhereClause,
};
use crate::query::compile::{self, PlanView};
use crate::query::convert;
use crate::query::execute;
use crate::query::fact_laws::{self, meets};
use crate::query::levels;
use crate::query::lower;
use crate::query::meaning::{self, Setting};
use crate::query::patterns::{evaluation, function, predicate};
use crate::query::validation::{self, FaultView};
use crate::value::{DataType, IndexType, Keyword, Value};
use crate::variable::{self, Name, Variable};

verus! {

/// What a clause is read against: the facts and the transaction as of which they are read, the
/// numbers of the attributes, and a value for each variable.
pub struct Reading<H, E> {
    pub setting: Setting<H, E>,
    pub facts: Seq<IndexedFact>,
    pub idents: Seq<(Keyword, i64)>,
    pub order: Seq<Name>,
    pub values: Seq<Value>,
}

/// The variables of a condition in the order in which their values are told: the one that is bound
/// last at the end.
pub open spec fn told_names(e: ExprView, order: Seq<Name>) -> Seq<Name> {
    let found = compile::levels_of(order, expr::variables_of(e)).unwrap();
    let k = compile::highest(found);
    meaning::names(found.remove(k)).push(found[k].0)
}

impl<
    H: Fn(&Expr, &Vec<Variable>, &Vec<DataType>) -> bool,
    E: Fn(&Expr, &Vec<Variable>, &Vec<DataType>) -> Option<DataType>,
> Reading<H, E> {
    /// The keys hold the facts, and each variable has one value.
    pub open spec fn sound(self) -> bool {
        &&& stored_pattern::index_keys(self.setting.keys)
        &&& pattern_laws::indexed(self.setting.keys, self.facts)
        &&& variable::unique(self.order)
        &&& self.values.len() == self.order.len() <= usize::MAX
    }

    /// The encoded values.
    pub open spec fn tuple(self) -> Row {
        Seq::new(self.values.len(), |i: int| codec::encoding(self.values[i]))
    }

    /// The value of a variable.
    pub open spec fn value_of(self, v: Name) -> Value {
        self.values[self.order.index_of(v)]
    }

    /// The values of variables.
    pub open spec fn values_of(self, names: Seq<Name>) -> Seq<Value> {
        Seq::new(names.len(), |i: int| self.value_of(names[i]))
    }

    /// What a position of a pattern stands for: a constant for itself, a variable for its value.
    pub open spec fn stands(self, place: PlaceView) -> Option<Value> {
        match place {
            PlaceView::Variable(v) => Some(self.value_of(v)),
            _ => fact_laws::own_value(place),
        }
    }

    /// Whether the fact that a pattern makes of the values holds as of the transaction.
    pub open spec fn pattern_holds(self, p: PatternView) -> bool {
        match (
            convert::resolved(p.attribute, self.idents),
            self.stands(p.entity),
            self.stands(p.value),
        ) {
            (Ok(attribute), Some(entity), Some(value)) => pattern_laws::held(
                self.facts,
                entity,
                attribute,
                value,
                self.setting.as_of,
            ),
            _ => false,
        }
    }

    /// Whether a condition holds on the values.
    pub open spec fn condition_holds(self, e: ExprView) -> bool {
        let names = told_names(e, self.order);
        predicate::says(self.setting.holds, e, names, self.values_of(names), true)
    }

    /// Whether a function gives the value of its output.
    pub open spec fn function_gives(self, e: ExprView, output: Name) -> bool {
        let names = expr::variables_of(e);
        function::gives(
            self.setting.compute,
            e,
            names,
            self.values_of(names),
            Some(self.value_of(output)),
        )
    }

    /// Whether a clause holds: a disjunction where one of its branches does, a negation where not
    /// all of its clauses do.
    pub open spec fn holds(self, clause: WhereClause) -> bool
        decreases clause, 3int,
    {
        match clause {
            WhereClause::Pattern(p) => self.pattern_holds(p@),
            WhereClause::Pred(p) => match convert::converted(p.expr) {
                Ok(e) => self.condition_holds(e),
                Err(_) => false,
            },
            WhereClause::WhereFn(f) => match convert::converted_fn(f) {
                Ok((e, output)) => self.function_gives(e, output),
                Err(_) => false,
            },
            WhereClause::OrJoin(or) => self.some_branch_holds(or.clauses@),
            WhereClause::NotJoin(not) => !self.all_hold(not.clauses@),
            _ => false,
        }
    }

    /// Whether all clauses hold.
    pub open spec fn all_hold(self, clauses: Seq<WhereClause>) -> bool
        decreases clauses, 0int,
    {
        forall|i: int| 0 <= i < clauses.len() ==> self.holds(#[trigger] clauses[i])
    }

    /// Whether a branch holds: a conjunction where all of its clauses do.
    pub open spec fn branch_holds(self, branch: OrWhereClause) -> bool
        decreases branch, 2int,
    {
        match branch {
            OrWhereClause::Clause(c) => self.holds(c),
            OrWhereClause::And(cs) => self.all_hold(cs@),
        }
    }

    /// Whether one of the branches holds.
    pub open spec fn some_branch_holds(self, branches: Seq<OrWhereClause>) -> bool
        decreases branches, 0int,
    {
        exists|i: int| 0 <= i < branches.len() && self.branch_holds(#[trigger] branches[i])
    }

    /// Whether an input binds its variable to the value: to the one given, or to one of a
    /// collection.
    pub open spec fn input_holds(self, binding: Binding, argument: QueryArg) -> bool {
        let value = self.value_of(convert::binding_names(binding)[0]);
        match argument {
            QueryArg::Scalar(given) => value == given@,
            QueryArg::Collection(list) => exists|i: int|
                0 <= i < list@.len() && value == (#[trigger] list@[i])@,
        }
    }
}

/// Whether an extender decides at a level whether it is satisfied: it takes part in the level, and
/// in none behind it, and so do all of its clauses or branches.
pub open spec fn decides_at(plan: PlanView, level: int) -> bool
    decreases plan, 1int,
{
    match plan {
        PlanView::Values(_, at) => at == level,
        PlanView::Pattern(_, _, at) => at.len() > 0 && at.last() == level,
        PlanView::And(children) => all_decide_at(children, level),
        PlanView::Or(children) => all_decide_at(children, level),
        PlanView::Not(_, at) => at == level,
        PlanView::Predicate(_, _, _, at) => at == level,
        PlanView::Function(_, _, at) => at == level,
    }
}

/// Whether all extenders decide at a level.
pub open spec fn all_decide_at(plans: Seq<PlanView>, level: int) -> bool
    decreases plans, 0int,
{
    forall|i: int| 0 <= i < plans.len() ==> decides_at(#[trigger] plans[i], level)
}

/// Whether an extender is regular: a pattern has a variable and none of them twice, a function
/// reads only what is bound before its output, and several branches of a disjunction decide at one
/// level. Branches that decide at different levels are joined level by level, so that a tuple may
/// satisfy one of them at some levels and another at the others.
pub open spec fn regular(plan: PlanView) -> bool
    decreases plan, 1int,
{
    match plan {
        PlanView::Pattern(_, _, at) => at.len() > 0 && (at.len() > 1 ==> at[0] < at[1]),
        PlanView::And(children) => all_regular(children),
        PlanView::Or(children) => all_regular(children) && (children.len() == 1 || exists|
            level: int,
        | #[trigger]
            all_decide_at(children, level)),
        PlanView::Not(children, _) => all_regular(children),
        PlanView::Function(_, vars, at) => reads_earlier(vars, at),
        _ => true,
    }
}

/// Whether all variables stand before a level.
pub open spec fn reads_earlier(vars: Seq<(Name, usize)>, level: usize) -> bool {
    forall|i: int| 0 <= i < vars.len() ==> (#[trigger] vars[i]).1 < level
}

/// Whether extenders are regular.
pub open spec fn all_regular(plans: Seq<PlanView>) -> bool
    decreases plans, 0int,
{
    forall|i: int| 0 <= i < plans.len() ==> regular(#[trigger] plans[i])
}

/// Whether an extender is satisfied just where something holds, and where it decides, it is enough
/// that it accepts the value there.
spec fn tells<
    H: Fn(&Expr, &Vec<Variable>, &Vec<DataType>) -> bool,
    E: Fn(&Expr, &Vec<Variable>, &Vec<DataType>) -> Option<DataType>,
>(r: Reading<H, E>, plan: PlanView, holds: bool) -> bool {
    &&& meets(r.setting, plan, r.tuple()) == holds
    &&& forall|level: int| #[trigger]
        decides_at(plan, level) && r.setting.accepts(
            plan,
            r.tuple().take(level),
            r.tuple()[level],
        ) ==> holds
}

/// An extender of one level is satisfied where it accepts the value there.
proof fn lemma_one_level<
    H: Fn(&Expr, &Vec<Variable>, &Vec<DataType>) -> bool,
    E: Fn(&Expr, &Vec<Variable>, &Vec<DataType>) -> Option<DataType>,
>(r: Reading<H, E>, plan: PlanView, at: int)
    requires
        0 <= at < r.values.len(),
        forall|l: int| #[trigger] meaning::joins(plan, l) == (l == at),
        forall|l: int| #[trigger] decides_at(plan, l) ==> l == at,
    ensures
        tells(r, plan, r.setting.accepts(plan, r.tuple().take(at), r.tuple()[at])),
{
    let t = r.tuple();
    assert(meaning::joins(plan, at));
    if meets(r.setting, plan, t) {
        assert(r.setting.accepts(plan, t.take(at), t[at]));
    }
    if r.setting.accepts(plan, t.take(at), t[at]) {
        assert forall|l: int| 0 <= l < t.len() && meaning::joins(plan, l) implies r.setting.accepts(
            plan,
            t.take(l),
            #[trigger] t[l],
        ) by {
            assert(l == at);
        }
    }
}

/// Values with the same encoding are the same value.
proof fn lemma_encoding_once(a: Value, b: Value)
    ensures
        (codec::encoding(a) == codec::encoding(b)) == (a == b),
{
    if codec::encoding(a) == codec::encoding(b) {
        assert(codec::encoding(b).take(codec::encoding(a).len() as int) =~= codec::encoding(a));
        codec::law_encodings_prefix_free(a, b);
    }
}

/// A pattern is satisfied just where its fact holds.
proof fn lemma_pattern<
    H: Fn(&Expr, &Vec<Variable>, &Vec<DataType>) -> bool,
    E: Fn(&Expr, &Vec<Variable>, &Vec<DataType>) -> Option<DataType>,
>(r: Reading<H, E>, p: PatternView, attribute: i64, plan: PlanView)
    requires
        r.sound(),
        convert::resolved(p.attribute, r.idents) == Ok::<i64, ErrorView>(attribute),
        !(p.entity is Placeholder) && !(p.value is Placeholder) && !(p.entity is Constant),
        !(p.attribute is Variable) && !(p.attribute is Placeholder),
        compile::pattern_plan(p, r.order, attribute) == Ok::<PlanView, ErrorView>(plan),
        regular(plan),
    ensures
        tells(r, plan, r.pattern_holds(p)),
{
    let order = r.order;
    let t = r.tuple();
    let keys = r.setting.keys;
    let as_of = r.setting.as_of;
    let names = convert::pattern_names(p);
    let indexes = compile::pattern_indexes(p, order)->Ok_0;
    let at = compile::pattern_levels(p, order);
    let constant = codec::i64_bytes(attribute) + compile::constant_part(p, indexes[0]);
    reveal_with_fuel(compile::present_levels, 4);
    assert(plan == PlanView::Pattern(indexes, constant, at) || names.len() == 0);
    if let (PlaceView::Variable(a), PlaceView::Variable(b)) = (p.entity, p.value) {
        assert(names =~= seq![a, b]);
        assert(names.drop_last() =~= seq![a]);
        assert(names.drop_last().drop_last() =~= Seq::<Name>::empty());
        let x = order.index_of(a);
        let y = order.index_of(b);
        assert(order.contains(a) && order.contains(b));
        assert(order[x] == a && order[y] == b);
        assert(constant =~= codec::i64_bytes(attribute));
        assert(compile::present_levels(order, names) =~= seq![x as usize, y as usize]);
        let (i, j) = if x < y {
            (x, y)
        } else {
            (y, x)
        };
        assert(at =~= seq![i as usize, j as usize]);
        assert(i < j);
        let versioned = if x < y {
            IndexType::AEV
        } else {
            IndexType::AVE
        };
        pattern_laws::law_scan_shows_just_held(
            keys,
            r.facts,
            versioned,
            attribute,
            r.values[i],
            r.values[j],
            as_of,
        );
        pattern_laws::lemma_two_scans(indexes, constant, at, t);
        fact_laws::lemma_met_at_two(r.setting, plan, t, indexes, constant, at);
        let scan = meaning::pattern_scan(indexes, constant, at, t.take(j));
        assert(scan.prefix =~= seq![codec::index_prefix(versioned)] + codec::i64_bytes(attribute)
            + codec::encoding(r.values[i]));
        assert(r.setting.accepts(plan, t.take(j), t[j]) == r.pattern_holds(p));
        if r.pattern_holds(p) {
            let e = r.values[x]->Long_0;
            pattern_laws::law_pattern_of_two_variables(
                keys,
                as_of,
                indexes,
                constant,
                at,
                r.facts,
                e,
                attribute,
                r.values[y],
                t,
            );
        }
    } else {
        let v = if let PlaceView::Variable(a) = p.entity {
            a
        } else {
            p.value->Variable_0
        };
        if !(p.entity is Variable) && !(p.value is Variable) {
            assert(names =~= Seq::<Name>::empty());
            assert(false);
        }
        assert(names =~= seq![v]);
        assert(names.drop_last() =~= Seq::<Name>::empty());
        assert(order.contains(v));
        let x = order.index_of(v);
        assert(order[x] == v);
        assert(at =~= seq![x as usize]);
        fact_laws::lemma_met_at_one(r.setting, plan, t, indexes, constant, at);
        pattern_laws::lemma_one_scan(indexes, constant, at, t);
        let scan = meaning::pattern_scan(indexes, constant, at, t.take(x));
        let index_type = indexes[0];
        let place = if p.entity is Variable {
            p.value
        } else {
            p.entity
        };
        match convert::place_value(place) {
            Some(known) => {
                pattern_laws::law_scan_shows_just_held(
                    keys,
                    r.facts,
                    index_type,
                    attribute,
                    known,
                    r.values[x],
                    as_of,
                );
                assert(scan.prefix =~= seq![codec::index_prefix(index_type)] + codec::i64_bytes(
                    attribute,
                ) + codec::encoding(known));
            },
            None => {
                pattern_laws::law_scan_shows_no_lone_value(
                    keys,
                    r.facts,
                    index_type,
                    attribute,
                    r.values[x],
                    as_of,
                );
                assert(scan.prefix =~= seq![codec::index_prefix(index_type)] + codec::i64_bytes(
                    attribute,
                ));
            },
        }
        assert(r.setting.accepts(plan, t.take(x), t[x]) == r.pattern_holds(p));
    }
}

/// A condition is satisfied just where it holds on the values.
proof fn lemma_condition<
    H: Fn(&Expr, &Vec<Variable>, &Vec<DataType>) -> bool,
    E: Fn(&Expr, &Vec<Variable>, &Vec<DataType>) -> Option<DataType>,
>(r: Reading<H, E>, e: ExprView, plan: PlanView)
    requires
        r.sound(),
        compile::predicate_plan(e, r.order) == Ok::<PlanView, ErrorView>(plan),
        levels::formed(plan, r.order.len() as int),
    ensures
        tells(r, plan, r.condition_holds(e)),
{
    let t = r.tuple();
    let names = expr::variables_of(e);
    let found = compile::levels_of(r.order, names).unwrap();
    let k = compile::highest(found);
    let rest = found.remove(k);
    let at = found[k].1 as int;
    lemma_levels(r.order, names);
    compile::lemma_highest(found);
    expr::lemma_with_new(Seq::<Name>::empty(), expr::occurrences(e));
    assert(plan == PlanView::Predicate(e, rest, found[k].0, found[k].1));
    assert forall|i: int| 0 <= i < rest.len() implies {
        &&& (#[trigger] rest[i]).1 < at
        &&& rest[i].1 == r.order.index_of(rest[i].0)
    } by {
        let n = if i < k {
            i
        } else {
            i + 1
        };
        assert(rest[i] == found[n]);
        assert(found[n].1 <= found[k].1);
        assert(names[n] != names[k]) by {
            if n < k {
                assert(names[n] != names[k]);
            } else {
                assert(names[k] != names[n]);
            }
        }
        assert(r.order[found[n].1 as int] == names[n]);
        assert(r.order[at] == names[k]);
    }
    let told = told_names(e, r.order);
    let read = evaluation::values_at(t.take(at), meaning::levels(rest)).push(
        codec::decoded(t[at]).unwrap().0,
    );
    assert forall|i: int| 0 <= i < told.len() implies #[trigger] read[i] == r.values_of(
        told,
    )[i] by {
        if i < rest.len() {
            let l = rest[i].1 as int;
            assert(t.take(at)[l] == t[l]);
            lemma_read_back(r.values[l]);
        } else {
            lemma_read_back(r.values[at]);
        }
    }
    assert(read =~= r.values_of(told));
    lemma_one_level(r, plan, at);
}

/// A value is read back from its encoding.
proof fn lemma_read_back(v: Value)
    ensures
        codec::decoded(codec::encoding(v)) == Some((v, codec::encoding(v).len() as int)),
{
    codec::law_decode_encoded(v, Seq::empty());
    assert(codec::encoding(v) + Seq::<u8>::empty() =~= codec::encoding(v));
}

/// The levels of variables are their places.
proof fn lemma_levels(order: Seq<Name>, names: Seq<Name>)
    requires
        order.len() <= usize::MAX,
    ensures
        compile::levels_of(order, names) matches Some(found) ==> {
            &&& found.len() == names.len()
            &&& forall|i: int|
                0 <= i < found.len() ==> {
                    &&& (#[trigger] found[i]).0 == names[i]
                    &&& found[i].1 == order.index_of(names[i])
                    &&& found[i].1 < order.len()
                    &&& order[found[i].1 as int] == names[i]
                }
        },
    decreases names.len(),
{
    if names.len() > 0 {
        lemma_levels(order, names.drop_last());
        if order.contains(names.last()) {
            let l = order.index_of(names.last());
            assert(order[l] == names.last());
        }
    }
}

/// A function is satisfied just where it gives the value of its output.
proof fn lemma_function<
    H: Fn(&Expr, &Vec<Variable>, &Vec<DataType>) -> bool,
    E: Fn(&Expr, &Vec<Variable>, &Vec<DataType>) -> Option<DataType>,
>(r: Reading<H, E>, e: ExprView, output: Name, plan: PlanView)
    requires
        r.sound(),
        compile::function_plan(e, output, r.order) == Ok::<PlanView, ErrorView>(plan),
        regular(plan),
    ensures
        tells(r, plan, r.function_gives(e, output)),
{
    let t = r.tuple();
    let names = expr::variables_of(e);
    let vars = compile::levels_of(r.order, names).unwrap();
    let at = r.order.index_of(output);
    lemma_levels(r.order, names);
    assert(r.order[at] == output);
    assert(plan == PlanView::Function(e, vars, at as usize));
    assert(meaning::names(vars) =~= names);
    assert(reads_earlier(vars, at as usize));
    let read = evaluation::values_at(t.take(at), meaning::levels(vars));
    assert forall|i: int| 0 <= i < names.len() implies #[trigger] read[i] == r.values_of(
        names,
    )[i] by {
        let l = vars[i].1 as int;
        assert(meaning::names(vars)[i] == names[i]);
        assert(vars[i].1 < at);
        assert(t.take(at)[l] == t[l]);
        lemma_read_back(r.values[l]);
    }
    assert(read =~= r.values_of(names));
    let value = r.values[at];
    assert(r.setting.accepts(plan, t.take(at), t[at]) == r.function_gives(e, output)) by {
        if r.function_gives(e, output) {
            assert(r.setting.computes(e, vars, t.take(at), value));
        }
        if r.setting.computed(e, vars, t.take(at), t[at]) {
            let v = choose|v: Value| #[trigger]
                r.setting.computes(e, vars, t.take(at), v) && t[at] == codec::encoding(v);
            lemma_encoding_once(v, value);
        }
    }
    lemma_one_level(r, plan, at);
}

/// A conjunction is satisfied just where all of its clauses are.
proof fn lemma_conjunction<
    H: Fn(&Expr, &Vec<Variable>, &Vec<DataType>) -> bool,
    E: Fn(&Expr, &Vec<Variable>, &Vec<DataType>) -> Option<DataType>,
>(setting: Setting<H, E>, children: Seq<PlanView>, t: Row)
    ensures
        meets(setting, PlanView::And(children), t) == forall|i: int|
            0 <= i < children.len() ==> meets(setting, #[trigger] children[i], t),
{
    let plan = PlanView::And(children);
    if meets(setting, plan, t) {
        assert forall|i: int| 0 <= i < children.len() implies meets(
            setting,
            #[trigger] children[i],
            t,
        ) by {
            assert forall|l: int| 0 <= l < t.len() && meaning::joins(
                children[i],
                l,
            ) implies setting.accepts(children[i], t.take(l), #[trigger] t[l]) by {
                assert(meaning::some_joins(children, l));
                assert(meaning::joins(plan, l));
                assert(setting.accepts(plan, t.take(l), t[l]));
                assert(setting.all_accept(children, t.take(l), t[l]));
                assert(t.take(l).len() == l);
            }
        }
    }
    if forall|i: int| 0 <= i < children.len() ==> meets(setting, #[trigger] children[i], t) {
        assert forall|l: int| 0 <= l < t.len() && meaning::joins(
            plan,
            l,
        ) implies setting.accepts(plan, t.take(l), #[trigger] t[l]) by {
            assert forall|i: int| 0 <= i < children.len() && meaning::joins(
                #[trigger] children[i],
                t.take(l).len() as int,
            ) implies setting.accepts(children[i], t.take(l), t[l]) by {
                assert(meets(setting, children[i], t));
                assert(t.take(l).len() == l);
            }
            assert(setting.all_accept(children, t.take(l), t[l]));
        }
    }
}

/// A negation is satisfied just where not all of its clauses are.
proof fn lemma_negation<
    H: Fn(&Expr, &Vec<Variable>, &Vec<DataType>) -> bool,
    E: Fn(&Expr, &Vec<Variable>, &Vec<DataType>) -> Option<DataType>,
>(r: Reading<H, E>, children: Seq<PlanView>)
    requires
        0 < r.values.len() <= usize::MAX,
    ensures
        tells(
            r,
            PlanView::Not(
                children,
                levels::negation_level(children, r.values.len() as int) as usize,
            ),
            !(forall|i: int|
                0 <= i < children.len() ==> meets(r.setting, #[trigger] children[i], r.tuple())),
        ),
{
    let setting = r.setting;
    let t = r.tuple();
    let at = levels::negation_level(children, r.values.len() as int);
    levels::lemma_negation_level(children, r.values.len() as int);
    let plan = PlanView::Not(children, at as usize);
    let prefix = t.take(at);
    lemma_one_level(r, plan, at);
    let all = setting.bound_accept(children, prefix) && setting.all_accept(
        children,
        prefix,
        t[at],
    );
    if all {
        assert forall|i: int| 0 <= i < children.len() implies meets(
            setting,
            #[trigger] children[i],
            t,
        ) by {
            assert forall|l: int| 0 <= l < t.len() && meaning::joins(
                children[i],
                l,
            ) implies setting.accepts(children[i], t.take(l), #[trigger] t[l]) by {
                if l < at {
                    assert(prefix[l] == t[l]);
                    assert(prefix.take(l) =~= t.take(l));
                    assert(setting.all_accept(children, prefix.take(l), prefix[l]));
                } else {
                    assert(meaning::some_joins(children, l));
                }
                assert(t.take(l).len() == l);
            }
        }
    }
    if forall|i: int| 0 <= i < children.len() ==> meets(setting, #[trigger] children[i], t) {
        assert forall|l: int| 0 <= l < t.len() implies setting.all_accept(
            children,
            t.take(l),
            #[trigger] t[l],
        ) by {
            assert(t.take(l).len() == l);
            assert forall|i: int| 0 <= i < children.len() && meaning::joins(
                #[trigger] children[i],
                l,
            ) implies setting.accepts(children[i], t.take(l), t[l]) by {
                assert(meets(setting, children[i], t));
            }
        }
        assert forall|l: int| 0 <= l < prefix.len() implies setting.all_accept(
            children,
            prefix.take(l),
            #[trigger] prefix[l],
        ) by {
            assert(prefix[l] == t[l]);
            assert(prefix.take(l) =~= t.take(l));
        }
        assert(setting.all_accept(children, t.take(at), t[at]));
    }
}

/// Where an extender decides, it takes part.
proof fn lemma_decides_joins(plan: PlanView, level: int, count: int)
    requires
        levels::formed(plan, count),
        decides_at(plan, level),
    ensures
        meaning::joins(plan, level),
        0 <= level < count,
    decreases plan,
{
    match plan {
        PlanView::Pattern(_, _, at) => {
            assert(at[at.len() - 1] == level);
            assert(meaning::at_level(at, level));
        },
        PlanView::And(children) => {
            assert(levels::all_formed(children, count) && all_decide_at(children, level));
            assert(levels::formed(children[0], count) && decides_at(children[0], level));
            lemma_decides_joins(children[0], level, count);
            assert(meaning::some_joins(children, level));
        },
        PlanView::Or(children) => {
            assert(levels::all_formed(children, count) && all_decide_at(children, level));
            assert(levels::formed(children[0], count) && decides_at(children[0], level));
            lemma_decides_joins(children[0], level, count);
        },
        _ => {},
    }
    levels::lemma_formed_levels(plan, count, level);
}

/// A disjunction whose branches decide at one level is satisfied just where one of them is.
proof fn lemma_disjunction<
    H: Fn(&Expr, &Vec<Variable>, &Vec<DataType>) -> bool,
    E: Fn(&Expr, &Vec<Variable>, &Vec<DataType>) -> Option<DataType>,
>(r: Reading<H, E>, children: Seq<PlanView>, holds: Seq<bool>)
    requires
        levels::formed(PlanView::Or(children), r.values.len() as int),
        levels::agreeing(PlanView::Or(children), r.values.len() as int),
        regular(PlanView::Or(children)),
        holds.len() == children.len(),
        forall|i: int| 0 <= i < children.len() ==> tells(r, #[trigger] children[i], holds[i]),
    ensures
        tells(r, PlanView::Or(children), exists|i: int| 0 <= i < holds.len() && #[trigger] holds[i]),
{
    let plan = PlanView::Or(children);
    let setting = r.setting;
    let t = r.tuple();
    let count = r.values.len() as int;
    let some = exists|i: int| 0 <= i < holds.len() && #[trigger] holds[i];
    assert(levels::all_formed(children, count) && levels::as_the_first(children, count));
    assert forall|level: int| #[trigger]
        decides_at(plan, level) && setting.accepts(plan, t.take(level), t[level]) implies some by {
        assert(all_decide_at(children, level));
        assert(setting.some_accept(children, t.take(level), t[level]));
        let i = choose|i: int|
            0 <= i < children.len() && setting.accepts(
                #[trigger] children[i],
                t.take(level),
                t[level],
            );
        assert(decides_at(children[i], level));
        assert(tells(r, children[i], holds[i]));
        assert(holds[i]);
    }
    if children.len() == 1 {
        if meets(setting, plan, t) {
            assert forall|l: int| 0 <= l < t.len() && meaning::joins(
                children[0],
                l,
            ) implies setting.accepts(children[0], t.take(l), #[trigger] t[l]) by {
                levels::lemma_same_levels(children, count, 0, l);
                assert(setting.accepts(plan, t.take(l), t[l]));
                assert(setting.some_accept(children, t.take(l), t[l]));
            }
            assert(tells(r, children[0], holds[0]));
            assert(holds[0]);
        }
    } else {
        let level = choose|level: int| #[trigger] all_decide_at(children, level);
        assert(decides_at(plan, level));
        lemma_decides_joins(plan, level, count);
        if meets(setting, plan, t) {
            assert(setting.accepts(plan, t.take(level), t[level]));
        }
    }
    if some {
        let i = choose|i: int| 0 <= i < holds.len() && #[trigger] holds[i];
        assert(tells(r, children[i], holds[i]));
        assert forall|l: int| 0 <= l < t.len() && meaning::joins(
            plan,
            l,
        ) implies setting.accepts(plan, t.take(l), #[trigger] t[l]) by {
            levels::lemma_same_levels(children, count, i, l);
            assert(setting.accepts(children[i], t.take(l), t[l]));
            assert(setting.some_accept(children, t.take(l), t[l]));
        }
    }
}

/// The extenders of branches stand in the order of the branches.
proof fn lemma_plan_of_branch(
    branches: Seq<OrWhereClause>,
    order: Seq<Name>,
    idents: Seq<(Keyword, i64)>,
    i: int,
)
    requires
        0 <= i < branches.len(),
        compile::branch_plans(branches, order, idents) is Ok,
    ensures
        ({
            let plans = compile::branch_plans(branches, order, idents)->Ok_0;
            plans.len() == branches.len() && compile::branch_plan(branches[i], order, idents)
                == Ok::<PlanView, ErrorView>(plans[i])
        }),
    decreases branches.len(),
{
    let front = branches.drop_last();
    if i < front.len() {
        lemma_plan_of_branch(front, order, idents, i);
        assert(front[i] == branches[i]);
    } else if front.len() > 0 {
        lemma_plan_of_branch(front, order, idents, 0);
    }
}

/// Each of the clauses leaves nothing open where all do.
proof fn lemma_closed_clause(clauses: Seq<WhereClause>, i: int)
    requires
        validation::all_closed_patterns(clauses),
        0 <= i < clauses.len(),
    ensures
        validation::closed_patterns(clauses[i]),
    decreases clauses.len(),
{
    if i < clauses.len() - 1 {
        lemma_closed_clause(clauses.drop_last(), i);
        assert(clauses.drop_last()[i] == clauses[i]);
    }
}

/// The same of branches.
proof fn lemma_closed_branch(branches: Seq<OrWhereClause>, i: int)
    requires
        validation::closed_branches(branches),
        0 <= i < branches.len(),
    ensures
        validation::closed_branch(branches[i]),
    decreases branches.len(),
{
    if i < branches.len() - 1 {
        lemma_closed_branch(branches.drop_last(), i);
        assert(branches.drop_last()[i] == branches[i]);
    }
}

/// A clause is satisfied just where it holds.
proof fn lemma_clause<
    H: Fn(&Expr, &Vec<Variable>, &Vec<DataType>) -> bool,
    E: Fn(&Expr, &Vec<Variable>, &Vec<DataType>) -> Option<DataType>,
>(r: Reading<H, E>, clause: WhereClause, plan: PlanView)
    requires
        r.sound(),
        validation::closed_patterns(clause),
        compile::clause_plan(clause, r.order, r.idents) == Ok::<PlanView, ErrorView>(plan),
        levels::formed(plan, r.order.len() as int),
        levels::agreeing(plan, r.order.len() as int),
        regular(plan),
    ensures
        tells(r, plan, r.holds(clause)),
    decreases clause, 3int,
{
    let count = r.order.len() as int;
    match clause {
        WhereClause::Pattern(p) => {
            let attribute = convert::resolved(p.attribute@, r.idents)->Ok_0;
            lemma_pattern(r, p@, attribute, plan);
        },
        WhereClause::Pred(p) => {
            lemma_condition(r, convert::converted(p.expr)->Ok_0, plan);
        },
        WhereClause::WhereFn(f) => {
            let (e, output) = convert::converted_fn(f)->Ok_0;
            lemma_function(r, e, output, plan);
        },
        WhereClause::OrJoin(or) => {
            let branches = or.clauses@;
            let children = compile::branch_plans(branches, r.order, r.idents)->Ok_0;
            let holds = Seq::new(branches.len(), |i: int| r.branch_holds(branches[i]));
            if branches.len() > 0 {
                lemma_plan_of_branch(branches, r.order, r.idents, 0);
            }
            assert(levels::all_formed(children, count) && levels::all_agreeing(children, count));
            assert(all_regular(children));
            assert forall|i: int| 0 <= i < children.len() implies tells(
                r,
                #[trigger] children[i],
                holds[i],
            ) by {
                lemma_plan_of_branch(branches, r.order, r.idents, i);
                lemma_closed_branch(branches, i);
                lemma_branch(r, branches[i], children[i]);
            }
            lemma_disjunction(r, children, holds);
            assert((exists|i: int| 0 <= i < holds.len() && #[trigger] holds[i]) == r.holds(
                clause,
            )) by {
                if exists|i: int| 0 <= i < holds.len() && #[trigger] holds[i] {
                    let i = choose|i: int| 0 <= i < holds.len() && #[trigger] holds[i];
                    assert(r.branch_holds(branches[i]));
                }
                if r.some_branch_holds(branches) {
                    let i = choose|i: int|
                        0 <= i < branches.len() && r.branch_holds(#[trigger] branches[i]);
                    assert(holds[i]);
                }
            }
        },
        WhereClause::NotJoin(not) => {
            let children = compile::clause_plans(not.clauses@, r.order, r.idents)->Ok_0;
            assert(levels::all_formed(children, count) && levels::all_agreeing(children, count));
            assert(all_regular(children));
            lemma_clauses(r, not.clauses@, children);
            lemma_negation(r, children);
        },
        _ => {},
    }
}

/// Clauses are all satisfied just where all of them hold.
proof fn lemma_clauses<
    H: Fn(&Expr, &Vec<Variable>, &Vec<DataType>) -> bool,
    E: Fn(&Expr, &Vec<Variable>, &Vec<DataType>) -> Option<DataType>,
>(r: Reading<H, E>, clauses: Seq<WhereClause>, plans: Seq<PlanView>)
    requires
        r.sound(),
        validation::all_closed_patterns(clauses),
        compile::clause_plans(clauses, r.order, r.idents) == Ok::<Seq<PlanView>, ErrorView>(plans),
        levels::all_formed(plans, r.order.len() as int),
        levels::all_agreeing(plans, r.order.len() as int),
        all_regular(plans),
    ensures
        plans.len() == clauses.len(),
        forall|i: int| 0 <= i < plans.len() ==> tells(r, #[trigger] plans[i], r.holds(clauses[i])),
        (forall|i: int|
            0 <= i < plans.len() ==> meets(r.setting, #[trigger] plans[i], r.tuple()))
            == r.all_hold(clauses),
    decreases clauses, 0int,
{
    if clauses.len() > 0 {
        fact_laws::lemma_plan_of_clause(clauses, r.order, r.idents, 0);
    }
    assert forall|i: int| 0 <= i < plans.len() implies tells(
        r,
        #[trigger] plans[i],
        r.holds(clauses[i]),
    ) by {
        fact_laws::lemma_plan_of_clause(clauses, r.order, r.idents, i);
        lemma_closed_clause(clauses, i);
        lemma_clause(r, clauses[i], plans[i]);
    }
    if r.all_hold(clauses) {
        assert forall|i: int| 0 <= i < plans.len() implies meets(
            r.setting,
            #[trigger] plans[i],
            r.tuple(),
        ) by {
            assert(tells(r, plans[i], r.holds(clauses[i])));
        }
    }
    if forall|i: int| 0 <= i < plans.len() ==> meets(r.setting, #[trigger] plans[i], r.tuple()) {
        assert forall|i: int| 0 <= i < clauses.len() implies r.holds(#[trigger] clauses[i]) by {
            assert(tells(r, plans[i], r.holds(clauses[i])));
        }
    }
}

/// A branch is satisfied just where it holds.
proof fn lemma_branch<
    H: Fn(&Expr, &Vec<Variable>, &Vec<DataType>) -> bool,
    E: Fn(&Expr, &Vec<Variable>, &Vec<DataType>) -> Option<DataType>,
>(r: Reading<H, E>, branch: OrWhereClause, plan: PlanView)
    requires
        r.sound(),
        validation::closed_branch(branch),
        compile::branch_plan(branch, r.order, r.idents) == Ok::<PlanView, ErrorView>(plan),
        levels::formed(plan, r.order.len() as int),
        levels::agreeing(plan, r.order.len() as int),
        regular(plan),
    ensures
        tells(r, plan, r.branch_holds(branch)),
    decreases branch, 2int,
{
    let count = r.order.len() as int;
    match branch {
        OrWhereClause::Clause(c) => {
            lemma_clause(r, c, plan);
        },
        OrWhereClause::And(cs) => {
            let children = compile::clause_plans(cs@, r.order, r.idents)->Ok_0;
            let t = r.tuple();
            assert(levels::all_formed(children, count) && levels::all_agreeing(children, count));
            assert(all_regular(children));
            lemma_clauses(r, cs@, children);
            lemma_conjunction(r.setting, children, t);
            assert forall|level: int| #[trigger]
                decides_at(plan, level) && r.setting.accepts(
                    plan,
                    t.take(level),
                    t[level],
                ) implies r.all_hold(cs@) by {
                assert(all_decide_at(children, level));
                assert(r.setting.all_accept(children, t.take(level), t[level]));
                lemma_decides_joins(plan, level, count);
                assert(t.take(level).len() == level);
                assert forall|i: int| 0 <= i < cs@.len() implies r.holds(#[trigger] cs@[i]) by {
                    assert(decides_at(children[i], level));
                    assert(levels::formed(children[i], count));
                    lemma_decides_joins(children[i], level, count);
                    assert(r.setting.accepts(children[i], t.take(level), t[level]));
                    assert(tells(r, children[i], r.holds(cs@[i])));
                }
            }
        },
    }
}

/// An input is satisfied just where it binds its variable to the value.
proof fn lemma_input<
    H: Fn(&Expr, &Vec<Variable>, &Vec<DataType>) -> bool,
    E: Fn(&Expr, &Vec<Variable>, &Vec<DataType>) -> Option<DataType>,
>(r: Reading<H, E>, binding: Binding, argument: QueryArg)
    requires
        r.sound(),
        lower::binds(binding, argument),
        r.order.contains(convert::binding_names(binding)[0]),
    ensures
        meets(r.setting, compile::input_plan(binding, argument, r.order), r.tuple())
            == r.input_holds(binding, argument),
{
    let v = convert::binding_names(binding)[0];
    let at = r.order.index_of(v);
    let plan = compile::input_plan(binding, argument, r.order);
    let t = r.tuple();
    assert(r.order[at] == v);
    lemma_one_level(r, plan, at);
    match argument {
        QueryArg::Scalar(given) => {
            lemma_encoding_once(r.values[at], given@);
            let list = seq![codec::encoding(given@)];
            assert(list[0] == codec::encoding(given@));
            assert(list.contains(t[at]) == (t[at] == codec::encoding(given@)));
        },
        QueryArg::Collection(given) => {
            let list = Seq::new(given@.len(), |i: int| codec::encoding(given@[i]@));
            if list.contains(t[at]) {
                let i = list.index_of(t[at]);
                lemma_encoding_once(r.values[at], given@[i]@);
            }
            if r.input_holds(binding, argument) {
                let i = choose|i: int|
                    0 <= i < given@.len() && r.values[at] == (#[trigger] given@[i])@;
                assert(list[i] == t[at]);
            }
        },
    }
}

/// The variable that an input binds is one of the query's.
proof fn lemma_input_variable(bindings: Seq<Binding>, clauses: Seq<WhereClause>, i: int)
    requires
        0 <= i < bindings.len(),
        convert::binding_names(bindings[i]).len() > 0,
    ensures
        convert::variable_order(bindings, clauses).contains(
            convert::binding_names(bindings[i])[0],
        ),
{
    let v = convert::binding_names(bindings[i])[0];
    let all = convert::all_binding_names(bindings);
    lemma_among_bindings(bindings, i);
    let first = expr::with_new(Seq::<Name>::empty(), all);
    expr::lemma_with_new(Seq::<Name>::empty(), all);
    let second = expr::with_new(first, convert::grouped_names(clauses, false));
    expr::lemma_with_new(first, convert::grouped_names(clauses, false));
    expr::lemma_with_new(second, convert::grouped_names(clauses, true));
    assert(first.contains(v) && second.contains(v));
}

/// The variable that an input binds is one of the inputs'.
proof fn lemma_among_bindings(bindings: Seq<Binding>, i: int)
    requires
        0 <= i < bindings.len(),
        convert::binding_names(bindings[i]).len() > 0,
    ensures
        convert::all_binding_names(bindings).contains(convert::binding_names(bindings[i])[0]),
    decreases bindings.len(),
{
    let v = convert::binding_names(bindings[i])[0];
    let front = convert::all_binding_names(bindings.drop_last());
    let own = convert::binding_names(bindings.last());
    if i < bindings.len() - 1 {
        lemma_among_bindings(bindings.drop_last(), i);
        assert(bindings.drop_last()[i] == bindings[i]);
        let k = front.index_of(v);
        assert((front + own)[k] == v);
    } else {
        assert((front + own)[front.len() as int] == v);
    }
}

/// A query finds exactly the tuples of values to which the inputs bind their variables and with
/// which every clause holds: a pattern where its fact holds as of the transaction, a condition or
/// a function where it does, a disjunction where one of its branches does and a negation where not
/// all of its clauses do. A tuple is found only where some input or clause takes part in each of
/// its levels.
pub proof fn law_query_finds_what_holds<
    H: Fn(&Expr, &Vec<Variable>, &Vec<DataType>) -> bool,
    E: Fn(&Expr, &Vec<Variable>, &Vec<DataType>) -> Option<DataType>,
>(r: Reading<H, E>, query: ParsedQuery, args: Seq<QueryArg>, plans: Seq<PlanView>)
    requires
        stored_pattern::index_keys(r.setting.keys),
        pattern_laws::indexed(r.setting.keys, r.facts),
        execute::query_plans(query, args, r.idents) == Ok::<Seq<PlanView>, FaultView>(plans),
        r.order == execute::variables(query),
        r.values.len() == r.order.len() <= usize::MAX,
        all_regular(plans),
    ensures
        r.setting.satisfies(plans, r.tuple()) == ({
            &&& forall|l: int|
                0 <= l < r.values.len() ==> #[trigger] meaning::some_joins(plans, l)
            &&& forall|i: int|
                0 <= i < args.len() ==> r.input_holds(#[trigger] query.in_bindings@[i], args[i])
            &&& r.all_hold(query.where_clauses@)
        }),
{
    let clauses = query.where_clauses@;
    let bindings = query.in_bindings@;
    let n = args.len() as int;
    let t = r.tuple();
    let rest = compile::clause_plans(clauses, r.order, r.idents)->Ok_0;
    convert::law_variable_order_unique(bindings, clauses);
    validation::law_valid_queries_run(query, args);
    execute::law_query_plans_are_formed(query, args, r.idents);
    assert forall|i: int| 0 <= i < rest.len() implies {
        &&& levels::formed(#[trigger] rest[i], r.order.len() as int)
        &&& levels::agreeing(rest[i], r.order.len() as int)
        &&& regular(rest[i])
        &&& plans[n + i] == rest[i]
    } by {
        assert(plans[n + i] == rest[i]);
    }
    lemma_clauses(r, clauses, rest);
    fact_laws::law_tuples_meet_every_extender(r.setting, plans, t);
    assert forall|i: int| 0 <= i < n implies meets(r.setting, #[trigger] plans[i], t)
        == r.input_holds(bindings[i], args[i]) by {
        assert(lower::binds(bindings[i], args[i]));
        lemma_input_variable(bindings, clauses, i);
        lemma_input(r, bindings[i], args[i]);
    }
    let inputs = forall|i: int|
        0 <= i < args.len() ==> r.input_holds(#[trigger] bindings[i], args[i]);
    let every = forall|i: int| 0 <= i < plans.len() ==> meets(r.setting, #[trigger] plans[i], t);
    if every {
        assert forall|i: int| 0 <= i < args.len() implies r.input_holds(
            #[trigger] bindings[i],
            args[i],
        ) by {
            assert(meets(r.setting, plans[i], t));
        }
        assert forall|i: int| 0 <= i < rest.len() implies meets(
            r.setting,
            #[trigger] rest[i],
            t,
        ) by {
            assert(meets(r.setting, plans[n + i], t));
        }
    }
    if inputs && r.all_hold(clauses) {
        assert forall|i: int| 0 <= i < plans.len() implies meets(
            r.setting,
            #[trigger] plans[i],
            t,
        ) by {
            if i < n {
                assert(r.input_holds(bindings[i], args[i]));
            } else {
                assert(plans[i] == rest[i - n]);
            }
        }
    }
}

} // verus!
