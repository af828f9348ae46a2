//! From the clauses of a query to the extenders of a join.
//!
//! What comes out is a description of the extenders; those over stored facts still have to be
//! given access to the store, and those of conditions and functions an evaluation.

use vstd::prelude::*;

use crate::byte_string;
use crate::codec::{self, encode};
use crate::error::{self, Error, ErrorView};
use crate::expr::{self, expr_variables, Expr, ExprView};
use crate::iterator::generic_prefix_extender::{self, GenericPrefixExtender};
use crate::query::ast::{
    self, unsupported_text, Binding, OrWhereClause, ParsedQuery, Pattern, PatternNonValuePlace,
    PatternValuePlace, PatternView, PlaceView, QueryArg, WhereClause,
};
use crate::query::convert::{
    self, convert_predicate, convert_where_fn, non_value_place_to_datatype, pattern_variables,
    query_variable_order, resolve_attribute_from_pattern, value_place_to_datatype, FnExpr,
};
use crate::query::levels::{self, level_of_negation};
use crate::query::lower;
use crate::value::{DataType, IndexType, Keyword};
use crate::variable::{self, position, Name, Variable};

verus! {

/// A description of an extender.
#[derive(Debug)]
pub enum ExtenderPlan {
    Values { values: Vec<Vec<u8>>, level: usize },
    Pattern(GenericPrefixExtender),
    And(Vec<ExtenderPlan>),
    Or(Vec<ExtenderPlan>),
    Not { children: Vec<ExtenderPlan>, level: usize },
    Predicate {
        expr: Expr,
        prefix_vars: Vec<(Variable, usize)>,
        extension_var: Variable,
        level: usize,
    },
    Function { expr: Expr, prefix_vars: Vec<(Variable, usize)>, output_level: usize },
}

/// What the description of an extender is.
pub enum PlanView {
    Values(Seq<Seq<u8>>, usize),
    Pattern(Seq<IndexType>, Seq<u8>, Seq<usize>),
    And(Seq<PlanView>),
    Or(Seq<PlanView>),
    Not(Seq<PlanView>, usize),
    Predicate(ExprView, Seq<(Name, usize)>, Name, usize),
    Function(ExprView, Seq<(Name, usize)>, usize),
}

/// Variables with their levels.
pub open spec fn leveled(vars: Seq<(Variable, usize)>) -> Seq<(Name, usize)> {
    Seq::new(vars.len(), |i: int| (vars[i].0@, vars[i].1))
}

/// What the description of an extender is.
pub open spec fn plan_view(plan: ExtenderPlan) -> PlanView
    decreases plan, 1int,
{
    match plan {
        ExtenderPlan::Values { values, level } => PlanView::Values(values.deep_view(), level),
        ExtenderPlan::Pattern(p) => PlanView::Pattern(
            p.index_types@,
            p.constant_prefix@,
            p.participating_levels@,
        ),
        ExtenderPlan::And(children) => PlanView::And(plan_views(children@)),
        ExtenderPlan::Or(children) => PlanView::Or(plan_views(children@)),
        ExtenderPlan::Not { children, level } => PlanView::Not(plan_views(children@), level),
        ExtenderPlan::Predicate { expr, prefix_vars, extension_var, level } => PlanView::Predicate(
            expr@,
            leveled(prefix_vars@),
            extension_var@,
            level,
        ),
        ExtenderPlan::Function { expr, prefix_vars, output_level } => PlanView::Function(
            expr@,
            leveled(prefix_vars@),
            output_level,
        ),
    }
}

/// What the descriptions of extenders are.
pub open spec fn plan_views(plans: Seq<ExtenderPlan>) -> Seq<PlanView>
    decreases plans, 0int,
{
    if plans.len() == 0 {
        Seq::empty()
    } else {
        plan_views(plans.drop_last()).push(plan_view(plans.last()))
    }
}

/// What a description in a list is.
pub proof fn lemma_plan_views(plans: Seq<ExtenderPlan>)
    ensures
        plan_views(plans).len() == plans.len(),
        forall|i: int| 0 <= i < plans.len() ==> #[trigger] plan_views(plans)[i] == plans[i]@,
    decreases plans.len(),
{
    if plans.len() > 0 {
        lemma_plan_views(plans.drop_last());
        assert forall|i: int| 0 <= i < plans.len() implies #[trigger] plan_views(plans)[i]
            == plans[i]@ by {
            if i < plans.len() - 1 {
                assert(plan_views(plans)[i] == plan_views(plans.drop_last())[i]);
                assert(plans.drop_last()[i] == plans[i]);
            }
        }
    }
}

impl View for ExtenderPlan {
    type V = PlanView;

    open spec fn view(&self) -> PlanView {
        plan_view(*self)
    }
}

/// The level of a variable in a join order, if it has one.
pub open spec fn level_of(order: Seq<Name>, v: Name) -> Option<usize> {
    if order.contains(v) {
        Some(order.index_of(v) as usize)
    } else {
        None
    }
}

/// The level of a variable in a join order, if it has one.
fn find_level(order: &[Variable], v: &Variable) -> (r: Option<usize>)
    requires
        variable::unique(order.deep_view()),
    ensures
        r == level_of(order.deep_view(), v@),
        r matches Some(l) ==> l < order@.len(),
{
    assert(order.deep_view().len() == order@.len());
    match position(order, v) {
        Some(i) => {
            proof {
                crate::query::binding_bag::lemma_index_of(order.deep_view(), i as int);
                assert(order.deep_view().contains(order.deep_view()[i as int]));
            }
            Some(i)
        },
        None => None,
    }
}

/// The levels of variables; none where one has no level.
pub open spec fn levels_of(order: Seq<Name>, names: Seq<Name>) -> Option<Seq<(Name, usize)>>
    decreases names.len(),
{
    if names.len() == 0 {
        Some(Seq::empty())
    } else {
        match (levels_of(order, names.drop_last()), level_of(order, names.last())) {
            (Some(front), Some(l)) => Some(front.push((names.last(), l))),
            _ => None,
        }
    }
}

/// A variable without a level among the first is one among all.
proof fn lemma_no_level(order: Seq<Name>, names: Seq<Name>, n: int)
    requires
        0 <= n <= names.len(),
        levels_of(order, names.take(n)) is None,
    ensures
        levels_of(order, names) is None,
    decreases names.len(),
{
    if n < names.len() {
        assert(names.drop_last().take(n) =~= names.take(n));
        lemma_no_level(order, names.drop_last(), n);
    } else {
        assert(names.take(n) =~= names);
    }
}

/// Variables have levels just where none of them is missing in the order.
proof fn lemma_levels(order: Seq<Name>, names: Seq<Name>)
    ensures
        levels_of(order, names) is None == variable::first_missing(names, order) is Some,
    decreases names.len(),
{
    if names.len() > 0 {
        lemma_levels(order, names.drop_last());
    }
}

/// The levels of variables, or the first without a level.
fn find_levels(order: &[Variable], vars: &Vec<Variable>) -> (r: Result<
    Vec<(Variable, usize)>,
    Variable,
>)
    requires
        variable::unique(order.deep_view()),
    ensures
        match r {
            Ok(list) => levels_of(order.deep_view(), vars.deep_view()) == Some(leveled(list@))
                && list@.len() == vars@.len(),
            Err(v) => levels_of(order.deep_view(), vars.deep_view()) is None
                && variable::first_missing(vars.deep_view(), order.deep_view()) == Some(v@),
        },
{
    let ghost names = vars.deep_view();
    let ghost all = order.deep_view();
    assert(names.len() == vars@.len());
    let mut out: Vec<(Variable, usize)> = Vec::new();
    let mut i: usize = 0;
    assert(leveled(out@) =~= Seq::<(Name, usize)>::empty());
    while i < vars.len()
        invariant
            i <= vars@.len() == names.len(),
            names == vars.deep_view(),
            all == order.deep_view(),
            variable::unique(all),
            out@.len() == i,
            levels_of(all, names.take(i as int)) == Some(leveled(out@)),
        decreases vars@.len() - i,
    {
        proof {
            assert(names.take(i + 1).drop_last() =~= names.take(i as int));
            assert(names.take(i + 1).last() == names[i as int]);
        }
        match find_level(order, &vars[i]) {
            Some(level) => {
                let v = vars[i].clone();
                let ghost earlier = out@;
                let ghost name = v@;
                out.push((v, level));
                assert(leveled(out@) =~= leveled(earlier).push((name, level)));
            },
            None => {
                proof {
                    lemma_no_level(all, names, i + 1);
                    lemma_levels(all, names.take(i as int));
                    variable::lemma_missing(names, all, i + 1);
                }
                return Err(vars[i].clone());
            },
        }
        i += 1;
    }
    assert(names.take(i as int) =~= names);
    Ok(out)
}

/// The place of the highest level; of several the last.
pub open spec fn highest(levels: Seq<(Name, usize)>) -> int
    decreases levels.len(),
{
    if levels.len() <= 1 {
        0
    } else {
        let earlier = highest(levels.drop_last());
        if levels.last().1 >= levels[earlier].1 {
            levels.len() - 1
        } else {
            earlier
        }
    }
}

/// The extender of a condition: it decides at the level of its last variable.
pub open spec fn predicate_plan(e: ExprView, order: Seq<Name>) -> Result<PlanView, ErrorView> {
    let names = expr::variables_of(e);
    if names.len() == 0 {
        Err(ErrorView::NoVariables)
    } else {
        match levels_of(order, names) {
            None => Err(
                ErrorView::PredicateVariable(variable::first_missing(names, order).unwrap()),
            ),
            Some(levels) => {
                let k = highest(levels);
                Ok(PlanView::Predicate(e, levels.remove(k), levels[k].0, levels[k].1))
            },
        }
    }
}

/// What a compiled clause is.
pub open spec fn outcome(r: Result<ExtenderPlan, Error>) -> Result<PlanView, ErrorView> {
    match r {
        Ok(p) => Ok(p@),
        Err(e) => Err(e@),
    }
}

/// The place of the highest level is a place.
pub proof fn lemma_highest(levels: Seq<(Name, usize)>)
    requires
        levels.len() > 0,
    ensures
        0 <= highest(levels) < levels.len(),
        forall|i: int| 0 <= i < levels.len() ==> (#[trigger] levels[i]).1 <= levels[highest(levels)].1,
    decreases levels.len(),
{
    if levels.len() > 1 {
        lemma_highest(levels.drop_last());
        assert forall|i: int| 0 <= i < levels.len() implies (#[trigger] levels[i]).1
            <= levels[highest(levels)].1 by {
            if i < levels.len() - 1 {
                assert(levels.drop_last()[i] == levels[i]);
            }
        }
    }
}

/// The extender of a condition.
pub fn compile_predicate(expr: Expr, join_order: &[Variable]) -> (r: Result<ExtenderPlan, Error>)
    requires
        variable::unique(join_order.deep_view()),
    ensures
        outcome(r) == predicate_plan(expr@, join_order.deep_view()),
{
    let vars = expr_variables(&expr);
    assert(vars.deep_view().len() == vars@.len());
    if vars.len() == 0 {
        return Err(Error::NoVariables);
    }
    let mut var_levels = match find_levels(join_order, &vars) {
        Ok(levels) => levels,
        Err(v) => {
            return Err(Error::PredicateVariable(v.name));
        },
    };
    let ghost levels = leveled(var_levels@);
    let mut best: usize = 0;
    let mut i: usize = 1;
    assert(highest(levels.take(1)) == 0);
    while i < var_levels.len()
        invariant
            1 <= i <= var_levels@.len() == levels.len(),
            levels == leveled(var_levels@),
            best < i,
            best == highest(levels.take(i as int)),
        decreases var_levels@.len() - i,
    {
        proof {
            assert(levels.take(i + 1).drop_last() =~= levels.take(i as int));
            assert(levels.take(i + 1).last() == levels[i as int]);
        }
        if var_levels[i].1 >= var_levels[best].1 {
            best = i;
        }
        i += 1;
    }
    assert(levels.take(i as int) =~= levels);
    let ghost all = var_levels@;
    let (extension_var, level) = var_levels.remove(best);
    assert(leveled(var_levels@) =~= levels.remove(best as int));
    Ok(ExtenderPlan::Predicate { expr, prefix_vars: var_levels, extension_var, level })
}

/// The extender of a function: it decides at the level of its output.
pub open spec fn function_plan(e: ExprView, output: Name, order: Seq<Name>) -> Result<
    PlanView,
    ErrorView,
> {
    let names = expr::variables_of(e);
    match (levels_of(order, names), level_of(order, output)) {
        (None, _) => Err(ErrorView::FunctionInput(variable::first_missing(names, order).unwrap())),
        (_, None) => Err(ErrorView::FunctionOutput(output)),
        (Some(levels), Some(l)) => Ok(PlanView::Function(e, levels, l)),
    }
}

/// The extender of a function.
pub fn compile_fn_expr(fn_expr: FnExpr, join_order: &[Variable]) -> (r: Result<
    ExtenderPlan,
    Error,
>)
    requires
        variable::unique(join_order.deep_view()),
    ensures
        outcome(r) == function_plan(fn_expr.expr@, fn_expr.output@, join_order.deep_view()),
{
    let input_vars = fn_expr.input_variables();
    let prefix_vars = match find_levels(join_order, &input_vars) {
        Ok(levels) => levels,
        Err(v) => {
            return Err(Error::FunctionInput(v.name));
        },
    };
    match find_level(join_order, &fn_expr.output) {
        Some(output_level) => Ok(
            ExtenderPlan::Function { expr: fn_expr.expr, prefix_vars, output_level },
        ),
        None => Err(Error::FunctionOutput(fn_expr.output.name)),
    }
}

/// The index for a pattern of one variable, or of two in the order of a join.
pub open spec fn single_index(p: PatternView, order: Seq<Name>) -> Result<IndexType, ErrorView> {
    if p.attribute is Placeholder || p.attribute is Variable {
        Err(ErrorView::AttributePosition)
    } else {
        match (p.entity, p.value) {
            (PlaceView::Number(_), _) => Ok(IndexType::AEV),
            (PlaceView::Ident(_), _) => Ok(IndexType::AEV),
            (PlaceView::Placeholder, _) => Ok(IndexType::AV),
            (PlaceView::Variable(_), PlaceView::Placeholder) => Ok(IndexType::AE),
            (PlaceView::Variable(a), PlaceView::Variable(b)) => match (
                level_of(order, a),
                level_of(order, b),
            ) {
                (Some(x), Some(y)) => if x < y {
                    Ok(IndexType::AEV)
                } else {
                    Ok(IndexType::AVE)
                },
                _ => Err(ErrorView::PatternUnplaced),
            },
            _ => Ok(IndexType::AVE),
        }
    }
}

/// The index for a pattern of one variable, or of two in the order of a join.
pub fn pattern_index_type(pattern: &Pattern, join_order: &[Variable]) -> (r: Result<
    IndexType,
    Error,
>)
    requires
        variable::unique(join_order.deep_view()),
    ensures
        error::told(r) == single_index(pattern@, join_order.deep_view()),
{
    match &pattern.attribute {
        PatternNonValuePlace::Placeholder => {
            return Err(Error::AttributePosition);
        },
        PatternNonValuePlace::Variable(_) => {
            return Err(Error::AttributePosition);
        },
        _ => {},
    }
    match (&pattern.entity, &pattern.value) {
        (PatternNonValuePlace::Entid(_), _) => Ok(IndexType::AEV),
        (PatternNonValuePlace::Ident(_), _) => Ok(IndexType::AEV),
        (PatternNonValuePlace::Placeholder, _) => Ok(IndexType::AV),
        (PatternNonValuePlace::Variable(_), PatternValuePlace::Placeholder) => Ok(IndexType::AE),
        (PatternNonValuePlace::Variable(a), PatternValuePlace::Variable(b)) => {
            match (find_level(join_order, a), find_level(join_order, b)) {
                (Some(x), Some(y)) => if x < y {
                    Ok(IndexType::AEV)
                } else {
                    Ok(IndexType::AVE)
                },
                _ => Err(Error::PatternUnplaced),
            }
        },
        _ => Ok(IndexType::AVE),
    }
}

/// The indexes for the levels of a pattern: for two variables first the index of the attribute
/// and the variable that is bound first, then the index of all three.
pub open spec fn pattern_indexes(p: PatternView, order: Seq<Name>) -> Result<
    Seq<IndexType>,
    ErrorView,
> {
    let names = convert::pattern_names(p);
    if names.len() == 0 {
        Ok(Seq::empty())
    } else if names.len() == 1 {
        match single_index(p, order) {
            Ok(i) => Ok(seq![i]),
            Err(e) => Err(e),
        }
    } else if names.len() == 2 {
        match (level_of(order, names[0]), level_of(order, names[1])) {
            (Some(x), Some(y)) => if x < y {
                Ok(seq![IndexType::AE, IndexType::AEV])
            } else {
                Ok(seq![IndexType::AV, IndexType::AVE])
            },
            _ => Err(ErrorView::PatternUnplaced),
        }
    } else {
        Err(ErrorView::TooManyVariables)
    }
}

/// The indexes for the levels of a pattern.
pub fn determine_index_types(pattern: &Pattern, join_order: &[Variable]) -> (r: Result<
    Vec<IndexType>,
    Error,
>)
    requires
        variable::unique(join_order.deep_view()),
    ensures
        match r {
            Ok(list) => pattern_indexes(pattern@, join_order.deep_view()) == Ok::<
                Seq<IndexType>,
                ErrorView,
            >(list@),
            Err(e) => pattern_indexes(pattern@, join_order.deep_view()) == Err::<
                Seq<IndexType>,
                ErrorView,
            >(e@),
        },
{
    let pat_vars = pattern_variables(pattern);
    assert(pat_vars.deep_view().len() == pat_vars@.len());
    let mut out: Vec<IndexType> = Vec::new();
    if pat_vars.len() == 1 {
        match pattern_index_type(pattern, join_order) {
            Ok(index_type) => {
                out.push(index_type);
                assert(out@ =~= seq![index_type]);
                Ok(out)
            },
            Err(e) => Err(e),
        }
    } else if pat_vars.len() == 2 {
        match (find_level(join_order, &pat_vars[0]), find_level(join_order, &pat_vars[1])) {
            (Some(x), Some(y)) => {
                if x < y {
                    out.push(IndexType::AE);
                    out.push(IndexType::AEV);
                    assert(out@ =~= seq![IndexType::AE, IndexType::AEV]);
                } else {
                    out.push(IndexType::AV);
                    out.push(IndexType::AVE);
                    assert(out@ =~= seq![IndexType::AV, IndexType::AVE]);
                }
                Ok(out)
            },
            _ => Err(Error::PatternUnplaced),
        }
    } else if pat_vars.len() == 0 {
        assert(out@ =~= Seq::<IndexType>::empty());
        Ok(out)
    } else {
        Err(Error::TooManyVariables)
    }
}

/// What stands behind the attribute in the keys of a pattern: in the index by value a constant
/// value, in the index by entity a constant entity.
pub open spec fn constant_part(p: PatternView, index_type: IndexType) -> Seq<u8> {
    let place = match index_type {
        IndexType::AVE => convert::place_value(p.value),
        IndexType::AEV => convert::place_value(p.entity),
        _ => None,
    };
    match place {
        Some(value) => codec::encoding(value),
        None => Seq::empty(),
    }
}

/// What stands behind the attribute in the keys of a pattern.
pub fn compute_constant_prefix(pattern: &Pattern, index_type: IndexType) -> (r: Vec<u8>)
    ensures
        r@ == constant_part(pattern@, index_type),
{
    let constant = match index_type {
        IndexType::AVE => value_place_to_datatype(&pattern.value),
        IndexType::AEV => non_value_place_to_datatype(&pattern.entity),
        _ => None,
    };
    match constant {
        Some(value) => encode(&value),
        None => {
            let none: Vec<u8> = Vec::new();
            assert(none@ =~= Seq::<u8>::empty());
            none
        },
    }
}

/// Whether the levels are those of the pattern's variables that have one, in ascending order.
pub open spec fn pattern_levels(p: PatternView, order: Seq<Name>) -> Seq<usize> {
    let names = convert::pattern_names(p);
    let found = present_levels(order, names);
    if found.len() == 2 && found[1] < found[0] {
        seq![found[1], found[0]]
    } else {
        found
    }
}

/// The levels of those variables that have one.
pub open spec fn present_levels(order: Seq<Name>, names: Seq<Name>) -> Seq<usize>
    decreases names.len(),
{
    if names.len() == 0 {
        Seq::empty()
    } else {
        match level_of(order, names.last()) {
            Some(l) => present_levels(order, names.drop_last()).push(l),
            None => present_levels(order, names.drop_last()),
        }
    }
}

/// The extender of a pattern.
pub open spec fn pattern_plan(p: PatternView, order: Seq<Name>, attribute: i64) -> Result<
    PlanView,
    ErrorView,
> {
    match pattern_indexes(p, order) {
        Err(e) => Err(e),
        Ok(indexes) => Ok(
            PlanView::Pattern(
                indexes,
                codec::i64_bytes(attribute) + (if indexes.len() > 0 {
                    constant_part(p, indexes[0])
                } else {
                    Seq::empty()
                }),
                pattern_levels(p, order),
            ),
        ),
    }
}

/// Levels of no more than two variables are in order once the lower is in front.
pub proof fn lemma_pattern_levels(p: PatternView, order: Seq<Name>)
    requires
        variable::unique(order),
        order.len() <= usize::MAX,
        pattern_indexes(p, order) is Ok,
    ensures
        generic_prefix_extender::ascending_levels(pattern_levels(p, order)),
        pattern_levels(p, order).len() <= pattern_indexes(p, order)->Ok_0.len(),
        present_levels(order, convert::pattern_names(p)).len() <= 2,
{
    let names = convert::pattern_names(p);
    reveal_with_fuel(present_levels, 4);
    if names.len() == 2 {
        assert(names.drop_last().drop_last() =~= Seq::<Name>::empty());
        assert(names.drop_last().last() == names[0]);
    } else if names.len() == 1 {
        assert(names.drop_last() =~= Seq::<Name>::empty());
    }
}

/// The extender of a pattern.
pub fn compile_pattern(pattern: &Pattern, join_order: &[Variable], attribute_id: i64) -> (r: Result<
    GenericPrefixExtender,
    Error,
>)
    requires
        variable::unique(join_order.deep_view()),
    ensures
        match r {
            Ok(e) => e.inv() && pattern_plan(pattern@, join_order.deep_view(), attribute_id) == Ok::<
                PlanView,
                ErrorView,
            >(plan_view(ExtenderPlan::Pattern(e))),
            Err(e) => pattern_plan(pattern@, join_order.deep_view(), attribute_id) == Err::<
                PlanView,
                ErrorView,
            >(e@),
        },
{
    let ghost order = join_order.deep_view();
    let ghost names = convert::pattern_names(pattern@);
    let pat_vars = pattern_variables(pattern);
    assert(pat_vars.deep_view().len() == pat_vars@.len());
    let index_types = match determine_index_types(pattern, join_order) {
        Ok(index_types) => index_types,
        Err(e) => {
            return Err(e);
        },
    };
    let mut levels: Vec<usize> = Vec::new();
    let mut i: usize = 0;
    assert(levels@ =~= present_levels(order, names.take(0)));
    while i < pat_vars.len()
        invariant
            i <= pat_vars@.len() == names.len(),
            names == pat_vars.deep_view(),
            order == join_order.deep_view(),
            variable::unique(order),
            levels@ == present_levels(order, names.take(i as int)),
        decreases pat_vars@.len() - i,
    {
        proof {
            assert(names.take(i + 1).drop_last() =~= names.take(i as int));
            assert(names.take(i + 1).last() == names[i as int]);
        }
        if let Some(level) = find_level(join_order, &pat_vars[i]) {
            levels.push(level);
        }
        i += 1;
    }
    proof {
        assert(names.take(i as int) =~= names);
        assert(join_order.len() <= usize::MAX);
        assert(order.len() == join_order.len());
        lemma_pattern_levels(pattern@, order);
    }
    if levels.len() == 2 && levels[1] < levels[0] {
        let low: usize = levels[1];
        let high: usize = levels[0];
        levels.set(0, low);
        levels.set(1, high);
        assert(levels@ =~= seq![low, high]);
    }
    let constant_prefix = if index_types.len() > 0 {
        compute_constant_prefix(pattern, index_types[0])
    } else {
        let none: Vec<u8> = Vec::new();
        assert(none@ =~= Seq::<u8>::empty());
        none
    };
    Ok(GenericPrefixExtender::new(index_types, attribute_id, constant_prefix, levels))
}

/// Whether a clause can be compiled without a fault of the program: no disjunction or conjunction
/// is empty, and there is a level for a negation.
pub open spec fn compilable(clause: WhereClause, levels: int) -> bool
    decreases clause, 3int,
{
    match clause {
        WhereClause::OrJoin(or) => or.clauses@.len() > 0 && compilable_branches(
            or.clauses@,
            levels,
        ),
        WhereClause::NotJoin(not) => levels > 0 && compilable_all(not.clauses@, levels),
        _ => true,
    }
}

/// The same of clauses.
pub open spec fn compilable_all(clauses: Seq<WhereClause>, levels: int) -> bool
    decreases clauses, 0int,
{
    clauses.len() == 0 || (compilable_all(clauses.drop_last(), levels) && compilable(
        clauses.last(),
        levels,
    ))
}

/// The same of a branch.
pub open spec fn compilable_branch(branch: OrWhereClause, levels: int) -> bool
    decreases branch, 2int,
{
    match branch {
        OrWhereClause::Clause(c) => compilable(c, levels),
        OrWhereClause::And(cs) => cs@.len() > 0 && compilable_all(cs@, levels),
    }
}

/// The same of branches.
pub open spec fn compilable_branches(branches: Seq<OrWhereClause>, levels: int) -> bool
    decreases branches, 0int,
{
    branches.len() == 0 || (compilable_branches(branches.drop_last(), levels)
        && compilable_branch(branches.last(), levels))
}

/// The extender of a clause. A negation decides at the last level in which its clauses take part.
pub open spec fn clause_plan(
    clause: WhereClause,
    order: Seq<Name>,
    idents: Seq<(Keyword, i64)>,
) -> Result<PlanView, ErrorView>
    decreases clause, 3int,
{
    match clause {
        WhereClause::Pattern(p) => match convert::resolved(p.attribute@, idents) {
            Ok(attribute) => pattern_plan(p@, order, attribute),
            Err(e) => Err(e),
        },
        WhereClause::OrJoin(or) => match branch_plans(or.clauses@, order, idents) {
            Ok(children) => Ok(PlanView::Or(children)),
            Err(e) => Err(e),
        },
        WhereClause::NotJoin(not) => match clause_plans(not.clauses@, order, idents) {
            Ok(children) => Ok(
                PlanView::Not(
                    children,
                    levels::negation_level(children, order.len() as int) as usize,
                ),
            ),
            Err(e) => Err(e),
        },
        WhereClause::Pred(p) => match convert::converted(p.expr) {
            Ok(e) => predicate_plan(e, order),
            Err(e) => Err(e),
        },
        WhereClause::WhereFn(f) => match convert::converted_fn(f) {
            Ok((e, output)) => function_plan(e, output, order),
            Err(e) => Err(e),
        },
        _ => Err(ErrorView::UnsupportedClause(ast::unsupported(clause))),
    }
}

/// The extenders of clauses; the first clause without one decides the error.
pub open spec fn clause_plans(
    clauses: Seq<WhereClause>,
    order: Seq<Name>,
    idents: Seq<(Keyword, i64)>,
) -> Result<Seq<PlanView>, ErrorView>
    decreases clauses, 0int,
{
    if clauses.len() == 0 {
        Ok(Seq::empty())
    } else {
        match clause_plans(clauses.drop_last(), order, idents) {
            Err(e) => Err(e),
            Ok(front) => match clause_plan(clauses.last(), order, idents) {
                Ok(p) => Ok(front.push(p)),
                Err(e) => Err(e),
            },
        }
    }
}

/// The extender of a branch.
pub open spec fn branch_plan(
    branch: OrWhereClause,
    order: Seq<Name>,
    idents: Seq<(Keyword, i64)>,
) -> Result<PlanView, ErrorView>
    decreases branch, 2int,
{
    match branch {
        OrWhereClause::Clause(c) => clause_plan(c, order, idents),
        OrWhereClause::And(cs) => match clause_plans(cs@, order, idents) {
            Ok(children) => Ok(PlanView::And(children)),
            Err(e) => Err(e),
        },
    }
}

/// The extenders of branches.
pub open spec fn branch_plans(
    branches: Seq<OrWhereClause>,
    order: Seq<Name>,
    idents: Seq<(Keyword, i64)>,
) -> Result<Seq<PlanView>, ErrorView>
    decreases branches, 0int,
{
    if branches.len() == 0 {
        Ok(Seq::empty())
    } else {
        match branch_plans(branches.drop_last(), order, idents) {
            Err(e) => Err(e),
            Ok(front) => match branch_plan(branches.last(), order, idents) {
                Ok(p) => Ok(front.push(p)),
                Err(e) => Err(e),
            },
        }
    }
}

/// What holds of all clauses holds of each, and an error among the first is that of all.
proof fn lemma_first_clauses(
    clauses: Seq<WhereClause>,
    order: Seq<Name>,
    idents: Seq<(Keyword, i64)>,
    n: int,
)
    requires
        0 <= n <= clauses.len(),
    ensures
        compilable_all(clauses, order.len() as int) && n < clauses.len() ==> compilable(
            clauses[n],
            order.len() as int,
        ),
        compilable_all(clauses, order.len() as int) ==> compilable_all(
            clauses.take(n),
            order.len() as int,
        ),
        clause_plans(clauses.take(n), order, idents) is Err ==> clause_plans(clauses, order, idents)
            == clause_plans(clauses.take(n), order, idents),
    decreases clauses.len() - n,
{
    if n < clauses.len() {
        lemma_first_clauses(clauses, order, idents, n + 1);
        assert(clauses.take(n + 1).drop_last() =~= clauses.take(n));
        assert(clauses.take(n + 1).last() == clauses[n]);
    } else {
        assert(clauses.take(n) =~= clauses);
    }
}

/// The same of branches.
proof fn lemma_first_branches(
    branches: Seq<OrWhereClause>,
    order: Seq<Name>,
    idents: Seq<(Keyword, i64)>,
    n: int,
)
    requires
        0 <= n <= branches.len(),
    ensures
        compilable_branches(branches, order.len() as int) && n < branches.len()
            ==> compilable_branch(branches[n], order.len() as int),
        compilable_branches(branches, order.len() as int) ==> compilable_branches(
            branches.take(n),
            order.len() as int,
        ),
        branch_plans(branches.take(n), order, idents) is Err ==> branch_plans(
            branches,
            order,
            idents,
        ) == branch_plans(branches.take(n), order, idents),
    decreases branches.len() - n,
{
    if n < branches.len() {
        lemma_first_branches(branches, order, idents, n + 1);
        assert(branches.take(n + 1).drop_last() =~= branches.take(n));
        assert(branches.take(n + 1).last() == branches[n]);
    } else {
        assert(branches.take(n) =~= branches);
    }
}

/// What compiled clauses are.
pub open spec fn outcomes(r: Result<Vec<ExtenderPlan>, Error>) -> Result<Seq<PlanView>, ErrorView> {
    match r {
        Ok(list) => Ok(plan_views(list@)),
        Err(e) => Err(e@),
    }
}

/// The extenders of clauses.
pub fn compile_where_clauses(
    clauses: &Vec<WhereClause>,
    join_order: &[Variable],
    ident_map: &[(Keyword, i64)],
) -> (r: Result<Vec<ExtenderPlan>, Error>)
    requires
        variable::unique(join_order.deep_view()),
        compilable_all(clauses@, join_order@.len() as int),
    ensures
        outcomes(r) == clause_plans(clauses@, join_order.deep_view(), ident_map@),
    decreases clauses@, 0int,
{
    let ghost order = join_order.deep_view();
    let mut out: Vec<ExtenderPlan> = Vec::new();
    let mut i: usize = 0;
    assert(clauses@.take(0) =~= Seq::<WhereClause>::empty());
    while i < clauses.len()
        invariant
            i <= clauses@.len(),
            order == join_order.deep_view(),
            variable::unique(order),
            compilable_all(clauses@, join_order@.len() as int),
            clause_plans(clauses@.take(i as int), order, ident_map@) == Ok::<Seq<PlanView>, ErrorView>(
                plan_views(out@),
            ),
        decreases clauses@.len() - i,
    {
        proof {
            assert(order.len() == join_order@.len());
            lemma_first_clauses(clauses@, order, ident_map@, i as int);
            lemma_first_clauses(clauses@, order, ident_map@, i + 1);
            assert(clauses@.take(i + 1).drop_last() =~= clauses@.take(i as int));
            assert(clauses@.take(i + 1).last() == clauses@[i as int]);
        }
        match compile_where_clause(&clauses[i], join_order, ident_map) {
            Ok(plan) => {
                let ghost earlier = out@;
                out.push(plan);
                assert(out@.drop_last() =~= earlier);
            },
            Err(e) => {
                return Err(e);
            },
        }
        i += 1;
    }
    assert(clauses@.take(i as int) =~= clauses@);
    Ok(out)
}

/// The extender of a branch of a disjunction.
pub fn compile_or_branch(
    branch: &OrWhereClause,
    join_order: &[Variable],
    ident_map: &[(Keyword, i64)],
) -> (r: Result<ExtenderPlan, Error>)
    requires
        variable::unique(join_order.deep_view()),
        compilable_branch(*branch, join_order@.len() as int),
    ensures
        outcome(r) == branch_plan(*branch, join_order.deep_view(), ident_map@),
    decreases *branch, 2int,
{
    match branch {
        OrWhereClause::Clause(clause) => compile_where_clause(clause, join_order, ident_map),
        OrWhereClause::And(children) => match compile_where_clauses(
            children,
            join_order,
            ident_map,
        ) {
            Ok(plans) => Ok(ExtenderPlan::And(plans)),
            Err(e) => Err(e),
        },
    }
}

/// The extenders of the branches of a disjunction.
fn compile_or_branches(
    branches: &Vec<OrWhereClause>,
    join_order: &[Variable],
    ident_map: &[(Keyword, i64)],
) -> (r: Result<Vec<ExtenderPlan>, Error>)
    requires
        variable::unique(join_order.deep_view()),
        compilable_branches(branches@, join_order@.len() as int),
    ensures
        outcomes(r) == branch_plans(branches@, join_order.deep_view(), ident_map@),
    decreases branches@, 0int,
{
    let ghost order = join_order.deep_view();
    let mut out: Vec<ExtenderPlan> = Vec::new();
    let mut i: usize = 0;
    assert(branches@.take(0) =~= Seq::<OrWhereClause>::empty());
    while i < branches.len()
        invariant
            i <= branches@.len(),
            order == join_order.deep_view(),
            variable::unique(order),
            compilable_branches(branches@, join_order@.len() as int),
            branch_plans(branches@.take(i as int), order, ident_map@) == Ok::<
                Seq<PlanView>,
                ErrorView,
            >(plan_views(out@)),
        decreases branches@.len() - i,
    {
        proof {
            assert(order.len() == join_order@.len());
            lemma_first_branches(branches@, order, ident_map@, i as int);
            lemma_first_branches(branches@, order, ident_map@, i + 1);
            assert(branches@.take(i + 1).drop_last() =~= branches@.take(i as int));
            assert(branches@.take(i + 1).last() == branches@[i as int]);
        }
        match compile_or_branch(&branches[i], join_order, ident_map) {
            Ok(plan) => {
                let ghost earlier = out@;
                out.push(plan);
                assert(out@.drop_last() =~= earlier);
            },
            Err(e) => {
                return Err(e);
            },
        }
        i += 1;
    }
    assert(branches@.take(i as int) =~= branches@);
    Ok(out)
}

/// The extender of a clause.
pub fn compile_where_clause(
    clause: &WhereClause,
    join_order: &[Variable],
    ident_map: &[(Keyword, i64)],
) -> (r: Result<ExtenderPlan, Error>)
    requires
        variable::unique(join_order.deep_view()),
        compilable(*clause, join_order@.len() as int),
    ensures
        outcome(r) == clause_plan(*clause, join_order.deep_view(), ident_map@),
    decreases *clause, 3int,
{
    assert(join_order.deep_view().len() == join_order@.len());
    match clause {
        WhereClause::Pattern(pattern) => {
            let attribute: i64 = match resolve_attribute_from_pattern(
                &pattern.attribute,
                ident_map,
            ) {
                Ok(attribute) => attribute,
                Err(e) => {
                    return Err(e);
                },
            };
            match compile_pattern(pattern, join_order, attribute) {
                Ok(extender) => Ok(ExtenderPlan::Pattern(extender)),
                Err(e) => Err(e),
            }
        },
        WhereClause::OrJoin(or) => match compile_or_branches(&or.clauses, join_order, ident_map) {
            Ok(children) => Ok(ExtenderPlan::Or(children)),
            Err(e) => Err(e),
        },
        WhereClause::NotJoin(not) => match compile_where_clauses(
            &not.clauses,
            join_order,
            ident_map,
        ) {
            Ok(children) => {
                let level: usize = level_of_negation(&children, join_order.len());
                Ok(ExtenderPlan::Not { children, level })
            },
            Err(e) => Err(e),
        },
        WhereClause::Pred(pred) => match convert_predicate(pred) {
            Ok(expr) => compile_predicate(expr, join_order),
            Err(e) => Err(e),
        },
        WhereClause::WhereFn(wf) => match convert_where_fn(wf) {
            Ok(fn_expr) => compile_fn_expr(fn_expr, join_order),
            Err(e) => Err(e),
        },
        _ => Err(Error::UnsupportedClause(unsupported_text(clause))),
    }
}

/// The extender of an input: its encoded value, or its encoded values, at the level of its
/// variable.
pub open spec fn input_plan(binding: Binding, argument: QueryArg, order: Seq<Name>) -> PlanView {
    PlanView::Values(
        match argument {
            QueryArg::Scalar(value) => seq![codec::encoding(value@)],
            QueryArg::Collection(list) => Seq::new(
                list@.len(),
                |i: int| codec::encoding(list@[i]@),
            ),
        },
        level_of(order, convert::binding_names(binding)[0]).unwrap(),
    )
}

/// Encodes values.
fn encode_all(values: &Vec<DataType>) -> (r: Vec<Vec<u8>>)
    ensures
        r.deep_view() == Seq::new(values@.len(), |i: int| codec::encoding(values@[i]@)),
{
    let mut out: Vec<Vec<u8>> = Vec::new();
    let mut i: usize = 0;
    assert(out.deep_view() =~= Seq::new(0, |j: int| codec::encoding(values@[j]@)));
    while i < values.len()
        invariant
            i <= values@.len(),
            out.deep_view() == Seq::new(i as nat, |j: int| codec::encoding(values@[j]@)),
        decreases values@.len() - i,
    {
        let bytes = encode(&values[i]);
        let ghost earlier = out;
        out.push(bytes);
        proof {
            byte_string::lemma_deep_bytes(&bytes);
            byte_string::lemma_deep_push(earlier, out, bytes);
        }
        i += 1;
        assert(out.deep_view() =~= Seq::new(i as nat, |j: int| codec::encoding(values@[j]@)));
    }
    out
}

/// The extenders of the inputs that have an argument.
pub fn compile_in_bindings(
    in_bindings: &[Binding],
    args: &[QueryArg],
    join_order: &[Variable],
) -> (r: Vec<ExtenderPlan>)
    requires
        variable::unique(join_order.deep_view()),
        forall|i: int|
            0 <= i < in_bindings@.len() && i < args@.len() ==> lower::binds(
                #[trigger] in_bindings@[i],
                args@[i],
            ) && join_order.deep_view().contains(convert::binding_names(in_bindings@[i])[0]),
    ensures
        plan_views(r@) == Seq::new(
            vstd::math::min(in_bindings@.len() as int, args@.len() as int) as nat,
            |i: int| input_plan(in_bindings@[i], args@[i], join_order.deep_view()),
        ),
{
    let ghost order = join_order.deep_view();
    let ghost count = vstd::math::min(in_bindings@.len() as int, args@.len() as int) as nat;
    let ghost wanted = Seq::new(count, |i: int| input_plan(in_bindings@[i], args@[i], order));
    let mut out: Vec<ExtenderPlan> = Vec::new();
    let mut i: usize = 0;
    assert(plan_views(out@) =~= wanted.take(0));
    while i < in_bindings.len() && i < args.len()
        invariant
            i <= in_bindings@.len(),
            i <= args@.len(),
            order == join_order.deep_view(),
            variable::unique(order),
            count == vstd::math::min(in_bindings@.len() as int, args@.len() as int),
            wanted == Seq::new(count, |j: int| input_plan(in_bindings@[j], args@[j], order)),
            forall|j: int|
                0 <= j < in_bindings@.len() && j < args@.len() ==> lower::binds(
                    #[trigger] in_bindings@[j],
                    args@[j],
                ) && order.contains(convert::binding_names(in_bindings@[j])[0]),
            plan_views(out@) == wanted.take(i as int),
        decreases in_bindings@.len() - i,
    {
        assert(lower::binds(in_bindings@[i as int], args@[i as int]));
        let found = match &in_bindings[i] {
            Binding::BindScalar(v) => find_level(join_order, v),
            Binding::BindColl(v) => find_level(join_order, v),
            _ => None,
        };
        let level: usize = match found {
            Some(level) => level,
            None => {
                assert(false);
                0
            },
        };
        let values = match &args[i] {
            QueryArg::Scalar(value) => {
                let mut one: Vec<Vec<u8>> = Vec::new();
                let bytes = encode(value);
                let ghost none = one;
                one.push(bytes);
                proof {
                    byte_string::lemma_deep_bytes(&bytes);
                    byte_string::lemma_deep_push(none, one, bytes);
                    assert(one.deep_view() =~= seq![codec::encoding(value@)]);
                }
                one
            },
            QueryArg::Collection(list) => encode_all(list),
        };
        let plan = ExtenderPlan::Values { values, level };
        let ghost earlier = out@;
        proof {
            assert(plan_view(plan) == wanted[i as int]);
        }
        out.push(plan);
        proof {
            assert(out@.drop_last() =~= earlier);
            assert(wanted.take(i + 1) =~= wanted.take(i as int).push(wanted[i as int]));
        }
        i += 1;
    }
    assert(wanted.take(i as int) =~= wanted);
    out
}

/// What a binding binds stands among what all bindings bind.
pub proof fn lemma_binding_names(bindings: Seq<Binding>, i: int, v: Name)
    requires
        0 <= i < bindings.len(),
        convert::binding_names(bindings[i]).contains(v),
    ensures
        convert::all_binding_names(bindings).contains(v),
    decreases bindings.len(),
{
    let front = convert::all_binding_names(bindings.drop_last());
    let last = convert::binding_names(bindings.last());
    if i < bindings.len() - 1 {
        lemma_binding_names(bindings.drop_last(), i, v);
        let k = front.index_of(v);
        assert((front + last)[k] == v);
    } else {
        let k = last.index_of(v);
        assert((front + last)[front.len() + k] == v);
    }
}

/// The views of two lists, one after the other.
proof fn lemma_views_join(a: Seq<ExtenderPlan>, b: Seq<ExtenderPlan>)
    ensures
        plan_views(a + b) == plan_views(a) + plan_views(b),
    decreases b.len(),
{
    if b.len() == 0 {
        assert(a + b =~= a);
        assert(plan_views(a) + plan_views(b) =~= plan_views(a));
    } else {
        assert((a + b).drop_last() =~= a + b.drop_last());
        lemma_views_join(a, b.drop_last());
        assert(plan_views(a + b) =~= plan_views(a) + plan_views(b));
    }
}

/// The join of a query: the order of its variables, and the extenders of its inputs and of its
/// clauses.
pub fn compile_query(
    query: &ParsedQuery,
    args: &[QueryArg],
    ident_map: &[(Keyword, i64)],
) -> (r: Result<(Vec<Variable>, Vec<ExtenderPlan>), Error>)
    requires
        forall|i: int|
            0 <= i < query.in_bindings@.len() && i < args@.len() ==> lower::binds(
                #[trigger] query.in_bindings@[i],
                args@[i],
            ),
        compilable_all(
            query.where_clauses@,
            convert::variable_order(query.in_bindings@, query.where_clauses@).len() as int,
        ),
    ensures
        ({
            let order = convert::variable_order(query.in_bindings@, query.where_clauses@);
            let clauses = clause_plans(query.where_clauses@, order, ident_map@);
            match r {
                Ok((variables, plans)) => variables.deep_view() == order && variable::unique(order)
                    && (clauses matches Ok(rest) && plan_views(plans@) == Seq::new(
                    vstd::math::min(query.in_bindings@.len() as int, args@.len() as int) as nat,
                    |i: int| input_plan(query.in_bindings@[i], args@[i], order),
                ) + rest),
                Err(e) => clauses == Err::<Seq<PlanView>, ErrorView>(e@),
            }
        }),
{
    let join_order = query_variable_order(&query.in_bindings, &query.where_clauses);
    let ghost order = join_order.deep_view();
    proof {
        convert::law_variable_order_unique(query.in_bindings@, query.where_clauses@);
        assert(order.len() == join_order@.len());
        assert forall|i: int| 0 <= i < query.in_bindings@.len() && i < args@.len() implies lower::binds(
        #[trigger] query.in_bindings@[i], args@[i]) && order.contains(
            convert::binding_names(query.in_bindings@[i])[0],
        ) by {
            let v = convert::binding_names(query.in_bindings@[i])[0];
            assert(convert::binding_names(query.in_bindings@[i]).len() == 1);
            lemma_binding_names(query.in_bindings@, i, v);
        }
    }
    let mut plans = compile_in_bindings(&query.in_bindings, args, &join_order);
    let mut rest = match compile_where_clauses(&query.where_clauses, &join_order, ident_map) {
        Ok(rest) => rest,
        Err(e) => {
            return Err(e);
        },
    };
    proof {
        lemma_views_join(plans@, rest@);
    }
    plans.append(&mut rest);
    Ok((join_order, plans))
}

} // verus!
