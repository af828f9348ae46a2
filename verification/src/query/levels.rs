//! Which levels of a join the described extenders take part in.

use vstd::prelude::*;

use crate::iterator::generic_prefix_extender;
use crate::query::ast::{Binding, OrWhereClause, PatternView, QueryArg, WhereClause};
use crate::query::compile::{self, ExtenderPlan, PlanView};
use crate::query::convert;
use crate::query::lower;
use crate::query::meaning::{at_level, joins, some_joins};
use crate::value::Keyword;
use crate::variable::{self, Name};

verus! {

/// Whether two extenders take part in the same ones of the first levels.
pub open spec fn same_first_levels(a: PlanView, b: PlanView, count: int) -> bool {
    forall|level: int| 0 <= level < count ==> #[trigger] joins(a, level) == joins(b, level)
}

/// Whether all the branches of each disjunction take part in the same levels.
pub open spec fn agreeing(plan: PlanView, count: int) -> bool
    decreases plan, 1int,
{
    match plan {
        PlanView::And(children) => all_agreeing(children, count),
        PlanView::Or(children) => all_agreeing(children, count) && as_the_first(children, count),
        PlanView::Not(children, _) => all_agreeing(children, count),
        _ => true,
    }
}

/// Whether extenders take part in the levels of the first one.
pub open spec fn as_the_first(plans: Seq<PlanView>, count: int) -> bool {
    forall|i: int| 0 <= i < plans.len() ==> same_first_levels(#[trigger] plans[i], plans[0], count)
}

/// Whether all the branches of each disjunction take part in the same levels, in all of the
/// extenders.
pub open spec fn all_agreeing(plans: Seq<PlanView>, count: int) -> bool
    decreases plans, 0int,
{
    forall|i: int| 0 <= i < plans.len() ==> agreeing(#[trigger] plans[i], count)
}

/// Whether an extender is well formed: its levels are among the first, no conjunction or
/// disjunction is empty, and a pattern has an index for each of its levels, which are in order.
pub open spec fn formed(plan: PlanView, count: int) -> bool
    decreases plan, 1int,
{
    match plan {
        PlanView::Values(_, at) => at < count,
        PlanView::Pattern(indexes, _, at) => generic_prefix_extender::ascending_levels(at)
            && at.len() <= indexes.len() && all_below(at, count),
        PlanView::And(children) => children.len() > 0 && all_formed(children, count),
        PlanView::Or(children) => children.len() > 0 && all_formed(children, count),
        PlanView::Not(children, at) => at < count && all_formed(children, count),
        PlanView::Predicate(_, _, _, at) => at < count,
        PlanView::Function(_, _, at) => at < count,
    }
}

/// Whether levels are among the first.
pub open spec fn all_below(at: Seq<usize>, count: int) -> bool {
    forall|i: int| 0 <= i < at.len() ==> #[trigger] at[i] < count
}

/// Whether extenders are well formed.
pub open spec fn all_formed(plans: Seq<PlanView>, count: int) -> bool
    decreases plans, 0int,
{
    forall|i: int| 0 <= i < plans.len() ==> formed(#[trigger] plans[i], count)
}

/// A well formed extender takes part only in the first levels.
pub proof fn lemma_formed_levels(plan: PlanView, count: int, level: int)
    requires
        formed(plan, count),
        joins(plan, level),
    ensures
        0 <= level < count,
    decreases plan,
{
    match plan {
        PlanView::Pattern(_, _, at) => {
            assert(at_level(at, level));
            let i = choose|i: int| 0 <= i < at.len() && #[trigger] at[i] == level;
            assert(all_below(at, count));
            assert(at[i] < count);
        },
        PlanView::And(children) => {
            assert(some_joins(children, level));
            let i = choose|i: int| 0 <= i < children.len() && joins(#[trigger] children[i], level);
            assert(all_formed(children, count));
            lemma_formed_levels(children[i], count, level);
        },
        PlanView::Or(children) => {
            assert(all_formed(children, count));
            assert(formed(children[0], count));
            lemma_formed_levels(children[0], count, level);
        },
        _ => {},
    }
}

/// Branches that are well formed and agree on the first levels agree on all levels.
pub proof fn lemma_same_levels(plans: Seq<PlanView>, count: int, i: int, level: int)
    requires
        all_formed(plans, count),
        as_the_first(plans, count),
        0 <= i < plans.len(),
    ensures
        joins(plans[i], level) == joins(plans[0], level),
{
    assert(formed(plans[i], count) && formed(plans[0], count));
    assert(same_first_levels(plans[i], plans[0], count));
    if joins(plans[i], level) {
        lemma_formed_levels(plans[i], count, level);
    }
    if joins(plans[0], level) {
        lemma_formed_levels(plans[0], count, level);
    }
    if 0 <= level < count {
        assert(joins(plans[i], level) == joins(plans[0], level));
    }
}

/// Whether an extender takes part in a level.
pub fn takes_level(plan: &ExtenderPlan, level: usize) -> (r: bool)
    ensures
        r == joins(plan@, level as int),
    decreases *plan, 1int,
{
    match plan {
        ExtenderPlan::Values { level: own, .. } => *own == level,
        ExtenderPlan::Pattern(pattern) => pattern.participates_in_level(level),
        ExtenderPlan::And(children) => some_take_level(children, level),
        ExtenderPlan::Or(children) => {
            proof {
                compile::lemma_plan_views(children@);
            }
            children.len() > 0 && takes_level(&children[0], level)
        },
        ExtenderPlan::Not { level: own, .. } => *own == level,
        ExtenderPlan::Predicate { level: own, .. } => *own == level,
        ExtenderPlan::Function { output_level, .. } => *output_level == level,
    }
}

/// Whether one of the extenders takes part in a level.
pub fn some_take_level(plans: &Vec<ExtenderPlan>, level: usize) -> (r: bool)
    ensures
        r == some_joins(compile::plan_views(plans@), level as int),
    decreases plans@, 0int,
{
    let ghost views = compile::plan_views(plans@);
    proof {
        compile::lemma_plan_views(plans@);
    }
    let mut i: usize = 0;
    while i < plans.len()
        invariant
            i <= plans@.len() == views.len(),
            views == compile::plan_views(plans@),
            forall|j: int| 0 <= j < plans@.len() ==> #[trigger] views[j] == plans@[j]@,
            forall|j: int| 0 <= j < i ==> !joins(#[trigger] views[j], level as int),
        decreases plans@.len() - i,
    {
        assert(views[i as int] == plans@[i as int]@);
        if takes_level(&plans[i], level) {
            return true;
        }
        i += 1;
    }
    false
}

/// The last of the first levels in which one of the extenders takes part.
pub open spec fn last_joined(plans: Seq<PlanView>, count: int) -> Option<int>
    decreases count,
{
    if count <= 0 {
        None
    } else if some_joins(plans, count - 1) {
        Some(count - 1)
    } else {
        last_joined(plans, count - 1)
    }
}

/// The level at which a negation of clauses decides: the last in which one of them takes part, and
/// so the first at which all their variables are bound. Where none takes part it is the last level.
pub open spec fn negation_level(plans: Seq<PlanView>, count: int) -> int {
    match last_joined(plans, count) {
        Some(level) => level,
        None => count - 1,
    }
}

/// Behind the level of a negation none of its clauses takes part.
pub proof fn lemma_negation_level(plans: Seq<PlanView>, count: int)
    requires
        count > 0,
    ensures
        0 <= negation_level(plans, count) < count,
        forall|level: int|
            negation_level(plans, count) < level < count ==> !#[trigger] some_joins(plans, level),
    decreases count,
{
    lemma_last_joined(plans, count);
}

/// Behind the last level in which one of the extenders takes part, none does.
proof fn lemma_last_joined(plans: Seq<PlanView>, count: int)
    ensures
        match last_joined(plans, count) {
            Some(last) => 0 <= last < count && forall|level: int|
                last < level < count ==> !#[trigger] some_joins(plans, level),
            None => forall|level: int| 0 <= level < count ==> !#[trigger] some_joins(plans, level),
        },
    decreases count,
{
    if count > 0 {
        lemma_last_joined(plans, count - 1);
    }
}

/// The level at which a negation of clauses decides.
pub fn level_of_negation(plans: &Vec<ExtenderPlan>, count: usize) -> (r: usize)
    requires
        count > 0,
    ensures
        r == negation_level(compile::plan_views(plans@), count as int),
{
    let ghost views = compile::plan_views(plans@);
    let mut left: usize = count;
    while left > 0
        invariant
            left <= count,
            views == compile::plan_views(plans@),
            last_joined(views, count as int) == last_joined(views, left as int),
        decreases left,
    {
        if some_take_level(plans, left - 1) {
            return left - 1;
        }
        left -= 1;
    }
    count - 1
}

/// Whether two extenders take part in the same ones of the first levels.
fn take_same_levels(a: &ExtenderPlan, b: &ExtenderPlan, count: usize) -> (r: bool)
    ensures
        r == same_first_levels(a@, b@, count as int),
{
    let mut level: usize = 0;
    while level < count
        invariant
            level <= count,
            same_first_levels(a@, b@, level as int),
        decreases count - level,
    {
        if takes_level(a, level) != takes_level(b, level) {
            return false;
        }
        level += 1;
    }
    true
}

/// Whether all the branches of each disjunction take part in the same levels, of so many.
pub fn branches_take_same_levels(plan: &ExtenderPlan, count: usize) -> (r: bool)
    ensures
        r == agreeing(plan@, count as int),
    decreases *plan, 1int,
{
    match plan {
        ExtenderPlan::And(children) => all_take_same_levels(children, count),
        ExtenderPlan::Not { children, .. } => all_take_same_levels(children, count),
        ExtenderPlan::Or(children) => {
            if !all_take_same_levels(children, count) {
                return false;
            }
            let ghost views = compile::plan_views(children@);
            proof {
                compile::lemma_plan_views(children@);
            }
            let mut i: usize = 0;
            while i < children.len()
                invariant
                    i <= children@.len() == views.len(),
                    plan@ == PlanView::Or(views),
                    forall|j: int|
                        0 <= j < children@.len() ==> #[trigger] views[j] == children@[j]@,
                    forall|j: int|
                        0 <= j < i ==> same_first_levels(
                            #[trigger] views[j],
                            views[0],
                            count as int,
                        ),
                decreases children@.len() - i,
            {
                assert(views[i as int] == children@[i as int]@ && views[0] == children@[0]@);
                if !take_same_levels(&children[i], &children[0], count) {
                    assert(!as_the_first(views, count as int));
                    return false;
                }
                i += 1;
            }
            assert(as_the_first(views, count as int));
            true
        },
        _ => true,
    }
}

/// The same of extenders.
pub fn all_take_same_levels(plans: &Vec<ExtenderPlan>, count: usize) -> (r: bool)
    ensures
        r == all_agreeing(compile::plan_views(plans@), count as int),
    decreases plans@, 0int,
{
    let ghost views = compile::plan_views(plans@);
    proof {
        compile::lemma_plan_views(plans@);
    }
    let mut i: usize = 0;
    while i < plans.len()
        invariant
            i <= plans@.len() == views.len(),
            views == compile::plan_views(plans@),
            forall|j: int| 0 <= j < plans@.len() ==> #[trigger] views[j] == plans@[j]@,
            forall|j: int| 0 <= j < i ==> agreeing(#[trigger] views[j], count as int),
        decreases plans@.len() - i,
    {
        assert(views[i as int] == plans@[i as int]@);
        if !branches_take_same_levels(&plans[i], count) {
            return false;
        }
        i += 1;
    }
    true
}

/// The level of a variable is a place in the order.
proof fn lemma_level(order: Seq<Name>, v: Name)
    requires
        order.len() <= usize::MAX,
    ensures
        compile::level_of(order, v) matches Some(l) ==> l < order.len(),
{
    if order.contains(v) {
        let l = order.index_of(v);
        assert(0 <= l < order.len());
    }
}

/// The levels of variables are places in the order.
proof fn lemma_levels(order: Seq<Name>, names: Seq<Name>)
    requires
        order.len() <= usize::MAX,
    ensures
        compile::levels_of(order, names) matches Some(found) ==> found.len() == names.len()
            && forall|i: int| 0 <= i < found.len() ==> (#[trigger] found[i]).1 < order.len(),
        all_below(compile::present_levels(order, names), order.len() as int),
    decreases names.len(),
{
    if names.len() > 0 {
        lemma_levels(order, names.drop_last());
        lemma_level(order, names.last());
    }
}

/// A compiled pattern is well formed.
proof fn lemma_pattern_formed(p: PatternView, order: Seq<Name>, attribute: i64)
    requires
        variable::unique(order),
        order.len() <= usize::MAX,
    ensures
        compile::pattern_plan(p, order, attribute) matches Ok(plan) ==> formed(
            plan,
            order.len() as int,
        ),
{
    if compile::pattern_indexes(p, order) is Ok {
        compile::lemma_pattern_levels(p, order);
        lemma_levels(order, convert::pattern_names(p));
        assert(all_below(compile::pattern_levels(p, order), order.len() as int));
    }
}

/// A compiled clause is well formed.
pub proof fn lemma_clause_formed(
    clause: WhereClause,
    order: Seq<Name>,
    idents: Seq<(Keyword, i64)>,
)
    requires
        variable::unique(order),
        order.len() <= usize::MAX,
        compile::compilable(clause, order.len() as int),
    ensures
        compile::clause_plan(clause, order, idents) matches Ok(plan) ==> formed(
            plan,
            order.len() as int,
        ),
    decreases clause, 3int,
{
    match clause {
        WhereClause::Pattern(p) => {
            if let Ok(attribute) = convert::resolved(p.attribute@, idents) {
                lemma_pattern_formed(p@, order, attribute);
            }
        },
        WhereClause::OrJoin(or) => {
            lemma_branches_formed(or.clauses@, order, idents);
        },
        WhereClause::NotJoin(not) => {
            lemma_clauses_formed(not.clauses@, order, idents);
            if let Ok(children) = compile::clause_plans(not.clauses@, order, idents) {
                lemma_negation_level(children, order.len() as int);
            }
        },
        WhereClause::Pred(p) => {
            if let Ok(e) = convert::converted(p.expr) {
                let names = crate::expr::variables_of(e);
                lemma_levels(order, names);
                if names.len() > 0 {
                    if let Some(found) = compile::levels_of(order, names) {
                        compile::lemma_highest(found);
                    }
                }
            }
        },
        WhereClause::WhereFn(f) => {
            if let Ok((_, output)) = convert::converted_fn(f) {
                lemma_level(order, output);
            }
        },
        _ => {},
    }
}

/// Compiled clauses are well formed.
pub proof fn lemma_clauses_formed(
    clauses: Seq<WhereClause>,
    order: Seq<Name>,
    idents: Seq<(Keyword, i64)>,
)
    requires
        variable::unique(order),
        order.len() <= usize::MAX,
        compile::compilable_all(clauses, order.len() as int),
    ensures
        compile::clause_plans(clauses, order, idents) matches Ok(plans) ==> plans.len()
            == clauses.len() && all_formed(plans, order.len() as int),
    decreases clauses, 0int,
{
    if clauses.len() > 0 {
        lemma_clauses_formed(clauses.drop_last(), order, idents);
        lemma_clause_formed(clauses.last(), order, idents);
    }
}

/// A compiled branch is well formed.
proof fn lemma_branch_formed(branch: OrWhereClause, order: Seq<Name>, idents: Seq<(Keyword, i64)>)
    requires
        variable::unique(order),
        order.len() <= usize::MAX,
        compile::compilable_branch(branch, order.len() as int),
    ensures
        compile::branch_plan(branch, order, idents) matches Ok(plan) ==> formed(
            plan,
            order.len() as int,
        ),
    decreases branch, 2int,
{
    match branch {
        OrWhereClause::Clause(c) => {
            lemma_clause_formed(c, order, idents);
        },
        OrWhereClause::And(cs) => {
            lemma_clauses_formed(cs@, order, idents);
        },
    }
}

/// Compiled branches are well formed.
proof fn lemma_branches_formed(
    branches: Seq<OrWhereClause>,
    order: Seq<Name>,
    idents: Seq<(Keyword, i64)>,
)
    requires
        variable::unique(order),
        order.len() <= usize::MAX,
        compile::compilable_branches(branches, order.len() as int),
    ensures
        compile::branch_plans(branches, order, idents) matches Ok(plans) ==> plans.len()
            == branches.len() && all_formed(plans, order.len() as int),
    decreases branches, 0int,
{
    if branches.len() > 0 {
        lemma_branches_formed(branches.drop_last(), order, idents);
        lemma_branch_formed(branches.last(), order, idents);
    }
}

/// The extender of an input is well formed.
pub proof fn lemma_input_formed(
    bindings: Seq<Binding>,
    args: Seq<QueryArg>,
    i: int,
    clauses: Seq<WhereClause>,
)
    requires
        0 <= i < bindings.len(),
        lower::binds(bindings[i], args[i]),
        convert::variable_order(bindings, clauses).len() <= usize::MAX,
    ensures
        formed(
            compile::input_plan(bindings[i], args[i], convert::variable_order(bindings, clauses)),
            convert::variable_order(bindings, clauses).len() as int,
        ),
{
    let order = convert::variable_order(bindings, clauses);
    let v = convert::binding_names(bindings[i])[0];
    assert(convert::binding_names(bindings[i]).len() == 1);
    assert(convert::binding_names(bindings[i]).contains(v));
    compile::lemma_binding_names(bindings, i, v);
    convert::law_variable_order_unique(bindings, clauses);
    assert(order.contains(v));
    lemma_level(order, v);
}

} // verus!
