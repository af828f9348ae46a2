//! Running a query over stored keys.

use vstd::prelude::*;

use crate::algo::generic_join::{self, GenericJoin};
use crate::byte_string::Row;
use crate::error::Error;
use crate::expr::Expr;
use crate::iterator::generic_fn_prefix_extender;
use crate::iterator::generic_predicate_prefix_extender;
use crate::iterator::stored_pattern;
use crate::query::ast::{ParsedQuery, QueryArg};
use crate::query::compile::{self, compile_query, ExtenderPlan, PlanView};
use crate::query::convert;
use crate::query::extend::{self, build_all};
use crate::query::find::{self, complete_query, AggregateFunc, QueryResult};
use crate::query::levels::{self, all_take_same_levels};
use crate::query::lower;
use crate::query::meaning::{self, Setting};
use crate::query::reach::{self, add_all_starts};
use crate::query::validation::{self, validate_query, Fault, FaultView};
use crate::value::{DataType, Keyword};
use crate::variable::{Name, Variable};

verus! {

/// The variables of a query.
pub open spec fn variables(query: ParsedQuery) -> Seq<Name> {
    convert::variable_order(query.in_bindings@, query.where_clauses@)
}

/// The extenders of a query: those of its inputs, then those of its clauses.
pub open spec fn query_plans(
    query: ParsedQuery,
    args: Seq<QueryArg>,
    idents: Seq<(Keyword, i64)>,
) -> Result<Seq<PlanView>, FaultView> {
    match validation::query_fault(query, args) {
        Some(fault) => Err(fault),
        None => match compile::clause_plans(query.where_clauses@, variables(query), idents) {
            Err(cause) => Err(FaultView::Refused(cause)),
            Ok(rest) => {
                let plans = Seq::new(
                    args.len(),
                    |i: int| compile::input_plan(query.in_bindings@[i], args[i], variables(query)),
                ) + rest;
                if levels::all_agreeing(plans, variables(query).len() as int) {
                    Ok(plans)
                } else {
                    Err(FaultView::BranchLevels)
                }
            },
        },
    }
}

/// Whether tuples are those that satisfy all the extenders, each once, in lexicographic order.
pub open spec fn joined<
    H: Fn(&Expr, &Vec<Variable>, &Vec<DataType>) -> bool,
    E: Fn(&Expr, &Vec<Variable>, &Vec<DataType>) -> Option<DataType>,
>(setting: Setting<H, E>, plans: Seq<PlanView>, width: int, tuples: Seq<Row>) -> bool {
    &&& generic_join::rows_ascending(tuples)
    &&& forall|t: Row| #[trigger]
        tuples.contains(t) == (t.len() == width && setting.satisfies(plans, t))
}

/// Whether the values of every level can be found.
pub open spec fn searchable<
    H: Fn(&Expr, &Vec<Variable>, &Vec<DataType>) -> bool,
    E: Fn(&Expr, &Vec<Variable>, &Vec<DataType>) -> Option<DataType>,
>(setting: Setting<H, E>, plans: Seq<PlanView>, width: int) -> bool {
    forall|p: Row|
        p.len() < width && setting.satisfies(plans, p) ==> #[trigger] setting.resolvable(plans, p)
}

/// The extenders of a query.
fn plan_query(query: &ParsedQuery, args: &[QueryArg], idents: &[(Keyword, i64)]) -> (r: Result<
    (Vec<Variable>, Vec<ExtenderPlan>),
    Fault,
>)
    ensures
        match r {
            Ok((order, plans)) => order.deep_view() == variables(*query) && query_plans(
                *query,
                args@,
                idents@,
            ) == Ok::<Seq<PlanView>, FaultView>(compile::plan_views(plans@)),
            Err(fault) => query_plans(*query, args@, idents@) == Err::<Seq<PlanView>, FaultView>(
                fault@,
            ),
        },
{
    if let Err(fault) = validate_query(query, args) {
        return Err(fault);
    }
    proof {
        validation::law_valid_queries_run(*query, args@);
    }
    let (order, plans) = match compile_query(query, args, idents) {
        Ok(compiled) => compiled,
        Err(cause) => {
            return Err(Fault::Refused { cause });
        },
    };
    proof {
        assert(order.deep_view().len() == order@.len());
        assert(vstd::math::min(query.in_bindings@.len() as int, args@.len() as int)
            == args@.len());
    }
    if !all_take_same_levels(&plans, order.len()) {
        return Err(Fault::BranchLevels);
    }
    Ok((order, plans))
}

/// What the keys begin with that a query can reach.
pub fn stored_starts(
    query: &ParsedQuery,
    args: &[QueryArg],
    idents: &[(Keyword, i64)],
) -> (r: Result<Vec<Vec<u8>>, Fault>)
    ensures
        match r {
            Ok(list) => query_plans(*query, args@, idents@) matches Ok(plans) && list.deep_view()
                == reach::all_starts(plans),
            Err(fault) => query_plans(*query, args@, idents@) == Err::<Seq<PlanView>, FaultView>(
                fault@,
            ),
        },
{
    let (_, plans) = match plan_query(query, args, idents) {
        Ok(planned) => planned,
        Err(fault) => {
            return Err(fault);
        },
    };
    let mut out: Vec<Vec<u8>> = Vec::new();
    assert(out.deep_view() =~= Seq::<Seq<u8>>::empty());
    add_all_starts(&plans, &mut out);
    assert(out.deep_view() =~= reach::all_starts(compile::plan_views(plans@)));
    Ok(out)
}

/// The extenders of a query are well formed, and the branches of its disjunctions take part in the
/// same levels.
pub proof fn law_query_plans_are_formed(
    query: ParsedQuery,
    args: Seq<QueryArg>,
    idents: Seq<(Keyword, i64)>,
)
    requires
        variables(query).len() <= usize::MAX,
    ensures
        query_plans(query, args, idents) matches Ok(plans) ==> levels::all_formed(
            plans,
            variables(query).len() as int,
        ) && levels::all_agreeing(plans, variables(query).len() as int),
{
    if let Ok(plans) = query_plans(query, args, idents) {
        let order = variables(query);
        let count = order.len() as int;
        validation::law_valid_queries_run(query, args);
        convert::law_variable_order_unique(query.in_bindings@, query.where_clauses@);
        levels::lemma_clauses_formed(query.where_clauses@, order, idents);
        let rest = compile::clause_plans(query.where_clauses@, order, idents)->Ok_0;
        assert forall|i: int| 0 <= i < plans.len() implies levels::formed(
            #[trigger] plans[i],
            count,
        ) by {
            if i < args.len() {
                assert(lower::binds(query.in_bindings@[i], args[i]));
                levels::lemma_input_formed(query.in_bindings@, args, i, query.where_clauses@);
            } else {
                assert(plans[i] == rest[i - args.len()]);
            }
        }
    }
}

/// The rows of a query over the keys of the indexes, as of a transaction. `holds` and `compute`
/// evaluate conditions and functions, `fold` aggregates.
pub fn execute_query<
    H: Fn(&Expr, &Vec<Variable>, &Vec<DataType>) -> bool + Copy + 'static,
    E: Fn(&Expr, &Vec<Variable>, &Vec<DataType>) -> Option<DataType> + Copy + 'static,
    F: Fn(&AggregateFunc, &Vec<DataType>) -> Result<DataType, Error>,
>(
    query: &ParsedQuery,
    args: &[QueryArg],
    idents: &[(Keyword, i64)],
    keys: &Vec<Vec<u8>>,
    as_of: i64,
    holds: H,
    compute: E,
    fold: F,
) -> (r: Result<QueryResult, Fault>)
    requires
        stored_pattern::index_keys(keys.deep_view()),
        generic_predicate_prefix_extender::decides(holds),
        generic_fn_prefix_extender::determines(compute),
        forall|f: AggregateFunc, v: Vec<DataType>| #[trigger] call_requires(fold, (&f, &v)),
    ensures
        ({
            let setting = Setting { keys: keys.deep_view(), as_of, holds, compute };
            let width = variables(*query).len() as int;
            match query_plans(*query, args@, idents@) {
                Err(fault) => r matches Err(f) && f@ == fault,
                Ok(plans) => {
                    let columns = find::find_plan(query.find_spec, variables(*query))->Ok_0;
                    match r {
                        Ok(rows) => exists|tuples: Seq<Row>| #[trigger]
                            joined(setting, plans, width, tuples) && find::answers(
                                fold,
                                *query,
                                args@,
                                tuples,
                                columns,
                                rows@,
                            ),
                        Err(f) => f@ matches FaultView::Refused(cause) && ((!searchable(
                            setting,
                            plans,
                            width,
                        ) && meaning::search_error(cause)) || exists|tuples: Seq<Row>| #[trigger]
                            joined(setting, plans, width, tuples) && find::answer_fails(
                                fold,
                                *query,
                                args@,
                                tuples,
                                columns,
                                cause,
                            )),
                    }
                },
            }
        }),
{
    let ghost setting = Setting { keys: keys.deep_view(), as_of, holds, compute };
    let (order, plans) = match plan_query(query, args, idents) {
        Ok(planned) => planned,
        Err(fault) => {
            return Err(fault);
        },
    };
    let ghost views = compile::plan_views(plans@);
    let width: usize = order.len();
    proof {
        assert(order.deep_view().len() == order@.len());
        law_query_plans_are_formed(*query, args@, idents@);
        validation::law_valid_queries_run(*query, args@);
        convert::law_variable_order_unique(query.in_bindings@, query.where_clauses@);
    }
    let extenders = build_all(plans, keys, as_of, holds, compute, Ghost(width as int));
    proof {
        extend::lemma_all_inv(setting, views, extenders@);
    }
    let ghost built = extenders@;
    let join = GenericJoin::new(extenders, width);
    let tuples = match join.join() {
        Ok(tuples) => tuples,
        Err(cause) => {
            proof {
                if searchable(setting, views, width as int) {
                    assert forall|p: Row| p.len() < width && generic_join::satisfies(
                        built,
                        p,
                    ) implies #[trigger] generic_join::resolvable(built, p) by {
                        extend::lemma_satisfies(setting, views, built, p);
                        extend::lemma_resolvable(setting, views, built, p);
                        assert(setting.resolvable(views, p));
                    }
                }
            }
            proof {
                let p = choose|p: Row|
                    p.len() < width && generic_join::satisfies(built, p)
                        && #[trigger] generic_join::passes_on(built, p, cause@);
                extend::lemma_passed_on(setting, views, built, p, cause@);
            }
            return Err(Fault::Refused { cause });
        },
    };
    let ghost found = tuples.deep_view();
    proof {
        assert forall|t: Row| #[trigger] found.contains(t) == (t.len() == width as int
            && setting.satisfies(views, t)) by {
            extend::lemma_satisfies(setting, views, built, t);
        }
        assert(joined(setting, views, width as int, found));
        assert forall|i: int| 0 <= i < found.len() implies (#[trigger] found[i]).len()
            == width by {
            assert(found.contains(found[i]));
        }
    }
    match complete_query(query, args, &order, &tuples, fold) {
        Ok(rows) => Ok(rows),
        Err(cause) => Err(Fault::Refused { cause }),
    }
}

} // verus!
