//! Which queries are valid.

use vstd::prelude::*;

use crate::expr::{self, ExprView};
use crate::query::ast::{
    Binding, Element, FindSpec, FnArg, Limit, OrWhereClause, Order, ParsedQuery,
    PatternNonValuePlace, PatternValuePlace, QueryArg, WhereClause,
};
use crate::query::convert;
use crate::query::execute;
use crate::query::find::{self, AggregateFunc};
use crate::query::find_laws;
use crate::query::order_laws;
use crate::query::validation::{self, validate_query, Fault};
use crate::value::DataType;
use crate::variable::{self, Name};

verus! {

/// Whether an argument is of the kind that an input asks for: one value, or several.
pub open spec fn fits(binding: Binding, argument: QueryArg) -> bool {
    (binding is BindScalar && argument is Scalar) || (binding is BindColl && argument is Collection)
}

/// Whether there is one fitting argument for each input.
pub open spec fn all_fit(bindings: Seq<Binding>, args: Seq<QueryArg>) -> bool {
    bindings.len() == args.len() && forall|i: int|
        0 <= i < args.len() ==> fits(#[trigger] bindings[i], args[i])
}

/// Whether a clause is a pattern that leaves neither its entity nor its value open.
pub open spec fn closed_pattern(clause: WhereClause) -> bool {
    clause matches WhereClause::Pattern(p) && p.entity != PatternNonValuePlace::Placeholder
        && p.value != PatternValuePlace::Placeholder
}

/// Whether all variables of an expression are bound.
pub open spec fn reads_bound(e: ExprView, bound: Seq<Name>) -> bool {
    forall|x: Name| #[trigger] expr::occurrences(e).contains(x) ==> bound.contains(x)
}

/// Whether a clause is fine where variables are bound: a closed pattern, or a condition or function
/// that can be had and reads only these.
pub open spec fn fine(clause: WhereClause, bound: Seq<Name>) -> bool {
    match clause {
        WhereClause::Pattern(_) => closed_pattern(clause),
        WhereClause::Pred(p) => convert::converted(p.expr) matches Ok(e) && reads_bound(e, bound),
        WhereClause::WhereFn(f) => convert::converted_fn(f) matches Ok(made) && reads_bound(
            made.0,
            bound,
        ),
        _ => false,
    }
}

/// Where the variables of an expression are bound, it has no fault.
proof fn lemma_reads_bound(e: ExprView, bound: Seq<Name>)
    requires
        reads_bound(e, bound),
    ensures
        validation::names_fault(expr::variables_of(e), bound) is None,
{
    let names = expr::variables_of(e);
    expr::lemma_with_new(Seq::<Name>::empty(), expr::occurrences(e));
    assert forall|i: int| 0 <= i < names.len() implies bound.contains(#[trigger] names[i]) by {
        assert(names.contains(names[i]));
        assert(expr::occurrences(e).contains(names[i]));
    }
    variable::lemma_none_missing(names, bound);
}

/// Whether a variable is one of those that a find clause asks for.
pub open spec fn asked_for(elements: Seq<Element>, name: Name) -> bool {
    exists|k: int| 0 <= k < elements.len() && order_laws::asks_for(#[trigger] elements[k], name)
}

/// Whether a limit is a number, is missing, or is a variable that the first input of that name binds
/// to a number that is not negative.
pub open spec fn limit_known(limit: Limit, bindings: Seq<Binding>, args: Seq<QueryArg>) -> bool {
    limit matches Limit::Variable(v) ==> exists|i: int|
        0 <= i < args.len() && find_laws::binds(#[trigger] bindings[i], v.name@) && (forall|j: int|
            0 <= j < i ==> !find_laws::binds(#[trigger] bindings[j], v.name@)) && (
        args[i] matches QueryArg::Scalar(DataType::Long(n)) && n >= 0)
}

/// Whether all variables to sort by are asked for.
pub open spec fn order_known(order: Option<Vec<Order>>, elements: Seq<Element>) -> bool {
    order matches Some(orders) ==> forall|i: int|
        0 <= i < orders@.len() ==> asked_for(elements, (#[trigger] orders@[i]).variable.name@)
}

/// The fault of inputs.
proof fn lemma_kinds(bindings: Seq<Binding>, args: Seq<QueryArg>, n: nat)
    ensures
        validation::kinds_fault(bindings, args, n) is None == (forall|i: int|
            0 <= i < n ==> fits(#[trigger] bindings[i], args[i])),
    decreases n,
{
    if n > 0 {
        lemma_kinds(bindings, args, (n - 1) as nat);
        if validation::kinds_fault(bindings, args, n) is None {
            assert(fits(bindings[n - 1], args[n - 1]));
        }
        if forall|i: int| 0 <= i < n ==> fits(#[trigger] bindings[i], args[i]) {
            assert(fits(bindings[n - 1], args[n - 1]));
        }
    }
}

/// The first input of a variable.
proof fn lemma_scalar_input(bindings: Seq<Binding>, name: Name)
    ensures
        match find::scalar_input(bindings, name) {
            Some(i) => 0 <= i < bindings.len() && find_laws::binds(bindings[i], name) && forall|
                j: int,
            |
                0 <= j < i ==> !find_laws::binds(#[trigger] bindings[j], name),
            None => forall|j: int|
                0 <= j < bindings.len() ==> !find_laws::binds(#[trigger] bindings[j], name),
        },
    decreases bindings.len(),
{
    if bindings.len() > 0 {
        let front = bindings.drop_last();
        lemma_scalar_input(front, name);
        assert forall|j: int| 0 <= j < front.len() implies front[j] == #[trigger] bindings[j] by {}
    }
}

/// The fault of a limit.
proof fn lemma_limit(limit: Limit, bindings: Seq<Binding>, args: Seq<QueryArg>)
    requires
        bindings.len() == args.len(),
    ensures
        validation::limit_fault(limit, bindings, args) is None == limit_known(
            limit,
            bindings,
            args,
        ),
{
    if let Limit::Variable(v) = limit {
        lemma_scalar_input(bindings, v.name@);
        if limit_known(limit, bindings, args) {
            let i = choose|i: int|
                0 <= i < args.len() && find_laws::binds(#[trigger] bindings[i], v.name@) && (forall|
                    j: int,
                |
                    0 <= j < i ==> !find_laws::binds(#[trigger] bindings[j], v.name@)) && (
                args[i] matches QueryArg::Scalar(DataType::Long(n)) && n >= 0);
            let k = find::scalar_input(bindings, v.name@);
            assert(k is Some);
            if k.unwrap() < i {
                assert(!find_laws::binds(bindings[k.unwrap()], v.name@));
            }
            if i < k.unwrap() {
                assert(!find_laws::binds(bindings[i], v.name@));
            }
        }
        if validation::limit_fault(limit, bindings, args) is None {
            let i = find::scalar_input(bindings, v.name@).unwrap();
            assert(find_laws::binds(bindings[i], v.name@));
        }
    }
}

/// The fault of an order.
proof fn lemma_order(orders: Seq<Order>, elements: Seq<Element>)
    requires
        elements.len() <= usize::MAX,
    ensures
        validation::order_fault(orders, elements) is None == (forall|i: int|
            0 <= i < orders.len() ==> asked_for(elements, (#[trigger] orders[i]).variable.name@)),
    decreases orders.len(),
{
    if orders.len() > 0 {
        let front = orders.drop_last();
        let name = orders.last().variable.name@;
        lemma_order(front, elements);
        order_laws::lemma_find_position(elements, name);
        assert forall|i: int| 0 <= i < front.len() implies front[i] == #[trigger] orders[i] by {}
        assert(orders[orders.len() - 1] == orders.last());
        if find::find_position(elements, name) is Some {
            assert(asked_for(elements, name));
        }
        if validation::order_fault(orders, elements) is None {
            assert forall|i: int| 0 <= i < orders.len() implies asked_for(
                elements,
                (#[trigger] orders[i]).variable.name@,
            ) by {
                if i < front.len() {
                    assert(asked_for(elements, front[i].variable.name@));
                }
            }
        }
        if forall|i: int|
            0 <= i < orders.len() ==> asked_for(elements, (#[trigger] orders[i]).variable.name@) {
            assert forall|i: int| 0 <= i < front.len() implies asked_for(
                elements,
                (#[trigger] front[i]).variable.name@,
            ) by {
                assert(asked_for(elements, orders[i].variable.name@));
            }
            assert(asked_for(elements, orders[orders.len() - 1].variable.name@));
        }
    }
}

/// Fine clauses have no fault.
proof fn lemma_fine(clauses: Seq<WhereClause>, levels: int, bound: Seq<Name>)
    requires
        forall|i: int| 0 <= i < clauses.len() ==> fine(#[trigger] clauses[i], bound),
    ensures
        validation::clauses_fault(clauses, levels, bound) is None,
    decreases clauses.len(),
{
    reveal_with_fuel(validation::clauses_fault, 2);
    reveal_with_fuel(validation::clause_fault, 2);
    if clauses.len() > 0 {
        let front = clauses.drop_last();
        assert forall|i: int| 0 <= i < front.len() implies fine(
            #[trigger] front[i],
            bound,
        ) by {
            assert(front[i] == clauses[i]);
        }
        lemma_fine(front, levels, bound);
        assert(fine(clauses[clauses.len() - 1], bound));
        match clauses.last() {
            WhereClause::Pred(p) => {
                lemma_reads_bound(convert::converted(p.expr)->Ok_0, bound);
            },
            WhereClause::WhereFn(f) => {
                lemma_reads_bound(convert::converted_fn(f)->Ok_0.0, bound);
            },
            _ => {},
        }
    }
}

/// A pattern among valid clauses is closed.
proof fn lemma_valid_pattern(clauses: Seq<WhereClause>, levels: int, bound: Seq<Name>, i: int)
    requires
        validation::clauses_fault(clauses, levels, bound) is None,
        0 <= i < clauses.len(),
    ensures
        clauses[i] is Pattern ==> closed_pattern(clauses[i]),
    decreases clauses.len(),
{
    reveal_with_fuel(validation::clauses_fault, 2);
    reveal_with_fuel(validation::clause_fault, 2);
    if i < clauses.len() - 1 {
        lemma_valid_pattern(clauses.drop_last(), levels, bound, i);
    }
}

/// Variables that are known can be asked for.
proof fn lemma_known_elements(elements: Seq<Element>, order: Seq<Name>)
    requires
        forall|c: int|
            0 <= c < elements.len() ==> ((#[trigger] elements[c]) matches Element::Variable(v)
                && order.contains(v.name@)),
    ensures
        find::elements_plan(elements, order) is Ok,
    decreases elements.len(),
{
    if elements.len() > 0 {
        let front = elements.drop_last();
        assert forall|c: int| 0 <= c < front.len() implies ((
        #[trigger] front[c]) matches Element::Variable(v) && order.contains(v.name@)) by {
            assert(front[c] == elements[c]);
        }
        lemma_known_elements(front, order);
        assert(elements[elements.len() - 1] is Variable);
    }
}

/// A query of closed patterns, and of conditions and functions that read its own variables, that
/// asks for variables of its own, sorts by some of these, has a
/// known limit and is given fitting arguments is valid.
pub proof fn law_fine_queries_are_valid(
    query: ParsedQuery,
    args: &[QueryArg],
    elements: Vec<Element>,
    r: Result<(), Fault>,
)
    requires
        call_ensures(validate_query, (&query, args), r),
        all_fit(query.in_bindings@, args@),
        limit_known(query.limit, query.in_bindings@, args@),
        forall|i: int|
            0 <= i < query.where_clauses@.len() ==> fine(
                #[trigger] query.where_clauses@[i],
                execute::variables(query),
            ),
        query.find_spec == FindSpec::FindRel(elements),
        elements@.len() <= usize::MAX,
        forall|c: int|
            0 <= c < elements@.len() ==> ((#[trigger] elements@[c]) matches Element::Variable(v)
                && execute::variables(query).contains(v.name@)),
        order_known(query.order, elements@),
    ensures
        r is Ok,
{
    let order = execute::variables(query);
    lemma_kinds(query.in_bindings@, args@, args@.len());
    lemma_limit(query.limit, query.in_bindings@, args@);
    lemma_fine(query.where_clauses@, order.len() as int, order);
    lemma_known_elements(elements@, order);
    if let Some(orders) = query.order {
        lemma_order(orders@, elements@);
    }
}

/// A valid query has a fitting argument for each input, a known limit, no pattern that leaves its
/// entity or its value open, asks only for variables of its own, and sorts only by what it asks for.
pub proof fn law_valid_queries_are_sound(
    query: ParsedQuery,
    args: &[QueryArg],
    elements: Vec<Element>,
    r: Result<(), Fault>,
    i: int,
    c: int,
)
    requires
        call_ensures(validate_query, (&query, args), r),
        r is Ok,
        query.find_spec == FindSpec::FindRel(elements),
        elements@.len() <= usize::MAX,
        execute::variables(query).len() <= usize::MAX,
        0 <= i < query.where_clauses@.len(),
        0 <= c < elements@.len(),
    ensures
        all_fit(query.in_bindings@, args@),
        limit_known(query.limit, query.in_bindings@, args@),
        query.where_clauses@[i] is Pattern ==> closed_pattern(query.where_clauses@[i]),
        elements@[c] matches Element::Variable(v) ==> execute::variables(query).contains(v.name@),
        order_known(query.order, elements@),
{
    let order = execute::variables(query);
    lemma_kinds(query.in_bindings@, args@, args@.len());
    lemma_limit(query.limit, query.in_bindings@, args@);
    lemma_valid_pattern(query.where_clauses@, order.len() as int, order, i);
    find_laws::lemma_columns_of(elements@, order);
    let p = find::elements_plan(elements@, order)->Ok_0;
    assert(find_laws::column_of(elements@[c], p.columns[c], p.keys, order));
    if let Some(orders) = query.order {
        lemma_order(orders@, elements@);
    }
}

/// Whether a clause is sound in a query with so many variables, of which these are bound: a fine
/// pattern, condition or function; a disjunction with branches that are all sound and bring in the
/// same variables; or a negation of sound clauses. Inside a branch or a negation its own variables are
/// bound too.
pub open spec fn sound(clause: WhereClause, levels: int, bound: Seq<Name>) -> bool
    decreases clause, 3int,
{
    match clause {
        WhereClause::OrJoin(or) => {
            &&& or.clauses@.len() > 0
            &&& all_branches_sound(or.clauses@, levels, bound)
            &&& forall|i: int, x: Name|
                0 <= i < or.clauses@.len() ==> #[trigger] convert::branch_names(
                    or.clauses@[i],
                ).contains(x) == convert::branch_names(or.clauses@[0]).contains(x)
        },
        WhereClause::NotJoin(not) => levels != 0 && all_sound(
            not.clauses@,
            levels,
            expr::with_new(bound, convert::all_clause_names(not.clauses@)),
        ),
        _ => fine(clause, bound),
    }
}

/// Whether all clauses are sound.
pub open spec fn all_sound(clauses: Seq<WhereClause>, levels: int, bound: Seq<Name>) -> bool
    decreases clauses, 0int,
{
    forall|i: int| 0 <= i < clauses.len() ==> sound(#[trigger] clauses[i], levels, bound)
}

/// Whether a branch is sound.
pub open spec fn branch_sound(branch: OrWhereClause, levels: int, bound: Seq<Name>) -> bool
    decreases branch, 2int,
{
    let inside = expr::with_new(bound, convert::branch_names(branch));
    match branch {
        OrWhereClause::Clause(c) => sound(c, levels, inside),
        OrWhereClause::And(cs) => cs@.len() > 0 && all_sound(cs@, levels, inside),
    }
}

/// Whether all branches are sound.
pub open spec fn all_branches_sound(
    branches: Seq<OrWhereClause>,
    levels: int,
    bound: Seq<Name>,
) -> bool
    decreases branches, 0int,
{
    forall|i: int| 0 <= i < branches.len() ==> branch_sound(#[trigger] branches[i], levels, bound)
}

/// The fault of an expression's variables.
proof fn lemma_names(e: ExprView, bound: Seq<Name>)
    ensures
        validation::names_fault(expr::variables_of(e), bound) is None == reads_bound(e, bound),
{
    let names = expr::variables_of(e);
    expr::lemma_with_new(Seq::<Name>::empty(), expr::occurrences(e));
    variable::lemma_none_missing(names, bound);
    if validation::names_fault(names, bound) is None {
        assert forall|x: Name| #[trigger] expr::occurrences(e).contains(x) implies bound.contains(
            x,
        ) by {
            assert(names.contains(x));
            let i = names.index_of(x);
            assert(bound.contains(names[i]));
        }
    }
    if reads_bound(e, bound) {
        lemma_reads_bound(e, bound);
    }
}

/// A clause has no fault exactly if it is sound.
proof fn lemma_sound(clause: WhereClause, levels: int, bound: Seq<Name>)
    ensures
        validation::clause_fault(clause, levels, bound) is None == sound(clause, levels, bound),
    decreases clause, 3int,
{
    match clause {
        WhereClause::Pred(p) => {
            if let Ok(e) = convert::converted(p.expr) {
                lemma_names(e, bound);
            }
        },
        WhereClause::WhereFn(f) => {
            if let Ok(made) = convert::converted_fn(f) {
                lemma_names(made.0, bound);
            }
        },
        WhereClause::OrJoin(or) => {
            let branches = or.clauses@;
            lemma_branches_sound(branches, levels, bound);
            if validation::branches_agree(branches) {
                assert forall|i: int, x: Name|
                    0 <= i < branches.len() implies #[trigger] convert::branch_names(
                    branches[i],
                ).contains(x) == convert::branch_names(branches[0]).contains(x) by {
                    assert(validation::same_names(
                        convert::branch_names(branches[i]),
                        convert::branch_names(branches[0]),
                    ));
                }
            }
            if forall|i: int, x: Name|
                0 <= i < branches.len() ==> #[trigger] convert::branch_names(branches[i]).contains(
                    x,
                ) == convert::branch_names(branches[0]).contains(x) {
                assert forall|i: int| 0 <= i < branches.len() implies validation::same_names(
                    #[trigger] convert::branch_names(branches[i]),
                    convert::branch_names(branches[0]),
                ) by {}
            }
        },
        WhereClause::NotJoin(not) => {
            lemma_all_sound(
                not.clauses@,
                levels,
                expr::with_new(bound, convert::all_clause_names(not.clauses@)),
            );
        },
        _ => {},
    }
}

/// Clauses have no fault exactly if all are sound.
proof fn lemma_all_sound(clauses: Seq<WhereClause>, levels: int, bound: Seq<Name>)
    ensures
        validation::clauses_fault(clauses, levels, bound) is None == all_sound(
            clauses,
            levels,
            bound,
        ),
    decreases clauses, 0int,
{
    if clauses.len() > 0 {
        let front = clauses.drop_last();
        lemma_all_sound(front, levels, bound);
        lemma_sound(clauses.last(), levels, bound);
        assert(clauses[clauses.len() - 1] == clauses.last());
        assert forall|i: int| 0 <= i < front.len() implies front[i] == #[trigger] clauses[i] by {}
        if all_sound(clauses, levels, bound) {
            assert forall|i: int| 0 <= i < front.len() implies sound(
                #[trigger] front[i],
                levels,
                bound,
            ) by {
                assert(sound(clauses[i], levels, bound));
            }
            assert(sound(clauses[clauses.len() - 1], levels, bound));
        }
        if all_sound(front, levels, bound) && sound(clauses.last(), levels, bound) {
            assert forall|i: int| 0 <= i < clauses.len() implies sound(
                #[trigger] clauses[i],
                levels,
                bound,
            ) by {
                if i < front.len() {
                    assert(sound(front[i], levels, bound));
                }
            }
        }
    }
}

/// A branch has no fault exactly if it is sound.
proof fn lemma_branch_sound(branch: OrWhereClause, levels: int, bound: Seq<Name>)
    ensures
        validation::branch_fault(branch, levels, bound) is None == branch_sound(
            branch,
            levels,
            bound,
        ),
    decreases branch, 2int,
{
    let inside = expr::with_new(bound, convert::branch_names(branch));
    match branch {
        OrWhereClause::Clause(c) => {
            lemma_sound(c, levels, inside);
        },
        OrWhereClause::And(cs) => {
            lemma_all_sound(cs@, levels, inside);
        },
    }
}

/// Branches have no fault exactly if all are sound.
proof fn lemma_branches_sound(branches: Seq<OrWhereClause>, levels: int, bound: Seq<Name>)
    ensures
        validation::branches_fault(branches, levels, bound) is None == all_branches_sound(
            branches,
            levels,
            bound,
        ),
    decreases branches, 0int,
{
    if branches.len() > 0 {
        let front = branches.drop_last();
        lemma_branches_sound(front, levels, bound);
        lemma_branch_sound(branches.last(), levels, bound);
        assert(branches[branches.len() - 1] == branches.last());
        assert forall|i: int| 0 <= i < front.len() implies front[i] == #[trigger] branches[i] by {}
        if all_branches_sound(branches, levels, bound) {
            assert forall|i: int| 0 <= i < front.len() implies branch_sound(
                #[trigger] front[i],
                levels,
                bound,
            ) by {
                assert(branch_sound(branches[i], levels, bound));
            }
            assert(branch_sound(branches[branches.len() - 1], levels, bound));
        }
        if all_branches_sound(front, levels, bound) && branch_sound(
            branches.last(),
            levels,
            bound,
        ) {
            assert forall|i: int| 0 <= i < branches.len() implies branch_sound(
                #[trigger] branches[i],
                levels,
                bound,
            ) by {
                if i < front.len() {
                    assert(branch_sound(front[i], levels, bound));
                }
            }
        }
    }
}

/// Whether an element of a find clause can be had: a known variable, or a known aggregate of one.
pub open spec fn element_known(element: Element, order: Seq<Name>) -> bool {
    match element {
        Element::Variable(v) => order.contains(v.name@),
        Element::Aggregate(a) => a.args@.len() == 1 && (a.args@[0] matches FnArg::Variable(v)
            && order.contains(v.name@)) && (exists|f: AggregateFunc| #[trigger]
            find_laws::named(f, a.func@)),
        _ => false,
    }
}

/// Which find clauses have a plan.
proof fn lemma_elements(elements: Seq<Element>, order: Seq<Name>)
    ensures
        find::elements_plan(elements, order) is Ok == (forall|c: int|
            0 <= c < elements.len() ==> element_known(#[trigger] elements[c], order)),
    decreases elements.len(),
{
    if elements.len() > 0 {
        let front = elements.drop_last();
        lemma_elements(front, order);
        assert(elements[elements.len() - 1] == elements.last());
        assert forall|c: int| 0 <= c < front.len() implies front[c] == #[trigger] elements[c] by {}
        if let Element::Aggregate(a) = elements.last() {
            lemma_named(a.func@);
        }
        if forall|c: int| 0 <= c < elements.len() ==> element_known(#[trigger] elements[c], order) {
            assert forall|c: int| 0 <= c < front.len() implies element_known(
                #[trigger] front[c],
                order,
            ) by {
                assert(element_known(elements[c], order));
            }
            assert(element_known(elements[elements.len() - 1], order));
        }
        if find::elements_plan(elements, order) is Ok {
            assert forall|c: int| 0 <= c < elements.len() implies element_known(
                #[trigger] elements[c],
                order,
            ) by {
                if c < front.len() {
                    assert(element_known(front[c], order));
                }
            }
        }
    }
}

/// Which names are those of aggregates.
proof fn lemma_named(name: Seq<char>)
    ensures
        find::aggregate_func(name) is Some == exists|f: AggregateFunc| #[trigger]
            find_laws::named(f, name),
{
    if find::aggregate_func(name) is Some {
        assert(find_laws::named(find::aggregate_func(name).unwrap(), name));
    }
    if exists|f: AggregateFunc| #[trigger] find_laws::named(f, name) {
        let f = choose|f: AggregateFunc| #[trigger] find_laws::named(f, name);
        assert(find::aggregate_func(name) is Some);
    }
}

/// A query for a relation is valid exactly if it is given a fitting argument for each input, its
/// limit is known, all its clauses are sound, and all that it asks for and sorts by is known.
pub proof fn law_validity(
    query: ParsedQuery,
    args: &[QueryArg],
    elements: Vec<Element>,
    r: Result<(), Fault>,
)
    requires
        call_ensures(validate_query, (&query, args), r),
        query.find_spec == FindSpec::FindRel(elements),
        elements@.len() <= usize::MAX,
    ensures
        r is Ok == {
            let order = execute::variables(query);
            &&& all_fit(query.in_bindings@, args@)
            &&& limit_known(query.limit, query.in_bindings@, args@)
            &&& all_sound(query.where_clauses@, order.len() as int, order)
            &&& forall|c: int|
                0 <= c < elements@.len() ==> element_known(#[trigger] elements@[c], order)
            &&& order_known(query.order, elements@)
        },
{
    let order = execute::variables(query);
    lemma_kinds(query.in_bindings@, args@, args@.len());
    if query.in_bindings@.len() == args@.len() {
        lemma_limit(query.limit, query.in_bindings@, args@);
    }
    lemma_all_sound(query.where_clauses@, order.len() as int, order);
    lemma_elements(elements@, order);
    if let Some(orders) = query.order {
        lemma_order(orders@, elements@);
    }
}

} // verus!
