//! Which queries can be run with which arguments.

use vstd::prelude::*;

use crate::error::{self, Error, ErrorView};
use crate::expr::{self, add_all_new, expr_variables};
use crate::query::ast::{
    self, unsupported_text, Binding, Element, FindSpec, Limit, Order, OrWhereClause, ParsedQuery,
    PatternNonValuePlace, PatternValuePlace, QueryArg, WhereClause,
};
use crate::query::compile;
use crate::query::convert::{
    self, collect_variables_from_clauses, collect_variables_from_or_branch, convert_predicate,
    convert_where_fn, query_variable_order,
};
use crate::query::find::{self, compile_find_plan, last_position};
use crate::query::lower;
use crate::text::{self, count_text, followed_by};
use crate::value::DataType;
use crate::variable::{self, Name, Variable};

verus! {

/// Why a query is refused.
#[derive(Debug)]
pub enum Fault {
    /// There are more or fewer arguments than inputs.
    ArgumentCount { bindings: usize, arguments: usize },
    /// An input takes another kind of argument.
    ArgumentKind { input: usize },
    /// No input binds the variable of the limit to a single value.
    LimitUnbound { variable: Variable },
    /// The variable of the limit is bound to something else than a whole number.
    LimitType { variable: Variable },
    /// The variable of the limit is bound to a negative number.
    LimitNegative { variable: Variable },
    /// The result is to be sorted by a variable that it lacks.
    OrderVariable { variable: Variable },
    /// An expression needs a variable that nothing binds.
    Unbound { variable: Variable },
    /// A pattern leaves its entity open.
    EntityPlaceholder,
    /// A pattern leaves its value open.
    ValuePlaceholder,
    /// A disjunction has no branches, or a conjunction no clauses.
    Empty,
    /// There is a negation, but no variable.
    NoVariables,
    /// The branches of a disjunction have different variables.
    BranchVariables,
    /// The branches of a disjunction do not limit the values of the same variables: a condition
    /// limits the last of its variables, and a function its output.
    BranchLevels,
    /// A clause cannot be had.
    Refused { cause: Error },
}

/// What a fault is.
pub enum FaultView {
    ArgumentCount(nat, nat),
    ArgumentKind(nat),
    LimitUnbound(Name),
    LimitType(Name),
    LimitNegative(Name),
    OrderVariable(Name),
    Unbound(Name),
    EntityPlaceholder,
    ValuePlaceholder,
    Empty,
    NoVariables,
    BranchVariables,
    BranchLevels,
    Refused(ErrorView),
}

impl View for Fault {
    type V = FaultView;

    open spec fn view(&self) -> FaultView {
        match *self {
            Fault::ArgumentCount { bindings, arguments } => FaultView::ArgumentCount(
                bindings as nat,
                arguments as nat,
            ),
            Fault::ArgumentKind { input } => FaultView::ArgumentKind(input as nat),
            Fault::LimitUnbound { variable } => FaultView::LimitUnbound(variable@),
            Fault::LimitType { variable } => FaultView::LimitType(variable@),
            Fault::LimitNegative { variable } => FaultView::LimitNegative(variable@),
            Fault::OrderVariable { variable } => FaultView::OrderVariable(variable@),
            Fault::Unbound { variable } => FaultView::Unbound(variable@),
            Fault::EntityPlaceholder => FaultView::EntityPlaceholder,
            Fault::ValuePlaceholder => FaultView::ValuePlaceholder,
            Fault::Empty => FaultView::Empty,
            Fault::NoVariables => FaultView::NoVariables,
            Fault::BranchVariables => FaultView::BranchVariables,
            Fault::BranchLevels => FaultView::BranchLevels,
            Fault::Refused { cause } => FaultView::Refused(cause@),
        }
    }
}

/// What a fault says.
pub open spec fn message_of(fault: FaultView) -> Seq<char> {
    match fault {
        FaultView::ArgumentCount(bindings, arguments) => ":in clause has "@ + text::digits(bindings)
            + " binding(s) but "@ + text::digits(arguments) + " argument(s) were given"@,
        FaultView::ArgumentKind(input) => "Argument does not fit the :in binding at position "@
            + text::digits(input),
        FaultView::LimitUnbound(v) => "LIMIT variable "@ + v
            + " is not bound as a scalar in :in clause"@,
        FaultView::LimitType(v) => "LIMIT variable "@ + v + " must be bound to a Long"@,
        FaultView::LimitNegative(v) => "LIMIT variable "@ + v + " must be non-negative"@,
        FaultView::OrderVariable(v) => "ORDER BY variable "@ + v + " is not in the :find clause"@,
        FaultView::Unbound(v) => "Variable "@ + v + " is not bound in the where clauses"@,
        FaultView::EntityPlaceholder =>
            "Patterns do not support placeholders in entity position"@,
        FaultView::ValuePlaceholder => "Patterns do not support placeholders in value position"@,
        FaultView::Empty => "A disjunction needs a branch and a conjunction a clause"@,
        FaultView::NoVariables => "A negation needs a variable"@,
        FaultView::BranchVariables => "All branches must have the same free variables"@,
        FaultView::BranchLevels => "All branches must limit the values of the same variables"@,
        FaultView::Refused(cause) => error::message_of(cause),
    }
}

/// A text around a name.
fn around(before: &str, name: &str, after: &str) -> (r: String)
    ensures
        r@ == before@ + name@ + after@,
{
    followed_by(followed_by(before.to_owned(), name), after)
}

impl Fault {
    /// What the fault says.
    pub fn message(&self) -> (r: String)
        ensures
            r@ == message_of(self@),
    {
        match self {
            Fault::ArgumentCount { bindings, arguments } => {
                let start = around(
                    ":in clause has ",
                    count_text(*bindings).as_str(),
                    " binding(s) but ",
                );
                followed_by(
                    followed_by(start, count_text(*arguments).as_str()),
                    " argument(s) were given",
                )
            },
            Fault::ArgumentKind { input } => followed_by(
                "Argument does not fit the :in binding at position ".to_owned(),
                count_text(*input).as_str(),
            ),
            Fault::LimitUnbound { variable } => around(
                "LIMIT variable ",
                variable.name.as_str(),
                " is not bound as a scalar in :in clause",
            ),
            Fault::LimitType { variable } => around(
                "LIMIT variable ",
                variable.name.as_str(),
                " must be bound to a Long",
            ),
            Fault::LimitNegative { variable } => around(
                "LIMIT variable ",
                variable.name.as_str(),
                " must be non-negative",
            ),
            Fault::OrderVariable { variable } => around(
                "ORDER BY variable ",
                variable.name.as_str(),
                " is not in the :find clause",
            ),
            Fault::Unbound { variable } => around(
                "Variable ",
                variable.name.as_str(),
                " is not bound in the where clauses",
            ),
            Fault::EntityPlaceholder => "Patterns do not support placeholders in entity position".to_owned(),
            Fault::ValuePlaceholder => "Patterns do not support placeholders in value position".to_owned(),
            Fault::Empty => "A disjunction needs a branch and a conjunction a clause".to_owned(),
            Fault::NoVariables => "A negation needs a variable".to_owned(),
            Fault::BranchVariables => "All branches must have the same free variables".to_owned(),
            Fault::BranchLevels => {
                "All branches must limit the values of the same variables".to_owned()
            },
            Fault::Refused { cause } => cause.message(),
        }
    }
}

/// What is seen of a fault, if there is one.
pub open spec fn seen(fault: Option<Fault>) -> Option<FaultView> {
    match fault {
        Some(f) => Some(f@),
        None => None,
    }
}

/// The fault of an expression: a variable that nothing binds.
pub open spec fn names_fault(names: Seq<Name>, bound: Seq<Name>) -> Option<FaultView> {
    match variable::first_missing(names, bound) {
        Some(v) => Some(FaultView::Unbound(v)),
        None => None,
    }
}

/// Whether two lists hold the same names.
pub open spec fn same_names(a: Seq<Name>, b: Seq<Name>) -> bool {
    forall|v: Name| #[trigger] a.contains(v) == b.contains(v)
}

/// Whether all the branches have the variables of the first one.
pub open spec fn branches_agree(branches: Seq<OrWhereClause>) -> bool {
    forall|i: int|
        0 <= i < branches.len() ==> same_names(
            #[trigger] convert::branch_names(branches[i]),
            convert::branch_names(branches[0]),
        )
}

/// The fault of a clause in a query with so many variables, of which these are bound. Inside a
/// negation or a branch the variables of its own clauses are bound as well.
pub open spec fn clause_fault(clause: WhereClause, levels: int, bound: Seq<Name>) -> Option<
    FaultView,
>
    decreases clause, 3int,
{
    match clause {
        WhereClause::Pattern(p) => if p@.entity is Placeholder {
            Some(FaultView::EntityPlaceholder)
        } else if p@.value is Placeholder {
            Some(FaultView::ValuePlaceholder)
        } else {
            None
        },
        WhereClause::Pred(p) => match convert::converted(p.expr) {
            Ok(e) => names_fault(expr::variables_of(e), bound),
            Err(cause) => Some(FaultView::Refused(cause)),
        },
        WhereClause::WhereFn(f) => match convert::converted_fn(f) {
            Ok((e, _)) => names_fault(expr::variables_of(e), bound),
            Err(cause) => Some(FaultView::Refused(cause)),
        },
        WhereClause::OrJoin(or) => if or.clauses@.len() == 0 {
            Some(FaultView::Empty)
        } else {
            match branches_fault(or.clauses@, levels, bound) {
                Some(fault) => Some(fault),
                None => if branches_agree(or.clauses@) {
                    None
                } else {
                    Some(FaultView::BranchVariables)
                },
            }
        },
        WhereClause::NotJoin(not) => if levels == 0 {
            Some(FaultView::NoVariables)
        } else {
            clauses_fault(
                not.clauses@,
                levels,
                expr::with_new(bound, convert::all_clause_names(not.clauses@)),
            )
        },
        _ => Some(FaultView::Refused(ErrorView::UnsupportedClause(ast::unsupported(clause)))),
    }
}

/// The fault of the first clause that has one.
pub open spec fn clauses_fault(clauses: Seq<WhereClause>, levels: int, bound: Seq<Name>) -> Option<
    FaultView,
>
    decreases clauses, 0int,
{
    if clauses.len() == 0 {
        None
    } else {
        match clauses_fault(clauses.drop_last(), levels, bound) {
            Some(fault) => Some(fault),
            None => clause_fault(clauses.last(), levels, bound),
        }
    }
}

/// The fault of a branch.
pub open spec fn branch_fault(branch: OrWhereClause, levels: int, bound: Seq<Name>) -> Option<
    FaultView,
>
    decreases branch, 2int,
{
    let inside = expr::with_new(bound, convert::branch_names(branch));
    match branch {
        OrWhereClause::Clause(c) => clause_fault(c, levels, inside),
        OrWhereClause::And(cs) => if cs@.len() == 0 {
            Some(FaultView::Empty)
        } else {
            clauses_fault(cs@, levels, inside)
        },
    }
}

/// The fault of the first branch that has one.
pub open spec fn branches_fault(
    branches: Seq<OrWhereClause>,
    levels: int,
    bound: Seq<Name>,
) -> Option<FaultView>
    decreases branches, 0int,
{
    if branches.len() == 0 {
        None
    } else {
        match branches_fault(branches.drop_last(), levels, bound) {
            Some(fault) => Some(fault),
            None => branch_fault(branches.last(), levels, bound),
        }
    }
}

/// The fault of the inputs: their number, or the kind of the first that does not fit.
pub open spec fn kinds_fault(bindings: Seq<Binding>, args: Seq<QueryArg>, n: nat) -> Option<
    FaultView,
>
    decreases n,
{
    if n == 0 {
        None
    } else {
        match kinds_fault(bindings, args, (n - 1) as nat) {
            Some(fault) => Some(fault),
            None => if lower::binds(bindings[n - 1], args[n - 1]) {
                None
            } else {
                Some(FaultView::ArgumentKind((n - 1) as nat))
            },
        }
    }
}

/// The fault of the inputs.
pub open spec fn inputs_fault(bindings: Seq<Binding>, args: Seq<QueryArg>) -> Option<FaultView> {
    if bindings.len() != args.len() {
        Some(FaultView::ArgumentCount(bindings.len(), args.len()))
    } else {
        kinds_fault(bindings, args, bindings.len())
    }
}

/// The fault of a limit.
pub open spec fn limit_fault(limit: Limit, bindings: Seq<Binding>, args: Seq<QueryArg>) -> Option<
    FaultView,
> {
    match limit {
        Limit::Variable(v) => if find::scalar_input(bindings, v@) is None {
            Some(FaultView::LimitUnbound(v@))
        } else {
            match args[find::scalar_input(bindings, v@).unwrap()] {
                QueryArg::Scalar(DataType::Long(n)) => if n >= 0 {
                    None
                } else {
                    Some(FaultView::LimitNegative(v@))
                },
                _ => Some(FaultView::LimitType(v@)),
            }
        },
        _ => None,
    }
}

/// The fault of an order: the first variable that the result lacks.
pub open spec fn order_fault(orders: Seq<Order>, elements: Seq<Element>) -> Option<FaultView>
    decreases orders.len(),
{
    if orders.len() == 0 {
        None
    } else {
        match order_fault(orders.drop_last(), elements) {
            Some(fault) => Some(fault),
            None => if find::find_position(elements, orders.last().variable@) is None {
                Some(FaultView::OrderVariable(orders.last().variable@))
            } else {
                None
            },
        }
    }
}

/// The fault of a result: what it finds, then its order.
pub open spec fn result_fault(
    find: FindSpec,
    orders: Option<Vec<Order>>,
    variables: Seq<Name>,
) -> Option<FaultView> {
    match find::find_plan(find, variables) {
        Err(cause) => Some(FaultView::Refused(cause)),
        Ok(_) => match (find, orders) {
            (FindSpec::FindRel(elements), Some(list)) => order_fault(list@, elements@),
            _ => None,
        },
    }
}

/// The first fault of a query: in its inputs, its limit, its clauses, its result.
pub open spec fn query_fault(query: ParsedQuery, args: Seq<QueryArg>) -> Option<FaultView> {
    let variables = convert::variable_order(query.in_bindings@, query.where_clauses@);
    match inputs_fault(query.in_bindings@, args) {
        Some(fault) => Some(fault),
        None => match limit_fault(query.limit, query.in_bindings@, args) {
            Some(fault) => Some(fault),
            None => match clauses_fault(query.where_clauses@, variables.len() as int, variables) {
                Some(fault) => Some(fault),
                None => result_fault(query.find_spec, query.order, variables),
            },
        },
    }
}

/// The fault of the names of an expression.
fn check_names(names: &Vec<Variable>, bound: &Vec<Variable>) -> (r: Option<Fault>)
    ensures
        seen(r) == names_fault(names.deep_view(), bound.deep_view()),
{
    match variable::missing(names, bound) {
        Some(v) => Some(Fault::Unbound { variable: v }),
        None => None,
    }
}

/// Whether a list holds all the names of another.
fn holds_all(list: &Vec<Variable>, names: &Vec<Variable>) -> (r: bool)
    ensures
        r == (forall|v: Name| #[trigger]
            names.deep_view().contains(v) ==> list.deep_view().contains(v)),
{
    let mut i: usize = 0;
    while i < names.len()
        invariant
            i <= names@.len(),
            forall|j: int| 0 <= j < i ==> list.deep_view().contains(#[trigger] names.deep_view()[j]),
        decreases names@.len() - i,
    {
        assert(names.deep_view()[i as int] == names@[i as int]@);
        if !variable::contains(list, &names[i]) {
            assert(names.deep_view().contains(names@[i as int]@));
            return false;
        }
        i += 1;
    }
    assert forall|v: Name| #[trigger] names.deep_view().contains(v) implies list.deep_view().contains(
        v,
    ) by {
        let j = choose|j: int| 0 <= j < names.deep_view().len() && names.deep_view()[j] == v;
        assert(list.deep_view().contains(names.deep_view()[j]));
    }
    true
}

/// Whether all the branches have the variables of the first one.
fn check_agreement(branches: &Vec<OrWhereClause>) -> (r: bool)
    requires
        branches@.len() > 0,
    ensures
        r == branches_agree(branches@),
{
    let first = collect_variables_from_or_branch(&branches[0]);
    let mut i: usize = 0;
    while i < branches.len()
        invariant
            i <= branches@.len(),
            branches@.len() > 0,
            first.deep_view() == convert::branch_names(branches@[0]),
            forall|j: int|
                0 <= j < i ==> same_names(
                    #[trigger] convert::branch_names(branches@[j]),
                    convert::branch_names(branches@[0]),
                ),
        decreases branches@.len() - i,
    {
        let own = collect_variables_from_or_branch(&branches[i]);
        let ghost a = convert::branch_names(branches@[i as int]);
        let ghost b = convert::branch_names(branches@[0]);
        if !holds_all(&first, &own) {
            proof {
                let v = choose|v: Name| #[trigger] a.contains(v) && !b.contains(v);
                assert(a.contains(v) != b.contains(v));
                assert(!same_names(a, b));
            }
            return false;
        }
        if !holds_all(&own, &first) {
            proof {
                let v = choose|v: Name| #[trigger] b.contains(v) && !a.contains(v);
                assert(a.contains(v) != b.contains(v));
                assert(!same_names(a, b));
            }
            return false;
        }
        assert(same_names(a, b));
        i += 1;
    }
    true
}

/// A fault among the first clauses is that of all.
proof fn lemma_clauses(clauses: Seq<WhereClause>, levels: int, bound: Seq<Name>, n: int)
    requires
        0 <= n <= clauses.len(),
        clauses_fault(clauses.take(n), levels, bound) is Some,
    ensures
        clauses_fault(clauses, levels, bound) == clauses_fault(clauses.take(n), levels, bound),
    decreases clauses.len(),
{
    if n < clauses.len() {
        assert(clauses.drop_last().take(n) =~= clauses.take(n));
        lemma_clauses(clauses.drop_last(), levels, bound, n);
    } else {
        assert(clauses.take(n) =~= clauses);
    }
}

/// A fault among the first branches is that of all.
proof fn lemma_branches(branches: Seq<OrWhereClause>, levels: int, bound: Seq<Name>, n: int)
    requires
        0 <= n <= branches.len(),
        branches_fault(branches.take(n), levels, bound) is Some,
    ensures
        branches_fault(branches, levels, bound) == branches_fault(branches.take(n), levels, bound),
    decreases branches.len(),
{
    if n < branches.len() {
        assert(branches.drop_last().take(n) =~= branches.take(n));
        lemma_branches(branches.drop_last(), levels, bound, n);
    } else {
        assert(branches.take(n) =~= branches);
    }
}

/// The variables of one list, then the new ones of another.
fn joined(bound: &Vec<Variable>, more: &Vec<Variable>) -> (r: Vec<Variable>)
    ensures
        r.deep_view() == expr::with_new(bound.deep_view(), more.deep_view()),
{
    let mut out = bound.clone();
    assert(out.deep_view() =~= bound.deep_view());
    add_all_new(&mut out, more);
    out
}

/// The fault of a clause.
fn check_clause(clause: &WhereClause, levels: usize, bound: &Vec<Variable>) -> (r: Option<Fault>)
    ensures
        seen(r) == clause_fault(*clause, levels as int, bound.deep_view()),
    decreases *clause, 3int,
{
    match clause {
        WhereClause::Pattern(pattern) => match (&pattern.entity, &pattern.value) {
            (PatternNonValuePlace::Placeholder, _) => Some(Fault::EntityPlaceholder),
            (_, PatternValuePlace::Placeholder) => Some(Fault::ValuePlaceholder),
            _ => None,
        },
        WhereClause::Pred(pred) => match convert_predicate(pred) {
            Ok(e) => check_names(&expr_variables(&e), bound),
            Err(cause) => Some(Fault::Refused { cause }),
        },
        WhereClause::WhereFn(wf) => match convert_where_fn(wf) {
            Ok(f) => check_names(&expr_variables(&f.expr), bound),
            Err(cause) => Some(Fault::Refused { cause }),
        },
        WhereClause::OrJoin(or) => {
            if or.clauses.len() == 0 {
                return Some(Fault::Empty);
            }
            let fault = check_branches(&or.clauses, levels, bound);
            if fault.is_some() {
                return fault;
            }
            if check_agreement(&or.clauses) {
                None
            } else {
                Some(Fault::BranchVariables)
            }
        },
        WhereClause::NotJoin(not) => {
            if levels == 0 {
                return Some(Fault::NoVariables);
            }
            let inside = joined(bound, &collect_variables_from_clauses(&not.clauses));
            check_clauses(&not.clauses, levels, &inside)
        },
        _ => Some(Fault::Refused { cause: Error::UnsupportedClause(unsupported_text(clause)) }),
    }
}

/// The fault of the first clause that has one.
fn check_clauses(clauses: &Vec<WhereClause>, levels: usize, bound: &Vec<Variable>) -> (r: Option<
    Fault,
>)
    ensures
        seen(r) == clauses_fault(clauses@, levels as int, bound.deep_view()),
    decreases clauses@, 0int,
{
    let mut i: usize = 0;
    assert(clauses@.take(0) =~= Seq::<WhereClause>::empty());
    while i < clauses.len()
        invariant
            i <= clauses@.len(),
            clauses_fault(clauses@.take(i as int), levels as int, bound.deep_view()) is None,
        decreases clauses@.len() - i,
    {
        assert(clauses@.take(i + 1).drop_last() =~= clauses@.take(i as int));
        let fault = check_clause(&clauses[i], levels, bound);
        if fault.is_some() {
            proof {
                lemma_clauses(clauses@, levels as int, bound.deep_view(), i + 1);
            }
            return fault;
        }
        i += 1;
    }
    assert(clauses@.take(i as int) =~= clauses@);
    None
}

/// The fault of a branch.
fn check_branch(branch: &OrWhereClause, levels: usize, bound: &Vec<Variable>) -> (r: Option<Fault>)
    ensures
        seen(r) == branch_fault(*branch, levels as int, bound.deep_view()),
    decreases *branch, 2int,
{
    let inside = joined(bound, &collect_variables_from_or_branch(branch));
    match branch {
        OrWhereClause::Clause(clause) => check_clause(clause, levels, &inside),
        OrWhereClause::And(children) => if children.len() == 0 {
            Some(Fault::Empty)
        } else {
            check_clauses(children, levels, &inside)
        },
    }
}

/// The fault of the first branch that has one.
fn check_branches(
    branches: &Vec<OrWhereClause>,
    levels: usize,
    bound: &Vec<Variable>,
) -> (r: Option<Fault>)
    ensures
        seen(r) == branches_fault(branches@, levels as int, bound.deep_view()),
    decreases branches@, 0int,
{
    let mut i: usize = 0;
    assert(branches@.take(0) =~= Seq::<OrWhereClause>::empty());
    while i < branches.len()
        invariant
            i <= branches@.len(),
            branches_fault(branches@.take(i as int), levels as int, bound.deep_view()) is None,
        decreases branches@.len() - i,
    {
        assert(branches@.take(i + 1).drop_last() =~= branches@.take(i as int));
        let fault = check_branch(&branches[i], levels, bound);
        if fault.is_some() {
            proof {
                lemma_branches(branches@, levels as int, bound.deep_view(), i + 1);
            }
            return fault;
        }
        i += 1;
    }
    assert(branches@.take(i as int) =~= branches@);
    None
}

/// A misfit among the first inputs is that of all.
proof fn lemma_kinds(bindings: Seq<Binding>, args: Seq<QueryArg>, n: nat, m: nat)
    requires
        n <= m,
        kinds_fault(bindings, args, n) is Some,
    ensures
        kinds_fault(bindings, args, m) == kinds_fault(bindings, args, n),
    decreases m,
{
    if n < m {
        lemma_kinds(bindings, args, n, (m - 1) as nat);
    }
}

/// Inputs without a fault take their arguments.
proof fn lemma_inputs(bindings: Seq<Binding>, args: Seq<QueryArg>, n: nat)
    requires
        kinds_fault(bindings, args, n) is None,
    ensures
        forall|i: int| 0 <= i < n ==> lower::binds(#[trigger] bindings[i], args[i]),
    decreases n,
{
    if n > 0 {
        lemma_inputs(bindings, args, (n - 1) as nat);
    }
}

/// The fault of the inputs.
fn check_inputs(bindings: &Vec<Binding>, args: &[QueryArg]) -> (r: Option<Fault>)
    ensures
        seen(r) == inputs_fault(bindings@, args@),
{
    if bindings.len() != args.len() {
        return Some(Fault::ArgumentCount { bindings: bindings.len(), arguments: args.len() });
    }
    let mut i: usize = 0;
    while i < bindings.len()
        invariant
            i <= bindings@.len(),
            bindings@.len() == args@.len(),
            kinds_fault(bindings@, args@, i as nat) is None,
        decreases bindings@.len() - i,
    {
        let fits = match (&bindings[i], &args[i]) {
            (Binding::BindScalar(_), QueryArg::Scalar(_)) => true,
            (Binding::BindColl(_), QueryArg::Collection(_)) => true,
            _ => false,
        };
        if !fits {
            proof {
                lemma_kinds(bindings@, args@, (i + 1) as nat, bindings@.len());
            }
            return Some(Fault::ArgumentKind { input: i });
        }
        i += 1;
    }
    None
}

/// The fault of a limit.
fn check_limit(limit: &Limit, bindings: &Vec<Binding>, args: &[QueryArg]) -> (r: Option<Fault>)
    requires
        bindings@.len() == args@.len(),
    ensures
        seen(r) == limit_fault(*limit, bindings@, args@),
{
    let v = match limit {
        Limit::Variable(v) => v,
        _ => {
            return None;
        },
    };
    let mut i: usize = 0;
    assert(bindings@.take(0) =~= Seq::<Binding>::empty());
    while i < bindings.len()
        invariant
            i <= bindings@.len(),
            bindings@.len() == args@.len(),
            *limit == Limit::Variable(*v),
            find::scalar_input(bindings@.take(i as int), v@) is None,
        decreases bindings@.len() - i,
    {
        proof {
            assert(bindings@.take(i + 1).drop_last() =~= bindings@.take(i as int));
            assert(bindings@.take(i + 1).last() == bindings@[i as int]);
        }
        if let Binding::BindScalar(x) = &bindings[i] {
            if x.same(v) {
                proof {
                    find::lemma_scalar_input(bindings@, v@, i + 1);
                }
                return match &args[i] {
                    QueryArg::Scalar(DataType::Long(n)) => if *n >= 0 {
                        None
                    } else {
                        Some(Fault::LimitNegative { variable: v.clone() })
                    },
                    _ => Some(Fault::LimitType { variable: v.clone() }),
                };
            }
        }
        i += 1;
    }
    assert(bindings@.take(i as int) =~= bindings@);
    Some(Fault::LimitUnbound { variable: v.clone() })
}

/// A missing variable among the first is that of all.
proof fn lemma_orders(orders: Seq<Order>, elements: Seq<Element>, n: int)
    requires
        0 <= n <= orders.len(),
        order_fault(orders.take(n), elements) is Some,
    ensures
        order_fault(orders, elements) == order_fault(orders.take(n), elements),
    decreases orders.len(),
{
    if n < orders.len() {
        assert(orders.drop_last().take(n) =~= orders.take(n));
        lemma_orders(orders.drop_last(), elements, n);
    } else {
        assert(orders.take(n) =~= orders);
    }
}

/// The fault of an order.
fn check_order(orders: &Vec<Order>, elements: &Vec<Element>) -> (r: Option<Fault>)
    ensures
        seen(r) == order_fault(orders@, elements@),
{
    let mut i: usize = 0;
    assert(orders@.take(0) =~= Seq::<Order>::empty());
    while i < orders.len()
        invariant
            i <= orders@.len(),
            order_fault(orders@.take(i as int), elements@) is None,
        decreases orders@.len() - i,
    {
        proof {
            assert(orders@.take(i + 1).drop_last() =~= orders@.take(i as int));
            assert(orders@.take(i + 1).last() == orders@[i as int]);
        }
        if last_position(elements, &orders[i].variable).is_none() {
            proof {
                lemma_orders(orders@, elements@, i + 1);
            }
            return Some(Fault::OrderVariable { variable: orders[i].variable.clone() });
        }
        i += 1;
    }
    assert(orders@.take(i as int) =~= orders@);
    None
}

/// The fault of a result.
fn check_result(
    find: &FindSpec,
    orders: &Option<Vec<Order>>,
    variables: &Vec<Variable>,
) -> (r: Option<Fault>)
    requires
        variable::unique(variables.deep_view()),
    ensures
        seen(r) == result_fault(*find, *orders, variables.deep_view()),
{
    if let Err(cause) = compile_find_plan(find, variables) {
        return Some(Fault::Refused { cause });
    }
    match (find, orders) {
        (FindSpec::FindRel(elements), Some(list)) => check_order(list, elements),
        _ => None,
    }
}

/// An order without a fault has columns.
proof fn lemma_sortable(orders: Seq<Order>, elements: Seq<Element>)
    requires
        order_fault(orders, elements) is None,
    ensures
        find::order_columns(orders, elements) is Ok,
    decreases orders.len(),
{
    if orders.len() > 0 {
        lemma_sortable(orders.drop_last(), elements);
    }
}

/// Whether every pattern in a clause, at any depth, says what its entity and its value are.
pub open spec fn closed_patterns(clause: WhereClause) -> bool
    decreases clause, 3int,
{
    match clause {
        WhereClause::Pattern(p) => !(p@.entity is Placeholder) && !(p@.value is Placeholder),
        WhereClause::OrJoin(or) => closed_branches(or.clauses@),
        WhereClause::NotJoin(not) => all_closed_patterns(not.clauses@),
        _ => true,
    }
}

/// The same of clauses.
pub open spec fn all_closed_patterns(clauses: Seq<WhereClause>) -> bool
    decreases clauses, 0int,
{
    clauses.len() == 0 || (all_closed_patterns(clauses.drop_last()) && closed_patterns(
        clauses.last(),
    ))
}

/// The same of a branch.
pub open spec fn closed_branch(branch: OrWhereClause) -> bool
    decreases branch, 2int,
{
    match branch {
        OrWhereClause::Clause(c) => closed_patterns(c),
        OrWhereClause::And(cs) => all_closed_patterns(cs@),
    }
}

/// The same of branches.
pub open spec fn closed_branches(branches: Seq<OrWhereClause>) -> bool
    decreases branches, 0int,
{
    branches.len() == 0 || (closed_branches(branches.drop_last()) && closed_branch(
        branches.last(),
    ))
}

/// A clause without a fault is supported and can be compiled, and its patterns leave nothing open.
proof fn lemma_clause(clause: WhereClause, levels: int, bound: Seq<Name>)
    requires
        clause_fault(clause, levels, bound) is None,
        levels >= 0,
    ensures
        lower::supported(clause),
        compile::compilable(clause, levels),
        closed_patterns(clause),
    decreases clause, 3int,
{
    match clause {
        WhereClause::OrJoin(or) => {
            lemma_all_branches(or.clauses@, levels, bound);
        },
        WhereClause::NotJoin(not) => {
            lemma_all_clauses(
                not.clauses@,
                levels,
                expr::with_new(bound, convert::all_clause_names(not.clauses@)),
            );
        },
        _ => {},
    }
}

/// The same of clauses.
proof fn lemma_all_clauses(clauses: Seq<WhereClause>, levels: int, bound: Seq<Name>)
    requires
        clauses_fault(clauses, levels, bound) is None,
        levels >= 0,
    ensures
        lower::supported_all(clauses),
        compile::compilable_all(clauses, levels),
        all_closed_patterns(clauses),
    decreases clauses, 0int,
{
    if clauses.len() > 0 {
        lemma_all_clauses(clauses.drop_last(), levels, bound);
        lemma_clause(clauses.last(), levels, bound);
    }
}

/// The same of a branch.
proof fn lemma_branch(branch: OrWhereClause, levels: int, bound: Seq<Name>)
    requires
        branch_fault(branch, levels, bound) is None,
        levels >= 0,
    ensures
        lower::supported_branch(branch),
        compile::compilable_branch(branch, levels),
        closed_branch(branch),
    decreases branch, 2int,
{
    let inside = expr::with_new(bound, convert::branch_names(branch));
    match branch {
        OrWhereClause::Clause(c) => {
            lemma_clause(c, levels, inside);
        },
        OrWhereClause::And(cs) => {
            lemma_all_clauses(cs@, levels, inside);
        },
    }
}

/// The same of branches.
proof fn lemma_all_branches(branches: Seq<OrWhereClause>, levels: int, bound: Seq<Name>)
    requires
        branches_fault(branches, levels, bound) is None,
        levels >= 0,
    ensures
        lower::supported_branches(branches),
        compile::compilable_branches(branches, levels),
        closed_branches(branches),
    decreases branches, 0int,
{
    if branches.len() > 0 {
        lemma_all_branches(branches.drop_last(), levels, bound);
        lemma_branch(branches.last(), levels, bound);
    }
}

/// A query without a fault can be compiled and completed: each input takes its argument, the
/// clauses are of a supported kind, none of them is empty and no pattern leaves its entity or its
/// value open, the limit is a number, what is found is bound and what is sorted by is found.
pub proof fn law_valid_queries_run(query: ParsedQuery, args: Seq<QueryArg>)
    requires
        query_fault(query, args) is None,
    ensures
        query.in_bindings@.len() == args.len(),
        forall|i: int|
            0 <= i < args.len() ==> lower::binds(#[trigger] query.in_bindings@[i], args[i]),
        lower::supported_all(query.where_clauses@),
        compile::compilable_all(
            query.where_clauses@,
            convert::variable_order(query.in_bindings@, query.where_clauses@).len() as int,
        ),
        all_closed_patterns(query.where_clauses@),
        query.limit matches Limit::Variable(v) ==> find::bound_limit(
            v@,
            query.in_bindings@,
            args,
        ) is Some,
        find::find_plan(
            query.find_spec,
            convert::variable_order(query.in_bindings@, query.where_clauses@),
        ) is Ok,
        query.order matches Some(orders) ==> find::sort_columns(orders@, query.find_spec) is Ok,
{
    let variables = convert::variable_order(query.in_bindings@, query.where_clauses@);
    lemma_inputs(query.in_bindings@, args, args.len());
    lemma_all_clauses(query.where_clauses@, variables.len() as int, variables);
    if let Limit::Variable(v) = query.limit {
        find::lemma_input_place(query.in_bindings@, v@);
    }
    if let Some(orders) = query.order {
        if let FindSpec::FindRel(elements) = query.find_spec {
            lemma_sortable(orders@, elements@);
        }
    }
}

/// Refuses a query that cannot be run with these arguments, with its first fault.
pub fn validate_query(query: &ParsedQuery, args: &[QueryArg]) -> (r: Result<(), Fault>)
    ensures
        match r {
            Ok(()) => query_fault(*query, args@) is None,
            Err(fault) => query_fault(*query, args@) == Some(fault@),
        },
{
    if let Some(fault) = check_inputs(&query.in_bindings, args) {
        return Err(fault);
    }
    if let Some(fault) = check_limit(&query.limit, &query.in_bindings, args) {
        return Err(fault);
    }
    let variables = query_variable_order(&query.in_bindings, &query.where_clauses);
    proof {
        convert::law_variable_order_unique(query.in_bindings@, query.where_clauses@);
    }
    if let Some(fault) = check_clauses(&query.where_clauses, variables.len(), &variables) {
        return Err(fault);
    }
    match check_result(&query.find_spec, &query.order, &variables) {
        Some(fault) => Err(fault),
        None => Ok(()),
    }
}

/// Each fault says in its own words what it is about.
pub proof fn law_fault_texts(fault: Fault, r: String)
    requires
        call_ensures(Fault::message, (&fault,), r),
    ensures
        match fault {
            Fault::ArgumentCount { bindings, arguments } => r@ == ":in clause has "@ + text::digits(
                bindings as nat,
            ) + " binding(s) but "@ + text::digits(arguments as nat)
                + " argument(s) were given"@,
            Fault::ArgumentKind { input } => r@
                == "Argument does not fit the :in binding at position "@ + text::digits(
                input as nat,
            ),
            Fault::LimitUnbound { variable } => r@ == "LIMIT variable "@ + variable.name@
                + " is not bound as a scalar in :in clause"@,
            Fault::LimitType { variable } => r@ == "LIMIT variable "@ + variable.name@
                + " must be bound to a Long"@,
            Fault::LimitNegative { variable } => r@ == "LIMIT variable "@ + variable.name@
                + " must be non-negative"@,
            Fault::OrderVariable { variable } => r@ == "ORDER BY variable "@ + variable.name@
                + " is not in the :find clause"@,
            Fault::Unbound { variable } => r@ == "Variable "@ + variable.name@
                + " is not bound in the where clauses"@,
            Fault::EntityPlaceholder => r@
                == "Patterns do not support placeholders in entity position"@,
            Fault::ValuePlaceholder => r@
                == "Patterns do not support placeholders in value position"@,
            Fault::Empty => r@ == "A disjunction needs a branch and a conjunction a clause"@,
            Fault::NoVariables => r@ == "A negation needs a variable"@,
            Fault::BranchVariables => r@ == "All branches must have the same free variables"@,
            Fault::BranchLevels => r@
                == "All branches must limit the values of the same variables"@,
            Fault::Refused { cause } => forall|said: String| #[trigger]
                call_ensures(Error::message, (&cause,), said) ==> r@ == said@,
        },
{
}

} // verus!
