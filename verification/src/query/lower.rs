//! From the clauses of a query to the descriptors that the planner works on.

use vstd::prelude::*;

use crate::byte_string;
use crate::error::{Error, ErrorView};
use crate::expr::{self, add_all_new, expr_variables, ExprView};
use crate::query::ast::{
    self, unsupported_text, Binding, OrWhereClause, ParsedQuery, Pattern, PatternView, QueryArg,
    WhereClause,
};
use crate::query::convert::{
    self, convert_predicate, convert_where_fn, pattern_variables, query_variable_order,
};
use crate::query::plan::{Descriptor, DescriptorKind, LogicalPlan, PatternId};
use crate::value::{DataType, Value};
use crate::variable::{Name, Variable};

verus! {

/// What a descriptor is.
pub struct DescriptorView {
    pub id: int,
    pub names: Seq<Name>,
    pub kind: KindView,
}

/// What the kind of a descriptor is.
pub enum KindView {
    Triple(PatternView),
    Relation(Seq<Seq<Value>>),
    Predicate(ExprView),
    Function(ExprView, Seq<Name>, Name),
    Or(Seq<Seq<DescriptorView>>),
    Not(Seq<DescriptorView>),
}

/// What values are.
pub open spec fn values(list: Seq<DataType>) -> Seq<Value> {
    Seq::new(list.len(), |i: int| list[i]@)
}

/// What rows of values are.
pub open spec fn value_rows(rows: Seq<Vec<DataType>>) -> Seq<Seq<Value>> {
    Seq::new(rows.len(), |i: int| values(rows[i]@))
}

/// What a descriptor is.
pub open spec fn descriptor_view(d: Descriptor) -> DescriptorView
    decreases d, 2int,
{
    DescriptorView {
        id: d.id as int,
        names: d.variables.deep_view(),
        kind: match d.kind {
            DescriptorKind::Triple(p) => KindView::Triple(p@),
            DescriptorKind::Relation { rows } => KindView::Relation(value_rows(rows@)),
            DescriptorKind::Predicate { expression } => KindView::Predicate(expression@),
            DescriptorKind::Function { expression, input_variables, output } => KindView::Function(
                expression@,
                input_variables.deep_view(),
                output@,
            ),
            DescriptorKind::Or { branches } => KindView::Or(branch_views(branches@)),
            DescriptorKind::Not { children } => KindView::Not(descriptor_views(children@)),
        },
    }
}

/// What descriptors are.
pub open spec fn descriptor_views(ds: Seq<Descriptor>) -> Seq<DescriptorView>
    decreases ds, 0int,
{
    if ds.len() == 0 {
        Seq::empty()
    } else {
        descriptor_views(ds.drop_last()).push(descriptor_view(ds.last()))
    }
}

/// What the descriptors of branches are.
pub open spec fn branch_views(branches: Seq<Vec<Descriptor>>) -> Seq<Seq<DescriptorView>>
    decreases branches, 1int,
{
    if branches.len() == 0 {
        Seq::empty()
    } else {
        branch_views(branches.drop_last()).push(descriptor_views(branches.last()@))
    }
}

impl View for Descriptor {
    type V = DescriptorView;

    open spec fn view(&self) -> DescriptorView {
        descriptor_view(*self)
    }
}

/// Whether a clause is of a supported kind all the way down: no rules, no type annotations, no
/// disjunction without branches.
pub open spec fn supported(clause: WhereClause) -> bool
    decreases clause, 3int,
{
    match clause {
        WhereClause::Pattern(_) => true,
        WhereClause::Pred(_) => true,
        WhereClause::WhereFn(_) => true,
        WhereClause::OrJoin(or) => or.clauses@.len() > 0 && supported_branches(or.clauses@),
        WhereClause::NotJoin(not) => supported_all(not.clauses@),
        WhereClause::RuleExpr => false,
        WhereClause::TypeAnnotation(_) => false,
    }
}

/// Whether all the clauses are of a supported kind.
pub open spec fn supported_all(clauses: Seq<WhereClause>) -> bool
    decreases clauses, 0int,
{
    clauses.len() == 0 || (supported_all(clauses.drop_last()) && supported(clauses.last()))
}

/// Whether the clauses of a branch are of a supported kind.
pub open spec fn supported_branch(branch: OrWhereClause) -> bool
    decreases branch, 2int,
{
    match branch {
        OrWhereClause::Clause(c) => supported(c),
        OrWhereClause::And(cs) => supported_all(cs@),
    }
}

/// Whether the clauses of all the branches are of a supported kind.
pub open spec fn supported_branches(branches: Seq<OrWhereClause>) -> bool
    decreases branches, 0int,
{
    branches.len() == 0 || (supported_branches(branches.drop_last()) && supported_branch(
        branches.last(),
    ))
}

/// How many descriptors a clause becomes, those inside it included.
pub open spec fn size(clause: WhereClause) -> nat
    decreases clause, 3int,
{
    match clause {
        WhereClause::OrJoin(or) => 1 + size_of_branches(or.clauses@),
        WhereClause::NotJoin(not) => 1 + size_of_all(not.clauses@),
        _ => 1,
    }
}

/// How many descriptors clauses become.
pub open spec fn size_of_all(clauses: Seq<WhereClause>) -> nat
    decreases clauses, 0int,
{
    if clauses.len() == 0 {
        0
    } else {
        size_of_all(clauses.drop_last()) + size(clauses.last())
    }
}

/// How many descriptors a branch becomes.
pub open spec fn size_of_branch(branch: OrWhereClause) -> nat
    decreases branch, 2int,
{
    match branch {
        OrWhereClause::Clause(c) => size(c),
        OrWhereClause::And(cs) => size_of_all(cs@),
    }
}

/// How many descriptors branches become.
pub open spec fn size_of_branches(branches: Seq<OrWhereClause>) -> nat
    decreases branches, 0int,
{
    if branches.len() == 0 {
        0
    } else {
        size_of_branches(branches.drop_last()) + size_of_branch(branches.last())
    }
}

/// The variables of descriptors, one after another.
pub open spec fn names_of_all(ds: Seq<DescriptorView>) -> Seq<Name>
    decreases ds.len(),
{
    if ds.len() == 0 {
        Seq::empty()
    } else {
        names_of_all(ds.drop_last()) + ds.last().names
    }
}

/// The descriptor of a clause; it and those inside it are numbered from `id` on, the outer
/// before the inner and the earlier before the later.
pub open spec fn lowered(clause: WhereClause, id: int) -> Result<DescriptorView, ErrorView>
    decreases clause, 3int,
{
    match clause {
        WhereClause::Pattern(p) => Ok(
            DescriptorView {
                id,
                names: convert::pattern_names(p@),
                kind: KindView::Triple(p@),
            },
        ),
        WhereClause::Pred(p) => match convert::converted(p.expr) {
            Ok(e) => Ok(
                DescriptorView { id, names: expr::variables_of(e), kind: KindView::Predicate(e) },
            ),
            Err(e) => Err(e),
        },
        WhereClause::WhereFn(f) => match convert::converted_fn(f) {
            Ok((e, output)) => Ok(
                DescriptorView {
                    id,
                    names: expr::with_new(expr::variables_of(e), seq![output]),
                    kind: KindView::Function(e, expr::variables_of(e), output),
                },
            ),
            Err(e) => Err(e),
        },
        WhereClause::OrJoin(or) => match lowered_branches(or.clauses@, id + 1) {
            Ok(branches) => Ok(
                DescriptorView {
                    id,
                    names: expr::with_new(Seq::empty(), names_of_all(branches[0])),
                    kind: KindView::Or(branches),
                },
            ),
            Err(e) => Err(e),
        },
        WhereClause::NotJoin(not) => match lowered_all(not.clauses@, id + 1) {
            Ok(children) => Ok(
                DescriptorView {
                    id,
                    names: expr::with_new(Seq::empty(), names_of_all(children)),
                    kind: KindView::Not(children),
                },
            ),
            Err(e) => Err(e),
        },
        _ => Err(ErrorView::UnsupportedClause(ast::unsupported(clause))),
    }
}

/// The descriptors of clauses; the first clause without one decides the error.
pub open spec fn lowered_all(clauses: Seq<WhereClause>, id: int) -> Result<
    Seq<DescriptorView>,
    ErrorView,
>
    decreases clauses, 0int,
{
    if clauses.len() == 0 {
        Ok(Seq::empty())
    } else {
        match lowered_all(clauses.drop_last(), id) {
            Err(e) => Err(e),
            Ok(front) => match lowered(clauses.last(), id + size_of_all(clauses.drop_last())) {
                Ok(d) => Ok(front.push(d)),
                Err(e) => Err(e),
            },
        }
    }
}

/// The descriptors of a branch.
pub open spec fn lowered_branch(branch: OrWhereClause, id: int) -> Result<
    Seq<DescriptorView>,
    ErrorView,
>
    decreases branch, 2int,
{
    match branch {
        OrWhereClause::Clause(c) => match lowered(c, id) {
            Ok(d) => Ok(seq![d]),
            Err(e) => Err(e),
        },
        OrWhereClause::And(cs) => lowered_all(cs@, id),
    }
}

/// The descriptors of branches.
pub open spec fn lowered_branches(branches: Seq<OrWhereClause>, id: int) -> Result<
    Seq<Seq<DescriptorView>>,
    ErrorView,
>
    decreases branches, 0int,
{
    if branches.len() == 0 {
        Ok(Seq::empty())
    } else {
        match lowered_branches(branches.drop_last(), id) {
            Err(e) => Err(e),
            Ok(front) => match lowered_branch(
                branches.last(),
                id + size_of_branches(branches.drop_last()),
            ) {
                Ok(ds) => Ok(front.push(ds)),
                Err(e) => Err(e),
            },
        }
    }
}

/// The first clauses are of supported kinds, become no more descriptors than all of them, and
/// their error is the error of all of them.
proof fn lemma_first_clauses(clauses: Seq<WhereClause>, id: int, n: int)
    requires
        0 <= n <= clauses.len(),
    ensures
        supported_all(clauses) ==> supported_all(clauses.take(n)),
        supported_all(clauses) && n < clauses.len() ==> supported(clauses[n]),
        size_of_all(clauses.take(n)) <= size_of_all(clauses),
        n < clauses.len() ==> size_of_all(clauses.take(n)) + size(clauses[n]) <= size_of_all(
            clauses,
        ),
        lowered_all(clauses.take(n), id) is Err ==> lowered_all(clauses, id) == lowered_all(
            clauses.take(n),
            id,
        ),
    decreases clauses.len() - n,
{
    if n < clauses.len() {
        lemma_first_clauses(clauses, id, n + 1);
        assert(clauses.take(n + 1).drop_last() =~= clauses.take(n));
        assert(clauses.take(n + 1).last() == clauses[n]);
    } else {
        assert(clauses.take(n) =~= clauses);
    }
}

/// The same of branches.
proof fn lemma_first_branches(branches: Seq<OrWhereClause>, id: int, n: int)
    requires
        0 <= n <= branches.len(),
    ensures
        supported_branches(branches) ==> supported_branches(branches.take(n)),
        supported_branches(branches) && n < branches.len() ==> supported_branch(branches[n]),
        size_of_branches(branches.take(n)) <= size_of_branches(branches),
        n < branches.len() ==> size_of_branches(branches.take(n)) + size_of_branch(branches[n])
            <= size_of_branches(branches),
        lowered_branches(branches.take(n), id) is Err ==> lowered_branches(branches, id)
            == lowered_branches(branches.take(n), id),
    decreases branches.len() - n,
{
    if n < branches.len() {
        lemma_first_branches(branches, id, n + 1);
        assert(branches.take(n + 1).drop_last() =~= branches.take(n));
        assert(branches.take(n + 1).last() == branches[n]);
    } else {
        assert(branches.take(n) =~= branches);
    }
}

/// What a lowered clause is.
pub open spec fn outcome(r: Result<Descriptor, Error>) -> Result<DescriptorView, ErrorView> {
    match r {
        Ok(d) => Ok(d@),
        Err(e) => Err(e@),
    }
}

/// What lowered clauses are.
pub open spec fn outcomes(r: Result<Vec<Descriptor>, Error>) -> Result<Seq<DescriptorView>, ErrorView> {
    match r {
        Ok(ds) => Ok(descriptor_views(ds@)),
        Err(e) => Err(e@),
    }
}

/// The variables of descriptors, each once, in the order of their first occurrence.
fn variables_of_descriptors(descriptors: &Vec<Descriptor>) -> (r: Vec<Variable>)
    ensures
        r.deep_view() == expr::with_new(
            Seq::empty(),
            names_of_all(descriptor_views(descriptors@)),
        ),
{
    let mut out: Vec<Variable> = Vec::new();
    let mut i: usize = 0;
    assert(out.deep_view() =~= Seq::<Name>::empty());
    while i < descriptors.len()
        invariant
            i <= descriptors@.len(),
            out.deep_view() == expr::with_new(
                Seq::empty(),
                names_of_all(descriptor_views(descriptors@.take(i as int))),
            ),
        decreases descriptors@.len() - i,
    {
        add_all_new(&mut out, &descriptors[i].variables);
        proof {
            let front = descriptor_views(descriptors@.take(i as int));
            assert(descriptors@.take(i + 1).drop_last() =~= descriptors@.take(i as int));
            assert(front.push(descriptors@[i as int]@).drop_last() =~= front);
            expr::lemma_with_new_split(
                Seq::empty(),
                names_of_all(front),
                descriptors@[i as int].variables.deep_view(),
            );
        }
        i += 1;
    }
    assert(descriptors@.take(i as int) =~= descriptors@);
    out
}

/// Whether an input binding takes an argument of that kind: a variable takes a single value, a
/// collection binding a collection.
pub open spec fn binds(binding: Binding, argument: QueryArg) -> bool {
    match (binding, argument) {
        (Binding::BindScalar(_), QueryArg::Scalar(_)) => true,
        (Binding::BindColl(_), QueryArg::Collection(_)) => true,
        _ => false,
    }
}

/// The descriptor of an input: one column with the value, or with each of the values.
pub open spec fn input_relation(binding: Binding, argument: QueryArg, id: int) -> DescriptorView {
    DescriptorView {
        id,
        names: convert::binding_names(binding),
        kind: KindView::Relation(
            match argument {
                QueryArg::Scalar(value) => seq![seq![value@]],
                QueryArg::Collection(list) => Seq::new(list@.len(), |i: int| seq![list@[i]@]),
            },
        ),
    }
}

/// A row of one value.
fn single(value: &DataType) -> (r: Vec<DataType>)
    ensures
        values(r@) == seq![value@],
{
    let mut row: Vec<DataType> = Vec::new();
    row.push(value.clone());
    assert(values(row@) =~= seq![value@]);
    row
}

/// A list of one variable.
fn one_variable(v: &Variable) -> (r: Vec<Variable>)
    ensures
        r.deep_view() == seq![v@],
{
    let mut out: Vec<Variable> = Vec::new();
    let copy = v.clone();
    let ghost none = out;
    out.push(copy);
    proof {
        byte_string::lemma_deep_push(none, out, copy);
        assert(out.deep_view() =~= seq![v@]);
    }
    out
}

/// Gives out the numbers of descriptors.
#[derive(Debug)]
pub struct DescriptorBuilder {
    pub next_id: PatternId,
}

impl DescriptorBuilder {
    /// A builder that numbers from zero on.
    pub fn new() -> (r: Self)
        ensures
            r.next_id == 0,
    {
        DescriptorBuilder { next_id: 0 }
    }

    /// The next number.
    pub fn allocate_id(&mut self) -> (r: PatternId)
        requires
            old(self).next_id < usize::MAX,
        ensures
            r == old(self).next_id,
            final(self).next_id == old(self).next_id + 1,
    {
        let id: usize = self.next_id;
        self.next_id = self.next_id + 1;
        id
    }

    /// The descriptor of an input.
    pub fn relation(&mut self, binding: &Binding, argument: &QueryArg) -> (r: Descriptor)
        requires
            binds(*binding, *argument),
            old(self).next_id < usize::MAX,
        ensures
            r@ == input_relation(*binding, *argument, old(self).next_id as int),
            final(self).next_id == old(self).next_id + 1,
    {
        let ghost start = self.next_id;
        let mut rows: Vec<Vec<DataType>> = Vec::new();
        let variables = match binding {
            Binding::BindScalar(v) => one_variable(v),
            Binding::BindColl(v) => one_variable(v),
            _ => Vec::new(),
        };
        match argument {
            QueryArg::Scalar(value) => {
                rows.push(single(value));
                assert(value_rows(rows@) =~= seq![seq![value@]]);
            },
            QueryArg::Collection(list) => {
                let mut i: usize = 0;
                while i < list.len()
                    invariant
                        i <= list@.len(),
                        value_rows(rows@) == Seq::new(i as nat, |j: int| seq![list@[j]@]),
                    decreases list@.len() - i,
                {
                    let row = single(&list[i]);
                    let ghost earlier = rows@;
                    rows.push(row);
                    assert(value_rows(rows@) =~= value_rows(earlier).push(values(row@)));
                    i += 1;
                    assert(value_rows(rows@) =~= Seq::new(i as nat, |j: int| seq![list@[j]@]));
                }
            },
        }
        let id: usize = self.allocate_id();
        Descriptor { id, variables, kind: DescriptorKind::Relation { rows } }
    }

    /// The descriptor of a triple pattern.
    pub fn triple(&mut self, pattern: &Pattern) -> (r: Descriptor)
        requires
            old(self).next_id < usize::MAX,
        ensures
            r@ == (DescriptorView {
                id: old(self).next_id as int,
                names: convert::pattern_names(pattern@),
                kind: KindView::Triple(pattern@),
            }),
            final(self).next_id == old(self).next_id + 1,
    {
        let id: usize = self.allocate_id();
        Descriptor {
            id,
            variables: pattern_variables(pattern),
            kind: DescriptorKind::Triple(pattern.clone()),
        }
    }

    /// The descriptors of a branch.
    pub fn branch(&mut self, branch: &OrWhereClause) -> (r: Result<Vec<Descriptor>, Error>)
        requires
            supported_branch(*branch),
            old(self).next_id + size_of_branch(*branch) <= usize::MAX,
        ensures
            outcomes(r) == lowered_branch(*branch, old(self).next_id as int),
            r is Ok ==> final(self).next_id == old(self).next_id + size_of_branch(*branch),
        decreases *branch, 2int,
    {
        match branch {
            OrWhereClause::Clause(clause) => match self.where_clause(clause) {
                Ok(d) => {
                    let mut list: Vec<Descriptor> = Vec::new();
                    list.push(d);
                    proof {
                        assert(list@.drop_last() =~= Seq::<Descriptor>::empty());
                        reveal_with_fuel(descriptor_views, 2);
                        assert(descriptor_views(list@) =~= seq![d@]);
                    }
                    Ok(list)
                },
                Err(e) => Err(e),
            },
            OrWhereClause::And(children) => self.where_clauses(children),
        }
    }

    /// The descriptors of branches.
    fn branches(&mut self, branches: &Vec<OrWhereClause>) -> (r: Result<
        Vec<Vec<Descriptor>>,
        Error,
    >)
        requires
            supported_branches(branches@),
            old(self).next_id + size_of_branches(branches@) <= usize::MAX,
        ensures
            match r {
                Ok(list) => lowered_branches(branches@, old(self).next_id as int) == Ok::<
                    Seq<Seq<DescriptorView>>,
                    ErrorView,
                >(branch_views(list@)) && list@.len() == branches@.len()
                    && final(self).next_id == old(self).next_id + size_of_branches(branches@),
                Err(e) => lowered_branches(branches@, old(self).next_id as int) == Err::<
                    Seq<Seq<DescriptorView>>,
                    ErrorView,
                >(e@),
            },
        decreases branches@, 0int,
    {
        let ghost start = self.next_id as int;
        let mut list: Vec<Vec<Descriptor>> = Vec::new();
        let mut i: usize = 0;
        assert(branches@.take(0) =~= Seq::<OrWhereClause>::empty());
        while i < branches.len()
            invariant
                i <= branches@.len(),
                list@.len() == i,
                start == old(self).next_id,
                supported_branches(branches@),
                start + size_of_branches(branches@) <= usize::MAX,
                self.next_id == start + size_of_branches(branches@.take(i as int)),
                lowered_branches(branches@.take(i as int), start) == Ok::<
                    Seq<Seq<DescriptorView>>,
                    ErrorView,
                >(branch_views(list@)),
            decreases branches@.len() - i,
        {
            proof {
                lemma_first_branches(branches@, start, i as int);
                lemma_first_branches(branches@, start, i + 1);
                assert(branches@.take(i + 1).drop_last() =~= branches@.take(i as int));
                assert(branches@.take(i + 1).last() == branches@[i as int]);
            }
            match self.branch(&branches[i]) {
                Ok(ds) => {
                    let ghost earlier = list@;
                    list.push(ds);
                    assert(list@.drop_last() =~= earlier);
                },
                Err(e) => {
                    return Err(e);
                },
            }
            i += 1;
        }
        assert(branches@.take(i as int) =~= branches@);
        Ok(list)
    }

    /// The descriptor of a clause.
    pub fn where_clause(&mut self, clause: &WhereClause) -> (r: Result<Descriptor, Error>)
        requires
            supported(*clause),
            old(self).next_id + size(*clause) <= usize::MAX,
        ensures
            outcome(r) == lowered(*clause, old(self).next_id as int),
            r is Ok ==> final(self).next_id == old(self).next_id + size(*clause),
        decreases *clause, 3int,
    {
        match clause {
            WhereClause::Pattern(pattern) => Ok(self.triple(pattern)),
            WhereClause::Pred(predicate) => {
                let expression = match convert_predicate(predicate) {
                    Ok(expression) => expression,
                    Err(e) => {
                        return Err(e);
                    },
                };
                let id: usize = self.allocate_id();
                Ok(
                    Descriptor {
                        id,
                        variables: expr_variables(&expression),
                        kind: DescriptorKind::Predicate { expression },
                    },
                )
            },
            WhereClause::WhereFn(function) => {
                let function = match convert_where_fn(function) {
                    Ok(function) => function,
                    Err(e) => {
                        return Err(e);
                    },
                };
                let input_variables = function.input_variables();
                let mut variables = function.input_variables();
                add_all_new(&mut variables, &one_variable(&function.output));
                let id: usize = self.allocate_id();
                Ok(
                    Descriptor {
                        id,
                        variables,
                        kind: DescriptorKind::Function {
                            expression: function.expr,
                            input_variables,
                            output: function.output,
                        },
                    },
                )
            },
            WhereClause::OrJoin(or) => {
                let id: usize = self.allocate_id();
                let branches = match self.branches(&or.clauses) {
                    Ok(branches) => branches,
                    Err(e) => {
                        return Err(e);
                    },
                };
                let variables = variables_of_descriptors(&branches[0]);
                proof {
                    lemma_first_branch(branches@);
                }
                Ok(Descriptor { id, variables, kind: DescriptorKind::Or { branches } })
            },
            WhereClause::NotJoin(not) => {
                let id: usize = self.allocate_id();
                let children = match self.where_clauses(&not.clauses) {
                    Ok(children) => children,
                    Err(e) => {
                        return Err(e);
                    },
                };
                let variables = variables_of_descriptors(&children);
                Ok(Descriptor { id, variables, kind: DescriptorKind::Not { children } })
            },
            _ => {
                assert(false);
                Err(Error::UnsupportedClause(unsupported_text(clause)))
            },
        }
    }

    /// The descriptors of clauses.
    pub fn where_clauses(&mut self, clauses: &Vec<WhereClause>) -> (r: Result<
        Vec<Descriptor>,
        Error,
    >)
        requires
            supported_all(clauses@),
            old(self).next_id + size_of_all(clauses@) <= usize::MAX,
        ensures
            outcomes(r) == lowered_all(clauses@, old(self).next_id as int),
            r is Ok ==> final(self).next_id == old(self).next_id + size_of_all(clauses@),
        decreases clauses@, 0int,
    {
        let ghost start = self.next_id as int;
        let mut list: Vec<Descriptor> = Vec::new();
        let mut i: usize = 0;
        assert(clauses@.take(0) =~= Seq::<WhereClause>::empty());
        while i < clauses.len()
            invariant
                i <= clauses@.len(),
                start == old(self).next_id,
                supported_all(clauses@),
                start + size_of_all(clauses@) <= usize::MAX,
                self.next_id == start + size_of_all(clauses@.take(i as int)),
                lowered_all(clauses@.take(i as int), start) == Ok::<Seq<DescriptorView>, ErrorView>(
                    descriptor_views(list@),
                ),
            decreases clauses@.len() - i,
        {
            proof {
                lemma_first_clauses(clauses@, start, i as int);
                lemma_first_clauses(clauses@, start, i + 1);
                assert(clauses@.take(i + 1).drop_last() =~= clauses@.take(i as int));
                assert(clauses@.take(i + 1).last() == clauses@[i as int]);
            }
            match self.where_clause(&clauses[i]) {
                Ok(d) => {
                    let ghost earlier = list@;
                    list.push(d);
                    assert(list@.drop_last() =~= earlier);
                },
                Err(e) => {
                    return Err(e);
                },
            }
            i += 1;
        }
        assert(clauses@.take(i as int) =~= clauses@);
        Ok(list)
    }
}

/// The first of the branches' views is that of the first branch.
proof fn lemma_first_branch(branches: Seq<Vec<Descriptor>>)
    requires
        branches.len() > 0,
    ensures
        branch_views(branches).len() == branches.len(),
        branch_views(branches)[0] == descriptor_views(branches[0]@),
    decreases branches.len(),
{
    if branches.len() > 1 {
        lemma_first_branch(branches.drop_last());
    } else {
        assert(branch_views(branches.drop_last()).len() == 0);
    }
}

/// The descriptors of the inputs that have an argument.
pub open spec fn input_relations(bindings: Seq<Binding>, arguments: Seq<QueryArg>) -> Seq<
    DescriptorView,
> {
    Seq::new(
        vstd::math::min(bindings.len() as int, arguments.len() as int) as nat,
        |i: int| input_relation(bindings[i], arguments[i], i),
    )
}

/// The plan of a query: the order of its variables, and the descriptors of its inputs and of its
/// clauses.
pub fn build_logical_plan(query: &ParsedQuery, arguments: &[QueryArg]) -> (r: Result<
    LogicalPlan,
    Error,
>)
    requires
        supported_all(query.where_clauses@),
        forall|i: int|
            0 <= i < query.in_bindings@.len() && i < arguments@.len() ==> binds(
                #[trigger] query.in_bindings@[i],
                arguments@[i],
            ),
        input_relations(query.in_bindings@, arguments@).len() + size_of_all(query.where_clauses@)
            <= usize::MAX,
    ensures
        ({
            let inputs = input_relations(query.in_bindings@, arguments@);
            let clauses = lowered_all(query.where_clauses@, inputs.len() as int);
            match r {
                Ok(plan) => plan.variable_order.deep_view() == convert::variable_order(
                    query.in_bindings@,
                    query.where_clauses@,
                ) && (clauses matches Ok(rest) && descriptor_views(plan.descriptors@) == inputs
                    + rest),
                Err(e) => clauses == Err::<Seq<DescriptorView>, ErrorView>(e@),
            }
        }),
{
    let ghost inputs = input_relations(query.in_bindings@, arguments@);
    let variable_order = query_variable_order(&query.in_bindings, &query.where_clauses);
    let mut builder = DescriptorBuilder::new();
    let mut descriptors: Vec<Descriptor> = Vec::new();
    let mut i: usize = 0;
    assert(descriptor_views(descriptors@) =~= inputs.take(0));
    while i < query.in_bindings.len() && i < arguments.len()
        invariant
            i <= query.in_bindings@.len(),
            i <= arguments@.len(),
            builder.next_id == i,
            inputs == input_relations(query.in_bindings@, arguments@),
            inputs.len() <= usize::MAX,
            forall|j: int|
                0 <= j < query.in_bindings@.len() && j < arguments@.len() ==> binds(
                    #[trigger] query.in_bindings@[j],
                    arguments@[j],
                ),
            descriptor_views(descriptors@) == inputs.take(i as int),
        decreases query.in_bindings@.len() - i,
    {
        let d = builder.relation(&query.in_bindings[i], &arguments[i]);
        let ghost earlier = descriptors@;
        descriptors.push(d);
        proof {
            assert(descriptors@.drop_last() =~= earlier);
            assert(inputs.take(i + 1) =~= inputs.take(i as int).push(inputs[i as int]));
        }
        i += 1;
    }
    assert(inputs.take(i as int) =~= inputs);
    let mut rest = match builder.where_clauses(&query.where_clauses) {
        Ok(rest) => rest,
        Err(e) => {
            return Err(e);
        },
    };
    proof {
        lemma_views_join(descriptors@, rest@);
    }
    descriptors.append(&mut rest);
    Ok(LogicalPlan { variable_order, descriptors })
}

/// The views of two lists, one after the other.
proof fn lemma_views_join(a: Seq<Descriptor>, b: Seq<Descriptor>)
    ensures
        descriptor_views(a + b) == descriptor_views(a) + descriptor_views(b),
    decreases b.len(),
{
    if b.len() == 0 {
        assert(a + b =~= a);
        assert(descriptor_views(a) + descriptor_views(b) =~= descriptor_views(a));
    } else {
        assert((a + b).drop_last() =~= a + b.drop_last());
        lemma_views_join(a, b.drop_last());
        assert(descriptor_views(a + b) =~= descriptor_views(a) + descriptor_views(b));
    }
}

/// The number of a descriptor and those of the descriptors inside it, the outer before the
/// inner and the earlier before the later.
pub open spec fn ids_of(d: DescriptorView) -> Seq<int>
    decreases d, 2int,
{
    match d.kind {
        KindView::Or(branches) => seq![d.id] + ids_of_branches(branches),
        KindView::Not(children) => seq![d.id] + ids_of_all(children),
        _ => seq![d.id],
    }
}

/// The numbers of descriptors.
pub open spec fn ids_of_all(ds: Seq<DescriptorView>) -> Seq<int>
    decreases ds, 0int,
{
    if ds.len() == 0 {
        Seq::empty()
    } else {
        ids_of_all(ds.drop_last()) + ids_of(ds.last())
    }
}

/// The numbers of the descriptors of branches.
pub open spec fn ids_of_branches(branches: Seq<Seq<DescriptorView>>) -> Seq<int>
    decreases branches, 1int,
{
    if branches.len() == 0 {
        Seq::empty()
    } else {
        ids_of_branches(branches.drop_last()) + ids_of_all(branches.last())
    }
}

/// Consecutive numbers.
pub open spec fn numbers(from: int, count: nat) -> Seq<int> {
    Seq::new(count, |i: int| from + i)
}

/// The descriptor of a clause and those inside it are numbered one after another, so that no
/// two of them have the same number.
pub proof fn law_clause_numbers(clause: WhereClause, id: int)
    ensures
        lowered(clause, id) matches Ok(d) ==> ids_of(d) == numbers(id, size(clause)),
    decreases clause, 3int,
{
    match clause {
        WhereClause::OrJoin(or) => {
            lemma_branches_numbers(or.clauses@, id + 1);
            if let Ok(branches) = lowered_branches(or.clauses@, id + 1) {
                assert(seq![id] + numbers(id + 1, size_of_branches(or.clauses@)) =~= numbers(
                    id,
                    size(clause),
                ));
            }
        },
        WhereClause::NotJoin(not) => {
            law_clauses_numbers(not.clauses@, id + 1);
            if let Ok(children) = lowered_all(not.clauses@, id + 1) {
                assert(seq![id] + numbers(id + 1, size_of_all(not.clauses@)) =~= numbers(
                    id,
                    size(clause),
                ));
            }
        },
        _ => {
            assert(seq![id] =~= numbers(id, 1));
        },
    }
}

/// The descriptors of clauses and those inside them are numbered one after another.
pub proof fn law_clauses_numbers(clauses: Seq<WhereClause>, id: int)
    ensures
        lowered_all(clauses, id) matches Ok(ds) ==> ids_of_all(ds) == numbers(
            id,
            size_of_all(clauses),
        ),
    decreases clauses, 0int,
{
    if clauses.len() == 0 {
        assert(numbers(id, 0) =~= Seq::<int>::empty());
    } else {
        let front = clauses.drop_last();
        law_clauses_numbers(front, id);
        law_clause_numbers(clauses.last(), id + size_of_all(front));
        if let Ok(ds) = lowered_all(clauses, id) {
            assert(ds.drop_last() =~= lowered_all(front, id)->Ok_0);
            assert(numbers(id, size_of_all(front)) + numbers(
                id + size_of_all(front),
                size(clauses.last()),
            ) =~= numbers(id, size_of_all(clauses)));
        }
    }
}

/// The same of a branch.
proof fn lemma_branch_numbers(branch: OrWhereClause, id: int)
    ensures
        lowered_branch(branch, id) matches Ok(ds) ==> ids_of_all(ds) == numbers(
            id,
            size_of_branch(branch),
        ),
    decreases branch, 2int,
{
    match branch {
        OrWhereClause::Clause(c) => {
            law_clause_numbers(c, id);
            if let Ok(d) = lowered(c, id) {
                assert(seq![d].drop_last() =~= Seq::<DescriptorView>::empty());
                assert(ids_of_all(Seq::<DescriptorView>::empty()) + ids_of(d) =~= ids_of(d));
            }
        },
        OrWhereClause::And(cs) => {
            law_clauses_numbers(cs@, id);
        },
    }
}

/// The same of branches.
proof fn lemma_branches_numbers(branches: Seq<OrWhereClause>, id: int)
    ensures
        lowered_branches(branches, id) matches Ok(list) ==> ids_of_branches(list) == numbers(
            id,
            size_of_branches(branches),
        ),
    decreases branches, 0int,
{
    if branches.len() == 0 {
        assert(numbers(id, 0) =~= Seq::<int>::empty());
    } else {
        let front = branches.drop_last();
        lemma_branches_numbers(front, id);
        lemma_branch_numbers(branches.last(), id + size_of_branches(front));
        if let Ok(list) = lowered_branches(branches, id) {
            assert(list.drop_last() =~= lowered_branches(front, id)->Ok_0);
            assert(numbers(id, size_of_branches(front)) + numbers(
                id + size_of_branches(front),
                size_of_branch(branches.last()),
            ) =~= numbers(id, size_of_branches(branches)));
        }
    }
}

/// What descriptors are, one by one.
proof fn lemma_views(ds: Seq<Descriptor>, i: int)
    requires
        0 <= i < ds.len(),
    ensures
        descriptor_views(ds).len() == ds.len(),
        descriptor_views(ds)[i] == descriptor_view(ds[i]),
    decreases ds.len(),
{
    let front = ds.drop_last();
    if i < front.len() {
        lemma_views(front, i);
    } else if front.len() > 0 {
        lemma_views(front, 0);
    } else {
        assert(descriptor_views(front).len() == 0);
    }
}

/// An input is planned as a relation of one column, that of its variable, with the given value, or
/// with each of the given values in their order.
pub proof fn law_inputs_are_relations(
    query: ParsedQuery,
    arguments: &[QueryArg],
    plan: LogicalPlan,
    i: int,
)
    requires
        call_ensures(build_logical_plan, (&query, arguments), Ok::<LogicalPlan, Error>(plan)),
        0 <= i < query.in_bindings@.len(),
        i < arguments@.len(),
        query.in_bindings@[i] is BindScalar || query.in_bindings@[i] is BindColl,
    ensures
        i < plan.descriptors@.len(),
        plan.descriptors@[i].id == i,
        plan.descriptors@[i].variables.deep_view() == (match query.in_bindings@[i] {
            Binding::BindScalar(v) => seq![v.name@],
            Binding::BindColl(v) => seq![v.name@],
            _ => Seq::empty(),
        }),
        plan.descriptors@[i].kind matches DescriptorKind::Relation { rows } && value_rows(rows@)
            == (match arguments@[i] {
            QueryArg::Scalar(value) => seq![seq![value@]],
            QueryArg::Collection(list) => Seq::new(list@.len(), |k: int| seq![list@[k]@]),
        }),
{
    let inputs = input_relations(query.in_bindings@, arguments@);
    let rest = lowered_all(query.where_clauses@, inputs.len() as int)->Ok_0;
    let all = descriptor_views(plan.descriptors@);
    assert(all == inputs + rest);
    assert(all[i] == inputs[i]);
    lemma_view_count(plan.descriptors@);
    lemma_views(plan.descriptors@, i);
}

/// There is one view for each descriptor.
proof fn lemma_view_count(ds: Seq<Descriptor>)
    ensures
        descriptor_views(ds).len() == ds.len(),
    decreases ds.len(),
{
    if ds.len() > 0 {
        lemma_view_count(ds.drop_last());
    }
}

/// A pattern is planned as a triple of its own, a condition and a function with the variables that
/// they read, and what a function binds; a disjunction and a negation with what is inside them, and
/// with the variables of that.
pub proof fn law_clauses_are_planned(clause: WhereClause, id: int, d: DescriptorView)
    requires
        lowered(clause, id) == Ok::<DescriptorView, ErrorView>(d),
    ensures
        d.id == id,
        match clause {
            WhereClause::Pattern(p) => d.kind == KindView::Triple(p@) && d.names
                == convert::pattern_names(p@),
            WhereClause::Pred(p) => convert::converted(p.expr) matches Ok(e) && d.kind
                == KindView::Predicate(e) && forall|x: Name| #[trigger]
                d.names.contains(x) == expr::occurrences(e).contains(x),
            WhereClause::WhereFn(f) => convert::converted_fn(f) matches Ok(made) && (
            d.kind matches KindView::Function(e, inputs, output) && e == made.0 && output == made.1
                && (forall|x: Name| #[trigger]
                inputs.contains(x) == expr::occurrences(e).contains(x)) && forall|x: Name|
                #[trigger]
                d.names.contains(x) == (inputs.contains(x) || x == output)),
            WhereClause::OrJoin(or) => d.kind matches KindView::Or(branches) && branches.len()
                == or.clauses@.len(),
            WhereClause::NotJoin(not) => d.kind matches KindView::Not(children) && children.len()
                == not.clauses@.len(),
            _ => false,
        },
{
    match clause {
        WhereClause::Pred(p) => {
            let e = convert::converted(p.expr)->Ok_0;
            lemma_variables(e);
        },
        WhereClause::WhereFn(f) => {
            let made = convert::converted_fn(f)->Ok_0;
            lemma_variables(made.0);
            expr::lemma_with_new(expr::variables_of(made.0), seq![made.1]);
            assert(seq![made.1][0] == made.1);
        },
        WhereClause::OrJoin(or) => {
            lemma_branch_count(or.clauses@, id + 1);
        },
        WhereClause::NotJoin(not) => {
            lemma_clause_count(not.clauses@, id + 1);
        },
        _ => {},
    }
}

/// The variables of an expression are those that occur in it.
proof fn lemma_variables(e: ExprView)
    ensures
        forall|x: Name| #[trigger]
            expr::variables_of(e).contains(x) == expr::occurrences(e).contains(x),
{
    expr::lemma_with_new(Seq::<Name>::empty(), expr::occurrences(e));
    assert forall|x: Name| #[trigger] expr::variables_of(e).contains(x) == expr::occurrences(
        e,
    ).contains(x) by {
        assert(!Seq::<Name>::empty().contains(x));
    }
}

/// There is one list of descriptors for each branch.
proof fn lemma_branch_count(branches: Seq<OrWhereClause>, id: int)
    ensures
        lowered_branches(branches, id) matches Ok(list) ==> list.len() == branches.len(),
    decreases branches.len(),
{
    if branches.len() > 0 {
        lemma_branch_count(branches.drop_last(), id);
    }
}

/// There is one descriptor for each clause.
proof fn lemma_clause_count(clauses: Seq<WhereClause>, id: int)
    ensures
        lowered_all(clauses, id) matches Ok(list) ==> list.len() == clauses.len(),
    decreases clauses.len(),
{
    if clauses.len() > 0 {
        lemma_clause_count(clauses.drop_last(), id);
    }
}

} // verus!
