//! Patterns that bind, or check, the result of a function.

use vstd::prelude::*;

use crate::byte_string::{self, copy_row, Row};
use crate::codec;
use crate::error::{Error, ErrorView};
use crate::expr::{self, expr_variables, Expr, ExprView};
use crate::query::binding_bag::{self, BindingBag, BindingRow, Relation};
use crate::query::exec_pattern::{self, ExecPattern, Proposal};
use crate::query::patterns::evaluation::{self, binding_positions, row_values};
use crate::query::plan::PatternId;
use crate::value::{DataType, Value};
use crate::variable::{self, contains, copy_all, same_all, Name, Variable};

verus! {

/// A pattern that binds its output to the result of an expression. What computes it is told the
/// expression, its variables and their values, and may have no result on them.
pub struct FunctionPattern<F: Fn(&Expr, &Vec<Variable>, &Vec<DataType>) -> Option<DataType>> {
    pub id: PatternId,
    pub variables: Vec<Variable>,
    pub input_variables: Vec<Variable>,
    pub output: Variable,
    pub expression: Expr,
    pub compute: F,
}

/// What a result is.
pub open spec fn result_view(result: Option<DataType>) -> Option<Value> {
    match result {
        Some(v) => Some(v@),
        None => None,
    }
}

/// Whether an expression is given a result where its variables have these values.
pub open spec fn gives<F: Fn(&Expr, &Vec<Variable>, &Vec<DataType>) -> Option<DataType>>(
    compute: F,
    expression: ExprView,
    names: Seq<Name>,
    values: Seq<Value>,
    result: Option<Value>,
) -> bool {
    exists|e: Expr, n: Vec<Variable>, v: Vec<DataType>, out: Option<DataType>|
        e@ == expression && n.deep_view() == names && v.deep_view() == values
            && #[trigger] call_ensures(compute, (&e, &n, &v), out) && result_view(out) == result
}

/// The rows whose value in a column is the result.
pub open spec fn confirmed(rows: Seq<Row>, col: int, results: Seq<Option<Value>>) -> Seq<Row>
    decreases rows.len(),
{
    if rows.len() == 0 {
        Seq::empty()
    } else {
        let earlier = confirmed(rows.drop_last(), col, results.drop_last());
        if results.last() == Some(codec::decoded(rows.last()[col]).unwrap().0) {
            earlier.push(rows.last())
        } else {
            earlier
        }
    }
}

/// The extension by a result: one where there is a result, none where there is not.
pub open spec fn extension(result: Option<Value>) -> Seq<Row> {
    match result {
        Some(v) => seq![seq![codec::encoding(v)]],
        None => Seq::empty(),
    }
}

/// The extensions of all rows.
pub open spec fn extensions(results: Seq<Option<Value>>) -> Seq<Seq<Row>> {
    Seq::new(results.len(), |i: int| extension(results[i]))
}

/// Whether every row can be read at the columns.
pub open spec fn all_readable(rows: Seq<Row>, cols: Seq<usize>) -> bool {
    forall|i: int| 0 <= i < rows.len() ==> evaluation::readable(#[trigger] rows[i], cols)
}

impl<F: Fn(&Expr, &Vec<Variable>, &Vec<DataType>) -> Option<DataType>> FunctionPattern<F> {
    /// The columns of the input variables.
    pub open spec fn input_columns(self, input: Relation) -> Seq<usize> {
        binding_bag::columns(input.variables, self.input_variables.deep_view())
    }

    /// The results of the function on the rows of an input.
    pub open spec fn results_on(self, input: Relation, results: Seq<Option<Value>>) -> bool {
        results.len() == input.rows.len() && forall|i: int|
            0 <= i < results.len() ==> gives(
                self.compute,
                self.expression@,
                self.input_variables.deep_view(),
                evaluation::values_at(input.rows[i], self.input_columns(input)),
                #[trigger] results[i],
            )
    }

    /// Whether the pattern can add its output to an input.
    pub open spec fn applies(self, input: Relation, added: Seq<Name>) -> bool {
        added == seq![self.output@] && !input.variables.contains(self.output@)
            && evaluation::all_columns(input.variables, self.input_variables.deep_view())
    }

    /// Why the pattern refuses an input, if it does.
    pub open spec fn refusal(
        self,
        input: Relation,
        added: Seq<Name>,
        target: Seq<Name>,
    ) -> Option<ErrorView> {
        if !evaluation::all_columns(input.variables, self.input_variables.deep_view()) {
            Some(
                ErrorView::FunctionUnbound(
                    self.id,
                    variable::first_missing(
                        self.input_variables.deep_view(),
                        input.variables,
                    ).unwrap(),
                ),
            )
        } else if added.len() == 0 {
            if target != input.variables {
                Some(ErrorView::FunctionLayout(self.id))
            } else if !input.variables.contains(self.output@) {
                Some(ErrorView::FunctionUnboundOutput(self.id, self.output@))
            } else if !all_readable(input.rows, self.input_columns(input)) || !all_readable(
                input.rows,
                seq![input.variables.index_of(self.output@) as usize],
            ) {
                Some(ErrorView::Decode)
            } else {
                None
            }
        } else if added != seq![self.output@] {
            Some(ErrorView::FunctionCannotPropose(self.id, self.output@))
        } else if input.variables.contains(self.output@) {
            Some(ErrorView::FunctionBoundOutput(self.id, self.output@))
        } else if !all_readable(input.rows, self.input_columns(input)) {
            Some(ErrorView::Decode)
        } else if target.len() != input.variables.len() + 1 {
            Some(ErrorView::ReorderLayout)
        } else {
            binding_bag::projection_fault(input.variables + added, target)
        }
    }

    /// What a join gives, once the results are known.
    pub open spec fn joined(
        self,
        input: Relation,
        added: Seq<Name>,
        target: Seq<Name>,
        results: Seq<Option<Value>>,
    ) -> Relation {
        if added.len() == 0 {
            Relation {
                variables: input.variables,
                rows: confirmed(input.rows, input.variables.index_of(self.output@), results),
            }
        } else {
            (Relation {
                variables: input.variables + added,
                rows: binding_bag::extended(input.rows, extensions(results)),
            }).spec_project(target)
        }
    }

    /// A pattern that binds `output` to the result of an expression over other variables.
    pub fn new(id: PatternId, expression: Expr, output: Variable, compute: F) -> (r: Result<
        Self,
        Error,
    >)
        requires
            forall|e: Expr, n: Vec<Variable>, v: Vec<DataType>| #[trigger]
                call_requires(compute, (&e, &n, &v)),
        ensures
            match r {
                Ok(p) => p.inv() && p.id == id && p.compute == compute && p.expression == expression
                    && p.output@ == output@
                    && p.input_variables.deep_view() == expr::variables_of(expression@)
                    && p.variables.deep_view() == expr::variables_of(expression@).push(output@)
                    && !expr::variables_of(expression@).contains(output@),
                Err(e) => e@ == ErrorView::OutputIsInput(id, output@) && expr::variables_of(expression@).contains(
                    output@,
                ),
            },
    {
        let input_variables = expr_variables(&expression);
        if contains(&input_variables, &output) {
            return Err(Error::OutputIsInput(id, output.name));
        }
        let mut variables = copy_all(&input_variables);
        let copy = output.clone();
        let ghost earlier = variables;
        variables.push(copy);
        proof {
            byte_string::lemma_deep_push(earlier, variables, copy);
        }
        Ok(FunctionPattern { id, variables, input_variables, output, expression, compute })
    }

    /// The results of the function on the rows of an input.
    fn results(&self, input: &BindingBag, cols: &Vec<usize>) -> (r: Result<
        Vec<Option<DataType>>,
        Error,
    >)
        requires
            self.inv(),
            input@.wf(),
            cols@ == self.input_columns(input@),
            forall|i: int| 0 <= i < cols@.len() ==> #[trigger] cols@[i] < input@.variables.len(),
        ensures
            match r {
                Ok(out) => all_readable(input@.rows, cols@) && self.results_on(
                    input@,
                    result_views(out@),
                ),
                Err(e) => e@ == ErrorView::Decode && !all_readable(input@.rows, cols@),
            },
    {
        let ghost all = input@.rows;
        let mut out: Vec<Option<DataType>> = Vec::new();
        let mut i: usize = 0;
        while i < input.rows.len()
            invariant
                i <= input.rows@.len(),
                all == input@.rows,
                self.inv(),
                input@.wf(),
                cols@ == self.input_columns(input@),
                forall|j: int| 0 <= j < cols@.len() ==> #[trigger] cols@[j] < input@.variables.len(),
                forall|j: int| 0 <= j < i ==> evaluation::readable(#[trigger] all[j], cols@),
                out@.len() == i,
                forall|j: int|
                    0 <= j < i ==> gives(
                        self.compute,
                        self.expression@,
                        self.input_variables.deep_view(),
                        evaluation::values_at(all[j], cols@),
                        result_view(#[trigger] out@[j]),
                    ),
            decreases input.rows@.len() - i,
        {
            assert(all[i as int].len() == input.rows@[i as int]@.len());
            let values = match row_values(&input.rows[i], cols) {
                Ok(values) => values,
                Err(e) => {
                    return Err(e);
                },
            };
            let result = (self.compute)(&self.expression, &self.input_variables, &values);
            proof {
                assert(gives(
                    self.compute,
                    self.expression@,
                    self.input_variables.deep_view(),
                    evaluation::values_at(all[i as int], cols@),
                    result_view(result),
                ));
            }
            out.push(result);
            i += 1;
        }
        Ok(out)
    }
}

/// What results are.
pub open spec fn result_views(results: Seq<Option<DataType>>) -> Seq<Option<Value>> {
    Seq::new(results.len(), |i: int| result_view(results[i]))
}

impl<F: Fn(&Expr, &Vec<Variable>, &Vec<DataType>) -> Option<DataType>> ExecPattern for FunctionPattern<F> {
    open spec fn pattern_id(&self) -> PatternId {
        self.id
    }

    open spec fn names(&self) -> Seq<Name> {
        self.variables.deep_view()
    }

    open spec fn inv(&self) -> bool {
        forall|e: Expr, n: Vec<Variable>, v: Vec<DataType>| #[trigger]
            call_requires(self.compute, (&e, &n, &v))
    }

    fn id(&self) -> (r: PatternId) {
        self.id
    }

    fn variables(&self) -> (r: &[Variable]) {
        &self.variables
    }

    fn count(
        &self,
        input: &BindingBag,
        added: &[Variable],
        proposals: &mut Vec<Proposal>,
    ) -> (r: Result<(), Error>)
        ensures
            match r {
                Err(e) => if old(proposals)@.len() != input@.rows.len() {
                    e@ == ErrorView::FunctionProposals(
                        self.id,
                        old(proposals)@.len() as usize,
                        input@.rows.len() as usize,
                    )
                } else {
                    e@ == ErrorView::Decode && self.applies(input@, added.deep_view()) && !all_readable(
                        input@.rows,
                        self.input_columns(input@),
                    )
                },
                Ok(_) => old(proposals)@.len() == input@.rows.len() && if self.applies(
                    input@,
                    added.deep_view(),
                ) {
                    exists|results: Seq<Option<Value>>| #[trigger]
                        self.results_on(input@, results) && forall|i: int|
                            0 <= i < results.len() ==> #[trigger] final(proposals)@[i] == (
                            if results[i] is Some {
                                exec_pattern::considered(old(proposals)@[i], self.id, 1)
                            } else {
                                old(proposals)@[i]
                            })
                } else {
                    final(proposals)@ == old(proposals)@
                },
            },
    {
        assert(input@.rows.len() == input.rows@.len());
        if proposals.len() != input.rows.len() {
            return Err(
                Error::FunctionProposals(self.id, proposals.len(), input.rows.len()),
            );
        }
        assert(added.deep_view().len() == added@.len());
        if added.len() != 1 || !added[0].same(&self.output) {
            assert(added.deep_view() != seq![self.output@]) by {
                if added@.len() == 1 {
                    assert(added.deep_view()[0] != self.output@);
                }
            }
            return Ok(());
        }
        assert(added.deep_view() =~= seq![self.output@]);
        if contains(&input.variables, &self.output) {
            return Ok(());
        }
        let cols = match binding_positions(input, &self.input_variables) {
            Ok(cols) => cols,
            Err(_) => {
                return Ok(());
            },
        };
        let results = match self.results(input, &cols) {
            Ok(results) => results,
            Err(e) => {
                return Err(e);
            },
        };
        let ghost views = result_views(results@);
        let mut i: usize = 0;
        while i < results.len()
            invariant
                i <= results@.len() == proposals@.len() == old(proposals)@.len(),
                views == result_views(results@),
                forall|j: int|
                    0 <= j < i ==> #[trigger] proposals@[j] == (if views[j] is Some {
                        exec_pattern::considered(old(proposals)@[j], self.id, 1)
                    } else {
                        old(proposals)@[j]
                    }),
                forall|j: int|
                    i <= j < proposals@.len() ==> #[trigger] proposals@[j] == old(proposals)@[j],
            decreases results@.len() - i,
        {
            if results[i].is_some() {
                let mut proposal = proposals[i];
                proposal.consider(self.id, 1);
                proposals.set(i, proposal);
            }
            i += 1;
        }
        assert(self.results_on(input@, views));
        Ok(())
    }

    fn join(
        &self,
        input: &BindingBag,
        added: &[Variable],
        target_variables: &[Variable],
    ) -> (r: Result<BindingBag, Error>)
        ensures
            match r {
                Ok(bag) => self.refusal(
                    input@,
                    added.deep_view(),
                    target_variables.deep_view(),
                ) is None && exists|results: Seq<Option<Value>>| #[trigger]
                    self.results_on(input@, results) && bag@ == self.joined(
                        input@,
                        added.deep_view(),
                        target_variables.deep_view(),
                        results,
                    ),
                Err(e) => self.refusal(input@, added.deep_view(), target_variables.deep_view())
                    == Some(e@),
            },
    {
        let ghost target = target_variables.deep_view();
        assert(added.deep_view().len() == added@.len());
        proof {
            variable::lemma_none_missing(self.input_variables.deep_view(), input@.variables);
        }
        if let Some(v) = variable::missing(&self.input_variables, &input.variables) {
            return Err(Error::FunctionUnbound(self.id, v.name));
        }
        let cols = match binding_positions(input, &self.input_variables) {
            Ok(cols) => cols,
            Err(e) => {
                return Err(e);
            },
        };
        if added.len() == 0 {
            if !same_all(target_variables, &input.variables) {
                return Err(Error::FunctionLayout(self.id));
            }
            let col: usize = match input.column_index(&self.output) {
                Ok(col) => col,
                Err(_) => {
                    return Err(
                        Error::FunctionUnboundOutput(self.id, self.output.name.clone()),
                    );
                },
            };
            let results = match self.results(input, &cols) {
                Ok(results) => results,
                Err(e) => {
                    return Err(e);
                },
            };
            let rows = match confirm(input, col, &results) {
                Ok(rows) => rows,
                Err(e) => {
                    return Err(e);
                },
            };
            let bag = BindingBag { variables: copy_all(&input.variables), rows };
            proof {
                let views = result_views(results@);
                assert(self.results_on(input@, views));
                assert(bag@ =~= self.joined(input@, added.deep_view(), target, views));
            }
            return Ok(bag);
        }
        if added.len() != 1 || !added[0].same(&self.output) {
            assert(added.deep_view() != seq![self.output@]) by {
                if added@.len() == 1 {
                    assert(added.deep_view()[0] != self.output@);
                }
            }
            return Err(Error::FunctionCannotPropose(self.id, self.output.name.clone()));
        }
        assert(added.deep_view() =~= seq![self.output@]);
        if contains(&input.variables, &self.output) {
            return Err(Error::FunctionBoundOutput(self.id, self.output.name.clone()));
        }
        let results = match self.results(input, &cols) {
            Ok(results) => results,
            Err(e) => {
                return Err(e);
            },
        };
        let more = result_extensions(&results);
        let ghost views = result_views(results@);
        proof {
            assert(self.results_on(input@, views));
            assert(more.deep_view().len() == more@.len());
            assert(input@.variables + added.deep_view() =~= input@.variables.push(self.output@));
            binding_bag::lemma_unique_push(input@.variables, self.output@);
        }
        match input.extend_rows(copy_all(added), more) {
            Ok(wide) => wide.reorder(target_variables),
            Err(e) => Err(e),
        }
    }
}

/// The rows whose value in a column is the result.
fn confirm(input: &BindingBag, col: usize, results: &Vec<Option<DataType>>) -> (r: Result<
    Vec<BindingRow>,
    Error,
>)
    requires
        input@.wf(),
        col < input@.variables.len(),
        results@.len() == input@.rows.len(),
    ensures
        match r {
            Ok(rows) => all_readable(input@.rows, seq![col]) && rows.deep_view() == confirmed(
                input@.rows,
                col as int,
                result_views(results@),
            ) && binding_bag::uniform(rows.deep_view(), input@.variables.len()),
            Err(e) => e@ == ErrorView::Decode && !all_readable(input@.rows, seq![col]),
        },
{
    let ghost all = input@.rows;
    let ghost views = result_views(results@);
    let mut rows: Vec<BindingRow> = Vec::new();
    let mut i: usize = 0;
    assert(rows.deep_view() =~= confirmed(all.take(0), col as int, views.take(0)));
    while i < input.rows.len()
        invariant
            i <= input.rows@.len() == all.len() == results@.len(),
            all == input@.rows,
            input@.wf(),
            col < input@.variables.len(),
            views == result_views(results@),
            forall|j: int| 0 <= j < i ==> evaluation::readable(#[trigger] all[j], seq![col]),
            rows.deep_view() == confirmed(all.take(i as int), col as int, views.take(i as int)),
            binding_bag::uniform(rows.deep_view(), input@.variables.len()),
        decreases input.rows@.len() - i,
    {
        let ghost row_view = all[i as int];
        proof {
            assert(row_view.len() == input.rows@[i as int]@.len());
            byte_string::lemma_deep_bytes(&input.rows@[i as int]@[col as int]);
            assert(all.take(i + 1).drop_last() =~= all.take(i as int));
            assert(views.take(i + 1).drop_last() =~= views.take(i as int));
        }
        let value = match codec::decode(&input.rows[i][col]) {
            Ok(value) => value,
            Err(e) => {
                assert(!evaluation::readable(row_view, seq![col])) by {
                    assert(seq![col][0] == col);
                }
                return Err(e);
            },
        };
        let same = match &results[i] {
            Some(result) => result.same(&value),
            None => false,
        };
        if same {
            let row = copy_row(&input.rows[i]);
            let ghost earlier = rows;
            rows.push(row);
            proof {
                byte_string::lemma_deep_push(earlier, rows, row);
            }
        }
        i += 1;
    }
    assert(all.take(i as int) =~= all);
    assert(views.take(i as int) =~= views);
    Ok(rows)
}

/// The extensions of all rows.
fn result_extensions(results: &Vec<Option<DataType>>) -> (r: Vec<Vec<BindingRow>>)
    ensures
        r.deep_view() == extensions(result_views(results@)),
        forall|i: int|
            0 <= i < r@.len() ==> binding_bag::uniform(#[trigger] r.deep_view()[i], 1),
{
    let ghost views = result_views(results@);
    let mut out: Vec<Vec<BindingRow>> = Vec::new();
    let mut i: usize = 0;
    assert(out.deep_view() =~= extensions(views.take(0)));
    while i < results.len()
        invariant
            i <= results@.len(),
            out@.len() == i,
            views == result_views(results@),
            out.deep_view() == extensions(views.take(i as int)),
        decreases results@.len() - i,
    {
        let mut rows: Vec<BindingRow> = Vec::new();
        assert(rows.deep_view() =~= Seq::<Row>::empty());
        if let Some(value) = &results[i] {
            let mut row: BindingRow = Vec::new();
            let bytes = codec::encode(value);
            let ghost no_row = row;
            let ghost no_rows = rows;
            row.push(bytes);
            proof {
                byte_string::lemma_deep_bytes(&bytes);
                byte_string::lemma_deep_push(no_row, row, bytes);
                assert(row.deep_view() =~= seq![bytes@]);
            }
            rows.push(row);
            proof {
                byte_string::lemma_deep_push(no_rows, rows, row);
                assert(rows.deep_view() =~= extension(views[i as int]));
            }
        }
        let ghost earlier = out;
        out.push(rows);
        proof {
            byte_string::lemma_deep_push(earlier, out, rows);
        }
        i += 1;
        assert(out.deep_view() =~= extensions(views.take(i as int)));
    }
    assert(views.take(i as int) =~= views);
    out
}

} // verus!
