//! Patterns that keep the rows on which a condition holds.

use vstd::prelude::*;

use crate::byte_string::{self, copy_row, Row};
use crate::error::{Error, ErrorView};
use crate::expr::{self, expr_variables, Expr, ExprView};
use crate::query::binding_bag::{self, BindingBag, BindingRow, Relation};
use crate::query::exec_pattern::{ExecPattern, Proposal};
use crate::query::patterns::evaluation::{self, binding_positions, row_values};
use crate::query::plan::PatternId;
use crate::value::{DataType, Value};
use crate::text;
use crate::variable::{self, copy_all, list_text, same_all, Name, Variable};

verus! {

/// A pattern that keeps the rows on which its expression holds. What decides that is told the
/// expression, its variables and their values.
pub struct PredicatePattern<F: Fn(&Expr, &Vec<Variable>, &Vec<DataType>) -> bool> {
    pub id: PatternId,
    pub variables: Vec<Variable>,
    pub expression: Expr,
    pub holds: F,
}

/// Whether an expression is given a verdict where its variables have these values.
pub open spec fn says<F: Fn(&Expr, &Vec<Variable>, &Vec<DataType>) -> bool>(
    holds: F,
    expression: ExprView,
    names: Seq<Name>,
    values: Seq<Value>,
    verdict: bool,
) -> bool {
    exists|e: Expr, n: Vec<Variable>, v: Vec<DataType>|
        e@ == expression && n.deep_view() == names && v.deep_view() == values
            && #[trigger] call_ensures(holds, (&e, &n, &v), verdict)
}

/// The rows with a verdict that holds.
pub open spec fn kept(rows: Seq<Row>, verdicts: Seq<bool>) -> Seq<Row>
    decreases rows.len(),
{
    if rows.len() == 0 {
        Seq::empty()
    } else {
        let earlier = kept(rows.drop_last(), verdicts.drop_last());
        if verdicts.last() {
            earlier.push(rows.last())
        } else {
            earlier
        }
    }
}

/// Why a predicate refuses an input, if it does.
pub open spec fn refusal(
    id: PatternId,
    names: Seq<Name>,
    input: Relation,
    added: Seq<Name>,
    target: Seq<Name>,
) -> Option<ErrorView> {
    if added.len() > 0 {
        Some(ErrorView::PredicateCannotPropose(id, text::listed(added)))
    } else if target != input.variables {
        Some(ErrorView::PredicateLayout(id))
    } else if !evaluation::all_columns(input.variables, names) {
        Some(
            ErrorView::PredicateUnbound(
                id,
                variable::first_missing(names, input.variables).unwrap(),
            ),
        )
    } else if exists|i: int|
        0 <= i < input.rows.len() && !evaluation::readable(
            #[trigger] input.rows[i],
            binding_bag::columns(input.variables, names),
        ) {
        Some(ErrorView::Decode)
    } else {
        None
    }
}

impl<F: Fn(&Expr, &Vec<Variable>, &Vec<DataType>) -> bool> PredicatePattern<F> {
    /// The verdicts of the condition on the rows of an input.
    pub open spec fn verdicts_on(self, input: Relation, verdicts: Seq<bool>) -> bool {
        let cols = binding_bag::columns(input.variables, self.variables.deep_view());
        verdicts.len() == input.rows.len() && forall|i: int|
            0 <= i < verdicts.len() ==> says(
                self.holds,
                self.expression@,
                self.names(),
                evaluation::values_at(input.rows[i], cols),
                #[trigger] verdicts[i],
            )
    }

    /// A pattern that keeps the rows on which an expression holds.
    pub fn new(id: PatternId, expression: Expr, holds: F) -> (r: Self)
        requires
            forall|e: Expr, n: Vec<Variable>, v: Vec<DataType>| #[trigger]
                call_requires(holds, (&e, &n, &v)),
        ensures
            r.id == id,
            r.holds == holds,
            r.expression == expression,
            r.variables.deep_view() == expr::variables_of(expression@),
            r.inv(),
    {
        let variables = expr_variables(&expression);
        PredicatePattern { id, variables, expression, holds }
    }
}

impl<F: Fn(&Expr, &Vec<Variable>, &Vec<DataType>) -> bool> ExecPattern for PredicatePattern<F> {
    open spec fn pattern_id(&self) -> PatternId {
        self.id
    }

    open spec fn names(&self) -> Seq<Name> {
        self.variables.deep_view()
    }

    open spec fn inv(&self) -> bool {
        forall|e: Expr, n: Vec<Variable>, v: Vec<DataType>| #[trigger]
            call_requires(self.holds, (&e, &n, &v))
    }

    fn id(&self) -> (r: PatternId) {
        self.id
    }

    fn variables(&self) -> (r: &[Variable]) {
        &self.variables
    }

    fn count(
        &self,
        input: &BindingBag,
        added: &[Variable],
        proposals: &mut Vec<Proposal>,
    ) -> (r: Result<(), Error>)
        ensures
            r is Ok,
            final(proposals)@ == old(proposals)@,
    {
        Ok(())
    }

    fn join(
        &self,
        input: &BindingBag,
        added: &[Variable],
        target_variables: &[Variable],
    ) -> (r: Result<BindingBag, Error>)
        ensures
            match r {
                Ok(bag) => refusal(
                    self.id,
                    self.names(),
                    input@,
                    added.deep_view(),
                    target_variables.deep_view(),
                ) is None && exists|verdicts: Seq<bool>| #[trigger]
                    self.verdicts_on(input@, verdicts) && bag@.rows == kept(input@.rows, verdicts),
                Err(e) => refusal(
                    self.id,
                    self.names(),
                    input@,
                    added.deep_view(),
                    target_variables.deep_view(),
                ) == Some(e@),
            },
    {
        assert(added.deep_view().len() == added@.len());
        if added.len() > 0 {
            return Err(Error::PredicateCannotPropose(self.id, list_text(added)));
        }
        if !same_all(target_variables, &input.variables) {
            return Err(Error::PredicateLayout(self.id));
        }
        proof {
            variable::lemma_none_missing(self.names(), input@.variables);
        }
        if let Some(v) = variable::missing(&self.variables, &input.variables) {
            return Err(Error::PredicateUnbound(self.id, v.name));
        }
        let cols = match binding_positions(input, &self.variables) {
            Ok(cols) => cols,
            Err(e) => {
                return Err(e);
            },
        };
        let ghost all = input@.rows;
        let ghost mut verdicts: Seq<bool> = Seq::empty();
        let mut rows: Vec<BindingRow> = Vec::new();
        let mut i: usize = 0;
        assert(rows.deep_view() =~= kept(all.take(0), verdicts));
        while i < input.rows.len()
            invariant
                i <= input.rows@.len(),
                all == input@.rows,
                input@.wf(),
                self.inv(),
                added.deep_view().len() == 0,
                target_variables.deep_view() == input@.variables,
                evaluation::all_columns(input@.variables, self.names()),
                cols@ == binding_bag::columns(input@.variables, self.names()),
                forall|j: int| 0 <= j < cols@.len() ==> #[trigger] cols@[j] < input@.variables.len(),
                forall|j: int| 0 <= j < i ==> evaluation::readable(#[trigger] all[j], cols@),
                verdicts.len() == i,
                forall|j: int|
                    0 <= j < i ==> says(
                        self.holds,
                        self.expression@,
                        self.names(),
                        evaluation::values_at(all[j], cols@),
                        #[trigger] verdicts[j],
                    ),
                rows.deep_view() == kept(all.take(i as int), verdicts),
                binding_bag::uniform(rows.deep_view(), input@.variables.len()),
            decreases input.rows@.len() - i,
        {
            assert(all[i as int].len() == input.rows@[i as int]@.len());
            let values = match row_values(&input.rows[i], &cols) {
                Ok(values) => values,
                Err(e) => {
                    return Err(e);
                },
            };
            let verdict = (self.holds)(&self.expression, &self.variables, &values);
            proof {
                assert(says(
                    self.holds,
                    self.expression@,
                    self.names(),
                    evaluation::values_at(all[i as int], cols@),
                    verdict,
                ));
                assert(all.take(i + 1).drop_last() =~= all.take(i as int));
                assert(verdicts.push(verdict).drop_last() =~= verdicts);
                verdicts = verdicts.push(verdict);
            }
            if verdict {
                let row = copy_row(&input.rows[i]);
                let ghost earlier = rows;
                rows.push(row);
                proof {
                    byte_string::lemma_deep_push(earlier, rows, row);
                }
            }
            i += 1;
        }
        proof {
            assert(all.take(i as int) =~= all);
            assert(self.verdicts_on(input@, verdicts));
        }
        Ok(BindingBag { variables: copy_all(&input.variables), rows })
    }
}

} // verus!
