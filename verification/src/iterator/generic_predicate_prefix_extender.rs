//! Extenders that allow the values on which a condition holds.

use vstd::prelude::*;

use crate::algo::generic_join::{self, Extension, Prefix, PrefixExtender};
use crate::byte_string::{self, Row};
use crate::codec;
use crate::error::{self, Error, ErrorView};
use crate::expr::{Expr, ExprView};
use crate::iterator::prefix_values::{self, bound_names, prefix_values};
use crate::query::patterns::evaluation;
use crate::query::patterns::predicate;
use crate::value::{copy_values, DataType, Value};
use crate::variable::{Name, Variable};

verus! {

/// An extender that allows, at one level, the values on which an expression holds. What decides
/// that is told the expression, the variables bound before and the one of the level, and their
/// values. It proposes nothing.
pub struct GenericPredicatePrefixExtender<F: Fn(&Expr, &Vec<Variable>, &Vec<DataType>) -> bool> {
    pub expr: Expr,
    pub prefix_vars: Vec<(Variable, usize)>,
    pub extension_var: Variable,
    pub level: usize,
    pub holds: F,
}

/// Whether any expression can be asked about and its verdict depends on the values alone.
pub open spec fn decides<F: Fn(&Expr, &Vec<Variable>, &Vec<DataType>) -> bool>(holds: F) -> bool {
    &&& forall|e: Expr, n: Vec<Variable>, v: Vec<DataType>| #[trigger]
        call_requires(holds, (&e, &n, &v))
    &&& forall|expression: ExprView, names: Seq<Name>, values: Seq<Value>|
        #![trigger predicate::says(holds, expression, names, values, true)]
        #![trigger predicate::says(holds, expression, names, values, false)]
        !(predicate::says(holds, expression, names, values, true) && predicate::says(
            holds,
            expression,
            names,
            values,
            false,
        ))
}

impl<F: Fn(&Expr, &Vec<Variable>, &Vec<DataType>) -> bool> GenericPredicatePrefixExtender<F> {
    /// The variables of which the values are told.
    pub open spec fn names(self) -> Seq<Name> {
        prefix_values::names_of(self.prefix_vars@).push(self.extension_var@)
    }

    /// The values that are told.
    pub open spec fn told(self, prefix: Row, value: Seq<u8>) -> Seq<Value> {
        evaluation::values_at(prefix, prefix_values::levels_of(self.prefix_vars@)).push(
            codec::decoded(value).unwrap().0,
        )
    }

    /// An extender of the condition.
    pub fn new(
        expr: Expr,
        prefix_vars: Vec<(Variable, usize)>,
        extension_var: Variable,
        level: usize,
        holds: F,
    ) -> (r: Self)
        requires
            decides(holds),
        ensures
            r.inv(),
            r.expr == expr,
            r.prefix_vars == prefix_vars,
            r.extension_var == extension_var,
            r.level == level,
            r.holds == holds,
    {
        GenericPredicatePrefixExtender { expr, prefix_vars, extension_var, level, holds }
    }
}

impl<F: Fn(&Expr, &Vec<Variable>, &Vec<DataType>) -> bool> PrefixExtender for GenericPredicatePrefixExtender<F> {
    open spec fn inv(&self) -> bool {
        decides(self.holds)
    }

    open spec fn joins(&self, level: int) -> bool {
        level == self.level
    }

    open spec fn accepts(&self, prefix: Row, value: Seq<u8>) -> bool {
        predicate::says(self.holds, self.expr@, self.names(), self.told(prefix, value), true)
    }

    open spec fn judges(&self, prefix: Row, value: Seq<u8>) -> bool {
        prefix_values::usable(self.prefix_vars@, prefix) && codec::decoded(value) is Some
    }

    open spec fn offers(&self, prefix: Row) -> bool {
        false
    }

    open spec fn lists(&self, prefix: Row, value: Seq<u8>) -> bool {
        false
    }

    open spec fn refusal(&self, prefix: Row) -> Option<ErrorView> {
        Some(ErrorView::PredicateProposes)
    }

    open spec fn filters(&self) -> bool {
        true
    }

    open spec fn refuses(&self, prefix: Row, e: ErrorView) -> bool {
        e == ErrorView::PredicateProposes
    }

    open spec fn objects(&self, prefix: Row, values: Seq<Seq<u8>>, e: ErrorView) -> bool {
        values.len() > 0 && if prefix_values::usable(self.prefix_vars@, prefix) {
            e == ErrorView::Decode && exists|i: int|
                0 <= i < values.len() && codec::decoded(#[trigger] values[i]) is None
        } else {
            e == prefix_values::unusable(self.prefix_vars@, prefix)
        }
    }

    open spec fn counted(&self, prefix: Row) -> usize {
        usize::MAX
    }

    open spec fn counts(&self, prefix: Row) -> bool {
        true
    }

    fn count(&self, _prefix: &Prefix) -> (r: Result<usize, Error>) {
        Ok(usize::MAX)
    }

    /// Always refused: what a condition allows cannot be listed.
    fn propose(&self, _prefix: &Prefix) -> (r: Result<Vec<Extension>, Error>)
        ensures
            error::told(r) == Err::<Vec<Extension>, ErrorView>(ErrorView::PredicateProposes),
    {
        Err(Error::PredicateProposes)
    }

    /// The values on which the condition holds. One that cannot be read is an error, and so is
    /// a bound value that is missing or cannot be read.
    fn intersect(&self, prefix: &Prefix, extensions: &[Extension]) -> (r: Result<
        Vec<Extension>,
        Error,
    >)
        ensures
            r matches Ok(list) ==> list.deep_view() == generic_join::only(
                extensions.deep_view(),
                |e: Seq<u8>| self.accepts(prefix.deep_view(), e),
            ),
            (forall|i: int|
                0 <= i < extensions@.len() ==> self.judges(
                    prefix.deep_view(),
                    #[trigger] extensions.deep_view()[i],
                )) ==> r is Ok,
    {
        let ghost row = prefix.deep_view();
        let ghost given = extensions.deep_view();
        let ghost levels = prefix_values::levels_of(self.prefix_vars@);
        assert(given.len() == extensions@.len());
        let mut verdicts: Vec<bool> = Vec::new();
        if extensions.len() > 0 {
            proof {
                if forall|k: int|
                    0 <= k < extensions@.len() ==> self.judges(row, #[trigger] given[k]) {
                    assert(self.judges(row, given[0]));
                }
            }
            let bound = match prefix_values(&self.prefix_vars, prefix) {
                Ok(bound) => bound,
                Err(e) => {
                    return Err(e);
                },
            };
            let mut names = bound_names(&self.prefix_vars);
            let last = self.extension_var.clone();
            let ghost fewer = names;
            names.push(last);
            proof {
                byte_string::lemma_deep_push(fewer, names, last);
            }
            let mut i: usize = 0;
            while i < extensions.len()
                invariant
                    i <= extensions@.len() == given.len(),
                    names.deep_view() == self.names(),
                    self.inv(),
                    row == prefix.deep_view(),
                    given == extensions.deep_view(),
                    levels == prefix_values::levels_of(self.prefix_vars@),
                    prefix_values::usable(self.prefix_vars@, row),
                    bound.deep_view() == evaluation::values_at(row, levels),
                    verdicts@.len() == i,
                    forall|j: int|
                        0 <= j < i ==> #[trigger] verdicts@[j] == self.accepts(row, given[j]),
                decreases extensions@.len() - i,
            {
                proof {
                    byte_string::lemma_deep_bytes(&extensions@[i as int]);
                    if forall|k: int|
                        0 <= k < extensions@.len() ==> self.judges(row, #[trigger] given[k]) {
                        assert(self.judges(row, given[i as int]));
                    }
                }
                let value = match codec::decode(&extensions[i]) {
                    Ok(value) => value,
                    Err(e) => {
                        assert(codec::decoded(given[i as int]) is None);
                        return Err(e);
                    },
                };
                let mut told = copy_values(&bound);
                let ghost earlier = told;
                told.push(value);
                proof {
                    byte_string::lemma_deep_push(earlier, told, value);
                }
                let verdict = (self.holds)(&self.expr, &names, &told);
                proof {
                    assert(told.deep_view() == self.told(row, given[i as int]));
                    assert(predicate::says(
                        self.holds,
                        self.expr@,
                        self.names(),
                        self.told(row, given[i as int]),
                        verdict,
                    ));
                }
                verdicts.push(verdict);
                i += 1;
            }
        }
        let ghost allow = |e: Seq<u8>| self.accepts(row, e);
        proof {
            generic_join::lemma_only(given, allow);
            generic_join::lemma_only_same(
                given,
                allow,
                |e: Seq<u8>| self.accepts(prefix.deep_view(), e),
            );
        }
        Ok(generic_join::keep(extensions, &verdicts, Ghost(allow)))
    }

    fn participates_in_level(&self, level: usize) -> (r: bool) {
        level == self.level
    }
}

} // verus!
