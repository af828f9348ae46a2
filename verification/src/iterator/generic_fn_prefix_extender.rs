//! Extenders that allow the value which a function computes.

use vstd::prelude::*;

use crate::algo::generic_join::{self, Extension, Prefix, PrefixExtender};
use crate::byte_string::{self, same_bytes, Row};
use crate::codec;
use crate::error::{Error, ErrorView};
use crate::expr::{Expr, ExprView};
use crate::iterator::prefix_values::{self, bound_names, prefix_values};
use crate::query::patterns::evaluation;
use crate::query::patterns::function;
use crate::value::{DataType, Value};
use crate::variable::{Name, Variable};

verus! {

/// An extender that allows, at one level, the value of an expression over variables bound before.
/// What computes it is told the expression, these variables and their values, and may have no
/// value for them.
pub struct GenericFnPrefixExtender<
    F: Fn(&Expr, &Vec<Variable>, &Vec<DataType>) -> Option<DataType>,
> {
    pub expr: Expr,
    pub prefix_vars: Vec<(Variable, usize)>,
    pub output_level: usize,
    pub compute: F,
}

/// Whether any expression can be asked about and its result depends on the values alone.
pub open spec fn determines<F: Fn(&Expr, &Vec<Variable>, &Vec<DataType>) -> Option<DataType>>(
    compute: F,
) -> bool {
    &&& forall|e: Expr, n: Vec<Variable>, v: Vec<DataType>| #[trigger]
        call_requires(compute, (&e, &n, &v))
    &&& forall|
        expression: ExprView,
        names: Seq<Name>,
        values: Seq<Value>,
        a: Option<Value>,
        b: Option<Value>,
    |
        #![trigger function::gives(compute, expression, names, values, a), function::gives(compute, expression, names, values, b)]
        function::gives(compute, expression, names, values, a) && function::gives(
            compute,
            expression,
            names,
            values,
            b,
        ) ==> a == b
}

impl<F: Fn(&Expr, &Vec<Variable>, &Vec<DataType>) -> Option<DataType>> GenericFnPrefixExtender<F> {
    /// The variables of which the values are told.
    pub open spec fn names(self) -> Seq<Name> {
        prefix_values::names_of(self.prefix_vars@)
    }

    /// Whether the expression has a result behind a prefix.
    pub open spec fn gives(self, prefix: Row, result: Option<Value>) -> bool {
        function::gives(self.compute, self.expr@, self.names(), self.told(prefix), result)
    }

    /// The values that are told.
    pub open spec fn told(self, prefix: Row) -> Seq<Value> {
        evaluation::values_at(prefix, prefix_values::levels_of(self.prefix_vars@))
    }

    /// An extender of the function.
    pub fn new(
        expr: Expr,
        prefix_vars: Vec<(Variable, usize)>,
        output_level: usize,
        compute: F,
    ) -> (r: Self)
        requires
            determines(compute),
        ensures
            r.inv(),
            r.expr == expr,
            r.prefix_vars == prefix_vars,
            r.output_level == output_level,
            r.compute == compute,
    {
        GenericFnPrefixExtender { expr, prefix_vars, output_level, compute }
    }

    /// The encoded result of the function, if it has one.
    fn result(&self, prefix: &Prefix) -> (r: Result<Option<Extension>, Error>)
        requires
            self.inv(),
        ensures
            match r {
                Ok(Some(bytes)) => forall|e: Seq<u8>|
                    #![trigger self.accepts(prefix.deep_view(), e)]
                    self.accepts(prefix.deep_view(), e) == (e == bytes@),
                Ok(None) => forall|e: Seq<u8>|
                    #![trigger self.accepts(prefix.deep_view(), e)]
                    !self.accepts(prefix.deep_view(), e),
                Err(e) => !prefix_values::usable(self.prefix_vars@, prefix.deep_view()) && e@
                    == prefix_values::unusable(self.prefix_vars@, prefix.deep_view()),
            },
            r is Ok == prefix_values::usable(self.prefix_vars@, prefix.deep_view()),
    {
        let ghost row = prefix.deep_view();
        let told = match prefix_values(&self.prefix_vars, prefix) {
            Ok(told) => told,
            Err(e) => {
                return Err(e);
            },
        };
        let names = bound_names(&self.prefix_vars);
        let out = (self.compute)(&self.expr, &names, &told);
        let ghost result = function::result_view(out);
        proof {
            assert(told.deep_view() == self.told(row));
            assert(call_ensures(self.compute, (&self.expr, &names, &told), out));
            assert(self.gives(row, result));
        }
        match out {
            Some(value) => {
                let bytes = codec::encode(&value);
                proof {
                    assert(result == Some(value@));
                    assert forall|e: Seq<u8>|
                        #![trigger self.accepts(row, e)]
                        self.accepts(row, e) == (e == bytes@) by {
                        if self.accepts(row, e) {
                            let v = choose|v: Value| #[trigger]
                                self.gives(row, Some(v)) && e
                                    == codec::encoding(v);
                            assert(self.gives(row, Some(v)));
                            assert(Some(v) == result);
                        }
                    }
                }
                Ok(Some(bytes))
            },
            None => {
                proof {
                    assert forall|e: Seq<u8>|
                        #![trigger self.accepts(row, e)]
                        !self.accepts(row, e) by {
                        if self.accepts(row, e) {
                            let v = choose|v: Value| #[trigger]
                                self.gives(row, Some(v)) && e
                                    == codec::encoding(v);
                            assert(self.gives(row, Some(v)));
                            assert(Some(v) == result);
                        }
                    }
                }
                Ok(None)
            },
        }
    }
}

impl<F: Fn(&Expr, &Vec<Variable>, &Vec<DataType>) -> Option<DataType>> PrefixExtender for GenericFnPrefixExtender<F> {
    open spec fn inv(&self) -> bool {
        determines(self.compute)
    }

    open spec fn joins(&self, level: int) -> bool {
        level == self.output_level
    }

    open spec fn accepts(&self, prefix: Row, value: Seq<u8>) -> bool {
        exists|v: Value| #[trigger]
            self.gives(prefix, Some(v)) && value == codec::encoding(v)
    }

    open spec fn judges(&self, prefix: Row, value: Seq<u8>) -> bool {
        prefix_values::usable(self.prefix_vars@, prefix)
    }

    open spec fn offers(&self, prefix: Row) -> bool {
        prefix_values::usable(self.prefix_vars@, prefix)
    }

    open spec fn lists(&self, prefix: Row, value: Seq<u8>) -> bool {
        self.accepts(prefix, value)
    }

    open spec fn refusal(&self, prefix: Row) -> Option<ErrorView> {
        if prefix_values::usable(self.prefix_vars@, prefix) {
            None
        } else {
            Some(prefix_values::unusable(self.prefix_vars@, prefix))
        }
    }

    open spec fn filters(&self) -> bool {
        true
    }

    open spec fn refuses(&self, prefix: Row, e: ErrorView) -> bool {
        self.refusal(prefix) == Some(e)
    }

    open spec fn objects(&self, prefix: Row, values: Seq<Seq<u8>>, e: ErrorView) -> bool {
        values.len() > 0 && self.refusal(prefix) == Some(e)
    }

    open spec fn counted(&self, prefix: Row) -> usize {
        1
    }

    open spec fn counts(&self, prefix: Row) -> bool {
        true
    }

    fn count(&self, _prefix: &Prefix) -> (r: Result<usize, Error>) {
        Ok(1)
    }

    /// The result of the function, if it has one.
    fn propose(&self, prefix: &Prefix) -> (r: Result<Vec<Extension>, Error>) {
        let ghost row = prefix.deep_view();
        let result = match self.result(prefix) {
            Ok(result) => result,
            Err(e) => {
                return Err(e);
            },
        };
        let mut out: Vec<Extension> = Vec::new();
        assert(out.deep_view() =~= Seq::<Seq<u8>>::empty());
        if let Some(bytes) = result {
            let ghost none = out;
            let ghost value = bytes@;
            let ghost entry = bytes;
            proof {
                byte_string::lemma_deep_bytes(&bytes);
            }
            out.push(bytes);
            proof {
                byte_string::lemma_deep_push(none, out, entry);
                assert(out.deep_view() =~= seq![value]);
                assert forall|e: Seq<u8>|
                    #![trigger out.deep_view().contains(e)]
                    out.deep_view().contains(e) == self.accepts(row, e) by {
                    assert(out.deep_view()[0] == value);
                }
            }
        }
        Ok(out)
    }

    /// The values that are the result of the function.
    fn intersect(&self, prefix: &Prefix, extensions: &[Extension]) -> (r: Result<
        Vec<Extension>,
        Error,
    >)
        ensures
            r matches Ok(list) ==> list.deep_view() == generic_join::only(
                extensions.deep_view(),
                |e: Seq<u8>| self.accepts(prefix.deep_view(), e),
            ),
            (forall|i: int|
                0 <= i < extensions@.len() ==> self.judges(
                    prefix.deep_view(),
                    #[trigger] extensions.deep_view()[i],
                )) ==> r is Ok,
    {
        let ghost row = prefix.deep_view();
        let ghost given = extensions.deep_view();
        assert(given.len() == extensions@.len());
        if extensions.len() == 0 {
            let none: Vec<Extension> = Vec::new();
            assert(none.deep_view() =~= given);
            assert(generic_join::only(given, |e: Seq<u8>| self.accepts(row, e)) =~= given);
            return Ok(none);
        }
        proof {
            if forall|k: int| 0 <= k < extensions@.len() ==> self.judges(row, #[trigger] given[k]) {
                assert(self.judges(row, given[0]));
            }
        }
        let result = match self.result(prefix) {
            Ok(result) => result,
            Err(e) => {
                return Err(e);
            },
        };
        let mut verdicts: Vec<bool> = Vec::new();
        let mut i: usize = 0;
        while i < extensions.len()
            invariant
                i <= extensions@.len(),
                given == extensions.deep_view(),
                verdicts@.len() == i,
                forall|j: int|
                    0 <= j < i ==> #[trigger] verdicts@[j] == (result matches Some(bytes)
                        && given[j] == bytes@),
            decreases extensions@.len() - i,
        {
            proof {
                byte_string::lemma_deep_bytes(&extensions@[i as int]);
            }
            let verdict = match &result {
                Some(bytes) => same_bytes(&extensions[i], bytes),
                None => false,
            };
            verdicts.push(verdict);
            i += 1;
        }
        let ghost allow = |e: Seq<u8>| self.accepts(row, e);
        proof {
            generic_join::lemma_only(given, allow);
            generic_join::lemma_only_same(
                given,
                allow,
                |e: Seq<u8>| self.accepts(prefix.deep_view(), e),
            );
        }
        Ok(generic_join::keep(extensions, &verdicts, Ghost(allow)))
    }

    fn participates_in_level(&self, level: usize) -> (r: bool) {
        level == self.output_level
    }
}

} // verus!
