//! Reading the values that a join has bound already.

use vstd::prelude::*;

use crate::byte_string::{self, Row};
use crate::error::{Error, ErrorView};
use crate::query::patterns::evaluation::{self, row_values};
use crate::value::DataType;
use crate::variable::{Name, Variable};

verus! {

/// The levels at which variables are bound.
pub open spec fn levels_of(vars: Seq<(Variable, usize)>) -> Seq<usize> {
    Seq::new(vars.len(), |i: int| vars[i].1)
}

/// The variables that are bound.
pub open spec fn names_of(vars: Seq<(Variable, usize)>) -> Seq<Name> {
    Seq::new(vars.len(), |i: int| vars[i].0@)
}

/// The variables that are bound.
pub fn bound_names(vars: &[(Variable, usize)]) -> (r: Vec<Variable>)
    ensures
        r.deep_view() == names_of(vars@),
{
    let mut out: Vec<Variable> = Vec::new();
    let mut i: usize = 0;
    assert(out.deep_view() =~= names_of(vars@).take(0));
    while i < vars.len()
        invariant
            i <= vars@.len(),
            out.deep_view() == names_of(vars@).take(i as int),
        decreases vars@.len() - i,
    {
        let copy = vars[i].0.clone();
        let ghost earlier = out;
        out.push(copy);
        proof {
            byte_string::lemma_deep_push(earlier, out, copy);
        }
        i += 1;
        assert(out.deep_view() =~= names_of(vars@).take(i as int));
    }
    assert(names_of(vars@).take(i as int) =~= names_of(vars@));
    out
}

/// Whether the values at the levels are bound and can be read.
pub open spec fn usable(vars: Seq<(Variable, usize)>, prefix: Row) -> bool {
    &&& forall|i: int| 0 <= i < vars.len() ==> (#[trigger] vars[i]).1 < prefix.len()
    &&& evaluation::readable(prefix, levels_of(vars))
}

/// Why the values at the levels cannot be used: one is not bound, or else one cannot be read.
pub open spec fn unusable(vars: Seq<(Variable, usize)>, prefix: Row) -> ErrorView {
    if forall|i: int| 0 <= i < vars.len() ==> (#[trigger] vars[i]).1 < prefix.len() {
        ErrorView::Decode
    } else {
        ErrorView::Unbound
    }
}

/// The values of variables that are bound in a prefix.
pub fn prefix_values(vars: &[(Variable, usize)], prefix: &Vec<Vec<u8>>) -> (r: Result<
    Vec<DataType>,
    Error,
>)
    ensures
        match r {
            Ok(values) => usable(vars@, prefix.deep_view()) && values.deep_view()
                == evaluation::values_at(prefix.deep_view(), levels_of(vars@)),
            Err(e) => !usable(vars@, prefix.deep_view()) && e@ == unusable(
                vars@,
                prefix.deep_view(),
            ),
        },
{
    let mut levels: Vec<usize> = Vec::new();
    let mut i: usize = 0;
    assert(prefix.deep_view().len() == prefix@.len());
    while i < vars.len()
        invariant
            i <= vars@.len(),
            prefix.deep_view().len() == prefix@.len(),
            levels@ == levels_of(vars@).take(i as int),
            forall|j: int| 0 <= j < i ==> (#[trigger] vars@[j]).1 < prefix@.len(),
        decreases vars@.len() - i,
    {
        let level: usize = vars[i].1;
        if level >= prefix.len() {
            assert(!(vars@[i as int].1 < prefix.deep_view().len()));
            return Err(Error::Unbound);
        }
        levels.push(level);
        i += 1;
        assert(levels@ =~= levels_of(vars@).take(i as int));
    }
    assert(levels_of(vars@).take(i as int) =~= levels_of(vars@));
    assert forall|j: int| 0 <= j < levels@.len() implies #[trigger] levels@[j] < prefix@.len() by {
        assert(vars@[j].1 < prefix@.len());
    }
    row_values(prefix, &levels)
}

} // verus!
