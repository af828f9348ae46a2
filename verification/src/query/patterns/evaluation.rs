//! Reading the values of a row for an expression.

use vstd::prelude::*;

use crate::byte_string::{self, Row};
use crate::codec;
use crate::error::{Error, ErrorView};
use crate::query::binding_bag::{self, BindingBag, BindingRow};
use crate::value::{DataType, Value};
use crate::variable::{self, Name, Variable};

verus! {

/// Whether the values of a row at the given columns can be read.
pub open spec fn readable(row: Row, cols: Seq<usize>) -> bool {
    forall|i: int|
        0 <= i < cols.len() ==> codec::decoded(row[#[trigger] cols[i] as int]) is Some
}

/// The values of a row at the given columns.
pub open spec fn values_at(row: Row, cols: Seq<usize>) -> Seq<Value> {
    Seq::new(cols.len(), |i: int| codec::decoded(row[cols[i] as int]).unwrap().0)
}

/// Whether every name is a column.
pub open spec fn all_columns(layout: Seq<Name>, names: Seq<Name>) -> bool {
    forall|i: int| 0 <= i < names.len() ==> layout.contains(#[trigger] names[i])
}

/// The columns in which the variables stand.
pub fn binding_positions(input: &BindingBag, variables: &[Variable]) -> (r: Result<
    Vec<usize>,
    Error,
>)
    requires
        input@.wf(),
    ensures
        match r {
            Ok(cols) => all_columns(input@.variables, variables.deep_view()) && cols@
                == binding_bag::columns(input@.variables, variables.deep_view()) && forall|i: int|
                0 <= i < cols@.len() ==> #[trigger] cols@[i] < input@.variables.len(),
            Err(e) => !all_columns(input@.variables, variables.deep_view()) && e@
                == ErrorView::UnknownVariable(
                variable::first_missing(variables.deep_view(), input@.variables).unwrap(),
            ),
        },
{
    let ghost names = variables.deep_view();
    let mut cols: Vec<usize> = Vec::new();
    let mut i: usize = 0;
    while i < variables.len()
        invariant
            i <= variables@.len(),
            names == variables.deep_view(),
            input@.wf(),
            all_columns(input@.variables, names.take(i as int)),
            cols@ == binding_bag::columns(input@.variables, names.take(i as int)),
            forall|j: int| 0 <= j < cols@.len() ==> #[trigger] cols@[j] < input@.variables.len(),
        decreases variables@.len() - i,
    {
        match input.column_index(&variables[i]) {
            Ok(col) => {
                cols.push(col);
            },
            Err(e) => {
                proof {
                    assert(!input@.variables.contains(names[i as int]));
                    let next = names.take(i + 1);
                    assert(next.drop_last() =~= names.take(i as int));
                    variable::lemma_none_missing(names.take(i as int), input@.variables);
                    variable::lemma_missing(names, input@.variables, i + 1);
                }
                return Err(e);
            },
        }
        i += 1;
        assert(cols@ =~= binding_bag::columns(input@.variables, names.take(i as int)));
        assert(all_columns(input@.variables, names.take(i as int))) by {
            assert forall|j: int| 0 <= j < i implies input@.variables.contains(
                #[trigger] names.take(i as int)[j],
            ) by {
                if j < i - 1 {
                    assert(names.take(i - 1)[j] == names.take(i as int)[j]);
                }
            }
        }
    }
    assert(names.take(i as int) =~= names);
    Ok(cols)
}

/// The values of a row at the given columns.
pub fn row_values(row: &BindingRow, cols: &[usize]) -> (r: Result<Vec<DataType>, Error>)
    requires
        forall|i: int| 0 <= i < cols@.len() ==> #[trigger] cols@[i] < row@.len(),
    ensures
        match r {
            Ok(values) => readable(row.deep_view(), cols@) && values.deep_view() == values_at(
                row.deep_view(),
                cols@,
            ),
            Err(e) => e@ == ErrorView::Decode && !readable(row.deep_view(), cols@),
        },
{
    let ghost bytes = row.deep_view();
    let mut values: Vec<DataType> = Vec::new();
    let mut i: usize = 0;
    assert(values.deep_view() =~= values_at(bytes, cols@.take(0)));
    while i < cols.len()
        invariant
            i <= cols@.len(),
            bytes == row.deep_view(),
            forall|j: int| 0 <= j < cols@.len() ==> #[trigger] cols@[j] < row@.len(),
            forall|j: int|
                0 <= j < i ==> codec::decoded(bytes[#[trigger] cols@[j] as int]) is Some,
            values.deep_view() == values_at(bytes, cols@.take(i as int)),
        decreases cols@.len() - i,
    {
        let col: usize = cols[i];
        proof {
            byte_string::lemma_deep_bytes(&row[col as int]);
        }
        match codec::decode(&row[col]) {
            Ok(value) => {
                let ghost earlier = values;
                values.push(value);
                proof {
                    byte_string::lemma_deep_push(earlier, values, value);
                }
            },
            Err(e) => {
                assert(codec::decoded(bytes[cols@[i as int] as int]) is None);
                return Err(e);
            },
        }
        i += 1;
        assert(values.deep_view() =~= values_at(bytes, cols@.take(i as int)));
    }
    assert(cols@.take(i as int) =~= cols@);
    Ok(values)
}

} // verus!
