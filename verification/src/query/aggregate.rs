//! Aggregates that need no floating-point numbers.

use vstd::prelude::*;

use crate::error::{Error, ErrorView};
use crate::query::order::{self, order_values, Comparison};
use crate::value::{DataType, Value};

verus! {

/// How many values there are.
pub fn count(values: &Vec<DataType>) -> (r: DataType)
    requires
        values@.len() <= i64::MAX,
    ensures
        r@ == Value::Long(values@.len() as i64),
{
    DataType::Long(values.len() as i64)
}

/// A value that comes again makes no new element.
proof fn lemma_next_distinct(values: Seq<Value>, i: int)
    requires
        0 <= i < values.len(),
    ensures
        values.take(i).to_set().finite(),
        values.take(i + 1).to_set() == values.take(i).to_set().insert(values[i]),
{
    let earlier = values.take(i);
    let later = values.take(i + 1);
    vstd::seq_lib::seq_to_set_is_finite(earlier);
    assert forall|v: Value| #[trigger] later.to_set().contains(v) == earlier.to_set().insert(
        values[i],
    ).contains(v) by {
        if later.contains(v) {
            let k = later.index_of(v);
            if k < i {
                assert(earlier[k] == v);
            }
        }
        if earlier.contains(v) {
            let k = earlier.index_of(v);
            assert(later[k] == v);
        }
        if v == values[i] {
            assert(later[i] == v);
        }
    }
    assert(later.to_set() =~= earlier.to_set().insert(values[i]));
}

/// How many different values there are.
pub fn count_distinct(values: &Vec<DataType>) -> (r: DataType)
    requires
        values@.len() <= i64::MAX,
    ensures
        r@ == Value::Long(values.deep_view().to_set().len() as i64),
{
    let ghost all = values.deep_view();
    let mut count: i64 = 0;
    let mut i: usize = 0;
    assert(all.take(0).to_set() =~= Set::empty());
    while i < values.len()
        invariant
            i <= values@.len() == all.len(),
            values@.len() <= i64::MAX,
            all == values.deep_view(),
            0 <= count <= i,
            count == all.take(i as int).to_set().len(),
        decreases values@.len() - i,
    {
        let mut j: usize = 0;
        while j < i && !values[j].same(&values[i])
            invariant
                j <= i < values@.len() == all.len(),
                all == values.deep_view(),
                forall|k: int| 0 <= k < j ==> all[k] != all[i as int],
            decreases i - j,
        {
            j += 1;
        }
        proof {
            lemma_next_distinct(all, i as int);
            let earlier = all.take(i as int);
            if j < i {
                assert(earlier[j as int] == all[i as int]);
                assert(earlier.to_set().contains(all[i as int]));
                assert(earlier.to_set().insert(all[i as int]) =~= earlier.to_set());
            } else {
                assert(!earlier.contains(all[i as int]));
            }
        }
        if j == i {
            count += 1;
        }
        i += 1;
    }
    assert(all.take(i as int) =~= all);
    DataType::Long(count)
}

/// Whether the value at a place is the first that no other goes beyond: the least, where what goes
/// beyond is less, or the greatest, where it is more. All are of one kind with it.
pub open spec fn extreme_at(values: Seq<Value>, beyond: Comparison, k: int) -> bool {
    &&& 0 <= k < values.len()
    &&& forall|i: int|
        0 <= i < values.len() ==> (order::value_order(
            #[trigger] values[i],
            values[k],
        ) matches Some(c) && c != beyond && (i < k ==> c != Comparison::Same))
}

/// Whether values can be compared is the same along a chain.
proof fn lemma_comparable(a: Value, b: Value, c: Value)
    requires
        order::value_order(a, b) is Some,
        order::value_order(b, c) is Some,
    ensures
        order::value_order(a, c) is Some,
{
}

/// A value that goes beyond the extreme of those before it is the extreme.
pub proof fn lemma_next_extreme(values: Seq<Value>, beyond: Comparison, k: int, i: int)
    requires
        beyond != Comparison::Same,
        0 <= i < values.len(),
        extreme_at(values.take(i), beyond, k),
        order::value_order(values[i], values[k]) is Some,
    ensures
        extreme_at(
            values.take(i + 1),
            beyond,
            if order::value_order(values[i], values[k]) == Some(beyond) {
                i
            } else {
                k
            },
        ),
{
    let before = values.take(i);
    let now = values.take(i + 1);
    order::lemma_value_order(values[i], values[i], values[i]);
    if order::value_order(values[i], values[k]) == Some(beyond) {
        assert forall|j: int| 0 <= j < now.len() implies (order::value_order(
            #[trigger] now[j],
            now[i],
        ) matches Some(c) && c != beyond && (j < i ==> c != Comparison::Same)) by {
            order::lemma_value_order(values[i], values[k], values[i]);
            lemma_comparable(values[i], values[k], values[i]);
            if j < i {
                assert(before[j] == values[j]);
                assert(order::value_order(before[j], before[k]) is Some);
                order::lemma_value_order(values[j], values[k], values[i]);
                order::lemma_value_order(values[k], values[j], values[i]);
                order::lemma_value_order(values[i], values[k], values[j]);
                order::lemma_value_order(values[k], values[i], values[j]);
                order::lemma_value_order(values[i], values[j], values[k]);
            }
        }
    } else {
        assert forall|j: int| 0 <= j < now.len() implies (order::value_order(
            #[trigger] now[j],
            now[k],
        ) matches Some(c) && c != beyond && (j < k ==> c != Comparison::Same)) by {
            if j < i {
                assert(before[j] == values[j]);
            }
        }
    }
}

/// The least or the greatest of values.
pub fn extreme(values: &Vec<DataType>, beyond: Comparison) -> (r: Result<DataType, Error>)
    requires
        beyond != Comparison::Same,
    ensures
        match r {
            Ok(found) => exists|k: int| #[trigger]
                extreme_at(values.deep_view(), beyond, k) && found@ == values.deep_view()[k],
            Err(e) => e@ == ErrorView::Incomparable && forall|k: int|
                !#[trigger] extreme_at(values.deep_view(), beyond, k),
        },
{
    let ghost all = values.deep_view();
    assert(all.len() == values@.len());
    if values.len() == 0 {
        return Err(Error::Incomparable);
    }
    let mut at: usize = 0;
    let mut i: usize = 0;
    while i < values.len()
        invariant
            i <= values@.len() == all.len(),
            0 < values@.len(),
            at < values@.len(),
            at < i || (at == 0 && i == 0),
            all == values.deep_view(),
            beyond != Comparison::Same,
            i > 0 ==> extreme_at(all.take(i as int), beyond, at as int),
        decreases values@.len() - i,
    {
        assert(all[i as int] == values@[i as int]@ && all[at as int] == values@[at as int]@);
        match order_values(&values[i], &values[at]) {
            Some(c) => {
                proof {
                    if i > 0 {
                        lemma_next_extreme(all, beyond, at as int, i as int);
                    } else {
                        order::lemma_value_order(all[0], all[0], all[0]);
                    }
                }
                if c == beyond {
                    at = i;
                }
            },
            None => {
                proof {
                    assert forall|k: int| !#[trigger] extreme_at(all, beyond, k) by {
                        if extreme_at(all, beyond, k) {
                            assert(order::value_order(all[i as int], all[k]) is Some);
                            assert(order::value_order(all[at as int], all[k]) is Some);
                            order::lemma_value_order(all[at as int], all[k], all[k]);
                            lemma_comparable(all[i as int], all[k], all[at as int]);
                        }
                    }
                }
                return Err(Error::Incomparable);
            },
        }
        i += 1;
    }
    assert(all.take(i as int) =~= all);
    assert(extreme_at(all, beyond, at as int));
    Ok(values[at].clone())
}

} // verus!
