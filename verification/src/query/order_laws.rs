//! In which order values and rows stand.

use vstd::prelude::*;

use crate::byte_string;
use crate::error::Error;
use crate::query::ast::{Direction, Element, FindSpec, Limit, Order};
use crate::query::find::{self, apply_order_and_limit, resolve_order_columns};
use crate::query::lower;
use crate::query::order::{self, order_rows, order_values, Comparison};
use crate::value::{DataType, Value};

verus! {

/// Whether a byte string comes before another: it is a proper beginning of it, or has the smaller
/// byte where they first differ.
pub open spec fn comes_first(a: Seq<u8>, b: Seq<u8>) -> bool {
    exists|k: int|
        0 <= k <= a.len() && k < b.len() && #[trigger] a.take(k) == b.take(k) && (k == a.len()
            || a[k] < b[k])
}

/// The order of byte strings is that of the first difference.
proof fn lemma_comes_first(a: Seq<u8>, b: Seq<u8>)
    ensures
        byte_string::before(a, b) == comes_first(a, b),
    decreases a.len(),
{
    if a.len() == 0 {
        if b.len() > 0 {
            assert(a.take(0) =~= b.take(0));
        }
    } else if b.len() > 0 {
        let x = a.drop_first();
        let y = b.drop_first();
        lemma_comes_first(x, y);
        if a[0] < b[0] {
            assert(a.take(0) =~= b.take(0));
        }
        if a[0] == b[0] && comes_first(x, y) {
            let k = choose|k: int|
                0 <= k <= x.len() && k < y.len() && #[trigger] x.take(k) == y.take(k) && (k
                    == x.len() || x[k] < y[k]);
            assert(a.take(k + 1) =~= seq![a[0]] + x.take(k));
            assert(b.take(k + 1) =~= seq![b[0]] + y.take(k));
        }
        if comes_first(a, b) {
            let k = choose|k: int|
                0 <= k <= a.len() && k < b.len() && #[trigger] a.take(k) == b.take(k) && (k
                    == a.len() || a[k] < b[k]);
            if k > 0 {
                assert(a.take(k)[0] == b.take(k)[0]);
                assert(x.take(k - 1) =~= a.take(k).drop_first());
                assert(y.take(k - 1) =~= b.take(k).drop_first());
            }
        }
    }
}

/// Whether a result says that one thing stands before another, beside it or behind it.
pub open spec fn tells(r: Option<Comparison>, less: bool, same: bool) -> bool {
    &&& (r == Some(Comparison::Less)) == less
    &&& (r == Some(Comparison::Same)) == same
    &&& (r == Some(Comparison::More)) == (!less && !same)
}

/// Values of one kind stand in their natural order: numbers, times and identifiers by their size,
/// false before true, byte strings and texts by the first byte in which they differ, a beginning
/// before what goes on. Values of different kinds have no order.
pub proof fn law_values_stand_in_natural_order(a: DataType, b: DataType, r: Option<Comparison>)
    requires
        call_ensures(order_values, (&a, &b), r),
    ensures
        match (a, b) {
            (DataType::BigInt(x), DataType::BigInt(y)) => tells(r, x < y, x == y),
            (DataType::Boolean(x), DataType::Boolean(y)) => tells(r, !x && y, x == y),
            (DataType::Bytes(x), DataType::Bytes(y)) => tells(r, comes_first(x@, y@), x@ == y@),
            (DataType::Instant(x), DataType::Instant(y)) => tells(r, x < y, x == y),
            (DataType::Keyword(x), DataType::Keyword(y)) => tells(
                r,
                comes_first(
                    vstd::utf8::encode_utf8(x.name@),
                    vstd::utf8::encode_utf8(y.name@),
                ),
                x.name@ == y.name@,
            ),
            (DataType::Long(x), DataType::Long(y)) => tells(r, x < y, x == y),
            (DataType::String(x), DataType::String(y)) => tells(
                r,
                comes_first(vstd::utf8::encode_utf8(x@), vstd::utf8::encode_utf8(y@)),
                x@ == y@,
            ),
            (DataType::Uuid(x), DataType::Uuid(y)) => tells(r, x < y, x == y),
            (DataType::Double(x), DataType::Double(y)) => true,
            (DataType::Float(x), DataType::Float(y)) => true,
            _ => r is None,
        },
{
    match (a, b) {
        (DataType::Bytes(x), DataType::Bytes(y)) => {
            lemma_comes_first(x@, y@);
            byte_string::lemma_before_irreflexive(x@);
        },
        (DataType::Keyword(x), DataType::Keyword(y)) => {
            lemma_texts(x.name@, y.name@);
        },
        (DataType::String(x), DataType::String(y)) => {
            lemma_texts(x@, y@);
        },
        _ => {},
    }
}

/// The bytes of texts come in order, and tell the texts apart.
proof fn lemma_texts(x: Seq<char>, y: Seq<char>)
    ensures
        ({
            let p = vstd::utf8::encode_utf8(x);
            let q = vstd::utf8::encode_utf8(y);
            &&& byte_string::before(p, q) == comes_first(p, q)
            &&& !byte_string::before(p, p)
            &&& (p == q) == (x == y)
        }),
{
    broadcast use {vstd::utf8::encode_utf8_valid_utf8, vstd::utf8::encode_utf8_decode_utf8};

    lemma_comes_first(vstd::utf8::encode_utf8(x), vstd::utf8::encode_utf8(y));
    byte_string::lemma_before_irreflexive(vstd::utf8::encode_utf8(x));
    assert(vstd::utf8::decode_utf8(vstd::utf8::encode_utf8(x)) == x);
    assert(vstd::utf8::decode_utf8(vstd::utf8::encode_utf8(y)) == y);
}

/// Doubles, given by their bits, stand in the order of the numbers: where neither has its sign set,
/// by their bits; where both have, the other way round; otherwise the one with the sign comes first,
/// but for the two zeros, which are the same. What is no number has no order.
pub proof fn law_doubles_stand_in_order(x: u64, y: u64, r: Option<Comparison>)
    requires
        call_ensures(order_values, (&DataType::Double(x), &DataType::Double(y)), r),
    ensures
        ({
            let sign: u64 = 0x8000_0000_0000_0000;
            let numbers = x % sign <= 0x7ff0_0000_0000_0000 && y % sign <= 0x7ff0_0000_0000_0000;
            let zeros = x % sign == 0 && y % sign == 0;
            if !numbers {
                r is None
            } else if zeros {
                r == Some(Comparison::Same)
            } else if x < sign && y < sign {
                tells(r, x < y, x == y)
            } else if x >= sign && y >= sign {
                tells(r, y < x, x == y)
            } else {
                tells(r, x >= sign, false)
            }
        }),
{
    assert(x < 0x8000_0000_0000_0000 ==> x % 0x8000_0000_0000_0000 == x);
    assert(y < 0x8000_0000_0000_0000 ==> y % 0x8000_0000_0000_0000 == y);
    assert(x >= 0x8000_0000_0000_0000 ==> x % 0x8000_0000_0000_0000 == x - 0x8000_0000_0000_0000);
    assert(y >= 0x8000_0000_0000_0000 ==> y % 0x8000_0000_0000_0000 == y - 0x8000_0000_0000_0000);
}

/// The same of single-precision numbers.
pub proof fn law_floats_stand_in_order(x: u32, y: u32, r: Option<Comparison>)
    requires
        call_ensures(order_values, (&DataType::Float(x), &DataType::Float(y)), r),
    ensures
        ({
            let sign: u32 = 0x8000_0000;
            let numbers = x % sign <= 0x7f80_0000 && y % sign <= 0x7f80_0000;
            let zeros = x % sign == 0 && y % sign == 0;
            if !numbers {
                r is None
            } else if zeros {
                r == Some(Comparison::Same)
            } else if x < sign && y < sign {
                tells(r, x < y, x == y)
            } else if x >= sign && y >= sign {
                tells(r, y < x, x == y)
            } else {
                tells(r, x >= sign, false)
            }
        }),
{
    assert(x < 0x8000_0000 ==> x % 0x8000_0000 == x);
    assert(y < 0x8000_0000 ==> y % 0x8000_0000 == y);
    assert(x >= 0x8000_0000 ==> x % 0x8000_0000 == x - 0x8000_0000);
    assert(y >= 0x8000_0000 ==> y % 0x8000_0000 == y - 0x8000_0000);
}

/// The first column in which rows differ decides how they stand: as its values do where it ascends,
/// the other way round where it descends. Rows that differ in none of the columns are the same.
pub proof fn law_first_difference_decides(
    a: Vec<DataType>,
    b: Vec<DataType>,
    keys: &[(usize, Direction)],
    r: Option<Comparison>,
    k: int,
)
    requires
        call_ensures(order_rows, (&a, &b, keys), r),
        forall|i: int|
            0 <= i < keys@.len() ==> (#[trigger] keys@[i]).0 < a@.len() && keys@[i].0 < b@.len(),
        0 <= k <= keys@.len(),
        forall|i: int|
            0 <= i < k ==> call_ensures(
                order_values,
                (&a@[(#[trigger] keys@[i]).0 as int], &b@[keys@[i].0 as int]),
                Some(Comparison::Same),
            ),
    ensures
        k == keys@.len() ==> r == Some(Comparison::Same),
        k < keys@.len() ==> forall|c: Option<Comparison>| #[trigger]
            call_ensures(
                order_values,
                (&a@[keys@[k].0 as int], &b@[keys@[k].0 as int]),
                c,
            ) && c != Some(Comparison::Same) ==> r == (match (c, keys@[k].1) {
                (None, _) => None,
                (Some(Comparison::Less), Direction::Ascending) => Some(Comparison::Less),
                (Some(_), Direction::Ascending) => Some(Comparison::More),
                (Some(Comparison::Less), Direction::Descending) => Some(Comparison::More),
                (Some(_), Direction::Descending) => Some(Comparison::Less),
            }),
{
    let x = lower::values(a@);
    let y = lower::values(b@);
    lemma_first_difference(x, y, keys@, k);
    assert forall|i: int| 0 <= i < k implies order::value_order(
        x[(#[trigger] keys@[i]).0 as int],
        y[keys@[i].0 as int],
    ) == Some(Comparison::Same) by {}
}

/// The first column in which rows differ decides.
proof fn lemma_first_difference(
    x: Seq<Value>,
    y: Seq<Value>,
    keys: Seq<(usize, Direction)>,
    k: int,
)
    requires
        0 <= k <= keys.len(),
    ensures
        (forall|i: int|
            0 <= i < k ==> order::value_order(
                x[(#[trigger] keys[i]).0 as int],
                y[keys[i].0 as int],
            ) == Some(Comparison::Same)) ==> order::row_order(x, y, keys) == order::row_order(
            x,
            y,
            keys.skip(k),
        ),
    decreases k,
{
    if k == 0 {
        assert(keys.skip(0) =~= keys);
    } else if forall|i: int|
        0 <= i < k ==> order::value_order(
            x[(#[trigger] keys[i]).0 as int],
            y[keys[i].0 as int],
        ) == Some(Comparison::Same) {
        let rest = keys.drop_first();
        assert forall|i: int| 0 <= i < k - 1 implies order::value_order(
            x[(#[trigger] rest[i]).0 as int],
            y[rest[i].0 as int],
        ) == Some(Comparison::Same) by {
            assert(rest[i] == keys[i + 1]);
        }
        lemma_first_difference(x, y, rest, k - 1);
        assert(rest.skip(k - 1) =~= keys.skip(k));
        assert(order::value_order(x[keys[0].0 as int], y[keys[0].0 as int]) == Some(
            Comparison::Same,
        ));
    }
}

/// A limit keeps so many rows at most, and all of them where there are no more. Without a limit all
/// are kept; a limit that is still a variable keeps nothing.
pub proof fn law_limit_keeps_at_most(
    results: Vec<Vec<DataType>>,
    order: Option<Vec<Order>>,
    limit: Limit,
    find: FindSpec,
    r: Result<Vec<Vec<DataType>>, Error>,
)
    requires
        call_ensures(apply_order_and_limit, (results, &order, &limit, &find), r),
    ensures
        match limit {
            Limit::Unlimited => r is Ok ==> r->Ok_0@.len() == results@.len(),
            Limit::Fixed(n) => r is Ok ==> r->Ok_0@.len() == (if n < results@.len() {
                n as nat
            } else {
                results@.len()
            }),
            Limit::Variable(_) => r is Err,
        },
{
    if r is Ok {
        let all = lower::value_rows(results@);
        let rows = lower::value_rows(r->Ok_0@);
        assert(all.len() == results@.len() && rows.len() == r->Ok_0@.len());
        if let Some(orders) = order {
            let keys = find::sort_columns(orders@, find)->Ok_0;
            let n = find::kept(limit, all.len()).unwrap();
            assert(find::in_order(all, keys, n, rows));
        }
    }
}

/// Without an order the first rows are kept as they come.
pub proof fn law_without_order_the_first_rows_stay(
    results: Vec<Vec<DataType>>,
    limit: Limit,
    find: FindSpec,
    r: Result<Vec<Vec<DataType>>, Error>,
    i: int,
)
    requires
        call_ensures(apply_order_and_limit, (results, &None::<Vec<Order>>, &limit, &find), r),
        r is Ok,
        0 <= i < r->Ok_0@.len(),
    ensures
        r->Ok_0@.len() <= results@.len(),
        lower::values(r->Ok_0@[i]@) == lower::values(results@[i]@),
{
    law_limit_keeps_at_most(results, None, limit, find, r);
    let all = lower::value_rows(results@);
    let rows = lower::value_rows(r->Ok_0@);
    assert(rows[i] == lower::values(r->Ok_0@[i]@));
    assert(all[i] == lower::values(results@[i]@));
    let n = find::kept(limit, all.len()).unwrap();
    assert(rows == all.take(n as int));
    assert(rows[i] == all.take(n as int)[i]);
}

/// Whether rows are those at distinct places of a result.
pub open spec fn drawn(
    results: Seq<Seq<Value>>,
    rows: Seq<Seq<Value>>,
    places: Seq<int>,
) -> bool {
    &&& places.len() == rows.len()
    &&& forall|i: int| 0 <= i < places.len() ==> 0 <= #[trigger] places[i] < results.len()
    &&& forall|i: int, j: int|
        0 <= i < j < places.len() ==> #[trigger] places[i] != #[trigger] places[j]
    &&& forall|i: int| 0 <= i < places.len() ==> #[trigger] rows[i] == results[places[i]]
}

/// Whether the row at one place is to stand before the row at another: its values come first, or
/// they are not told apart and it came first.
pub open spec fn goes_first(
    results: Seq<Seq<Value>>,
    keys: Seq<(usize, Direction)>,
    p: int,
    q: int,
) -> bool {
    let c = order::row_order(results[p], results[q], keys);
    c == Some(Comparison::Less) || (c == Some(Comparison::Same) && p < q)
}

/// Whether the rows at the places stand in order, and those that are left out come behind them.
pub open spec fn well_ordered(
    results: Seq<Seq<Value>>,
    places: Seq<int>,
    keys: Seq<(usize, Direction)>,
) -> bool {
    &&& forall|i: int, j: int|
        0 <= i < j < places.len() ==> goes_first(
            results,
            keys,
            #[trigger] places[i],
            #[trigger] places[j],
        )
    &&& forall|i: int, q: int|
        0 <= i < places.len() && 0 <= q < results.len() && !places.contains(q)
            ==> #[trigger] goes_first(results, keys, places[i], q)
}

/// The rows of a result that is put in order are rows of the result, each taken once, in the order
/// of the columns to sort by, and those that a limit leaves out come behind them.
pub proof fn law_rows_stand_in_order(
    results: Vec<Vec<DataType>>,
    orders: Vec<Order>,
    limit: Limit,
    find: FindSpec,
    keys: Vec<(usize, Direction)>,
    r: Result<Vec<Vec<DataType>>, Error>,
)
    requires
        call_ensures(apply_order_and_limit, (results, &Some(orders), &limit, &find), r),
        call_ensures(resolve_order_columns, (&orders, &find), Ok::<_, Error>(keys)),
        r is Ok,
    ensures
        exists|places: Seq<int>| #[trigger]
            drawn(lower::value_rows(results@), lower::value_rows(r->Ok_0@), places)
                && well_ordered(lower::value_rows(results@), places, keys@),
{
    let all = lower::value_rows(results@);
    let rows = lower::value_rows(r->Ok_0@);
    let n = find::kept(limit, all.len()).unwrap();
    assert(results.len() == results@.len());
    assert(find::in_order(all, keys@, n, rows));
    let order = choose|order: Seq<usize>|
        #![trigger find::rows_at(all, order, n)]
        order::stable_order(all, keys@, order, all.len() as int) && rows == find::rows_at(
            all,
            order,
            n,
        );
    let places = Seq::new(n, |i: int| order[i] as int);
    lemma_stable(all, keys@, order, n);
    assert(drawn(all, rows, places));
}

/// The first places of a stable order.
proof fn lemma_stable(
    all: Seq<Seq<Value>>,
    keys: Seq<(usize, Direction)>,
    order: Seq<usize>,
    n: nat,
)
    requires
        order::stable_order(all, keys, order, all.len() as int),
        n <= all.len() <= usize::MAX,
    ensures
        ({
            let places = Seq::new(n, |i: int| order[i] as int);
            &&& drawn(all, find::rows_at(all, order, n), places)
            &&& well_ordered(all, places, keys)
        }),
{
    let places = Seq::new(n, |i: int| order[i] as int);
    assert forall|i: int, j: int| 0 <= i < j < order.len() implies goes_first(
        all,
        keys,
        #[trigger] order[i] as int,
        #[trigger] order[j] as int,
    ) && order[i] != order[j] by {
        assert(order::may_precede(all, keys, order[i] as int, order[j] as int));
        lemma_row_with_itself(all[order[i] as int], keys);
    }
    assert forall|i: int, q: int|
        0 <= i < places.len() && 0 <= q < all.len() && !places.contains(
            q,
        ) implies #[trigger] goes_first(all, keys, places[i], q) by {
        assert(order.contains(byte_string::index_of_place(q)));
        let k = order.index_of(byte_string::index_of_place(q));
        assert(order[k] == q);
        if k < n {
            assert(places[k] == q);
        }
    }
}

/// A row that is compared with itself is not told apart from itself.
proof fn lemma_row_with_itself(row: Seq<Value>, keys: Seq<(usize, Direction)>)
    ensures
        order::row_order(row, row, keys) matches Some(c) ==> c == Comparison::Same,
    decreases keys.len(),
{
    if keys.len() > 0 {
        let col = keys[0].0 as int;
        order::lemma_value_order(row[col], row[col], row[col]);
        lemma_row_with_itself(row, keys.drop_first());
    }
}

/// Whether a variable stands at a place of a find clause.
pub open spec fn asks_for(element: Element, name: Seq<char>) -> bool {
    element matches Element::Variable(v) && v.name@ == name
}

/// The columns to sort by are those of the variables to sort by, one after another, each in its
/// direction; a variable that the find clause lacks is refused.
pub proof fn law_sort_columns(
    orders: Vec<Order>,
    elements: Vec<Element>,
    r: Result<Vec<(usize, Direction)>, Error>,
)
    requires
        call_ensures(resolve_order_columns, (&orders, &FindSpec::FindRel(elements)), r),
        elements@.len() <= usize::MAX,
    ensures
        match r {
            Ok(columns) => columns@.len() == orders@.len() && forall|i: int|
                0 <= i < columns@.len() ==> (#[trigger] columns@[i]).0 < elements@.len()
                    && columns@[i].1 == orders@[i].direction && asks_for(
                    elements@[columns@[i].0 as int],
                    orders@[i].variable.name@,
                ),
            Err(_) => exists|i: int|
                0 <= i < orders@.len() && forall|k: int|
                    0 <= k < elements@.len() ==> !asks_for(
                        #[trigger] elements@[k],
                        (#[trigger] orders@[i]).variable.name@,
                    ),
        },
{
    lemma_order_columns(orders@, elements@);
}

/// The columns of the variables to sort by.
proof fn lemma_order_columns(orders: Seq<Order>, elements: Seq<Element>)
    requires
        elements.len() <= usize::MAX,
    ensures
        match find::order_columns(orders, elements) {
            Ok(columns) => columns.len() == orders.len() && forall|i: int|
                0 <= i < columns.len() ==> (#[trigger] columns[i]).0 < elements.len()
                    && columns[i].1 == orders[i].direction && asks_for(
                    elements[columns[i].0 as int],
                    orders[i].variable.name@,
                ),
            Err(_) => exists|i: int|
                0 <= i < orders.len() && forall|k: int|
                    0 <= k < elements.len() ==> !asks_for(
                        #[trigger] elements[k],
                        (#[trigger] orders[i]).variable.name@,
                    ),
        },
    decreases orders.len(),
{
    if orders.len() > 0 {
        let front = orders.drop_last();
        lemma_order_columns(front, elements);
        lemma_find_position(elements, orders.last().variable.name@);
        match find::order_columns(front, elements) {
            Ok(columns) => {
                assert forall|i: int| 0 <= i < columns.len() implies front[i] == orders[i] by {}
                if find::find_position(elements, orders.last().variable@) is None {
                    assert(orders[orders.len() - 1] == orders.last());
                }
            },
            Err(_) => {
                let i = choose|i: int|
                    0 <= i < front.len() && forall|k: int|
                        0 <= k < elements.len() ==> !asks_for(
                            #[trigger] elements[k],
                            (#[trigger] front[i]).variable.name@,
                        );
                assert(orders[i] == front[i]);
            },
        }
    }
}

/// Where a variable stands in a find clause.
pub proof fn lemma_find_position(elements: Seq<Element>, name: Seq<char>)
    requires
        elements.len() <= usize::MAX,
    ensures
        match find::find_position(elements, name) {
            Some(c) => c < elements.len() && asks_for(elements[c as int], name),
            None => forall|k: int| 0 <= k < elements.len() ==> !asks_for(#[trigger] elements[k], name),
        },
    decreases elements.len(),
{
    if elements.len() > 0 {
        let front = elements.drop_last();
        lemma_find_position(front, name);
        assert forall|k: int| 0 <= k < front.len() implies front[k] == #[trigger] elements[k] by {}
    }
}

} // verus!
