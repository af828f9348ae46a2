//! The order of values and of rows.

use vstd::prelude::*;

use crate::byte_string::{self, comes_before, same_bytes};
use crate::error::{Error, ErrorView};
use crate::query::ast::Direction;
use crate::query::lower;
use crate::value::{DataType, Value};

verus! {

/// How one value stands to another.
#[derive(Clone, Copy, Debug, PartialEq, Eq, Structural)]
pub enum Comparison {
    Less,
    Same,
    More,
}

/// How the second stands to the first.
pub open spec fn flipped(c: Comparison) -> Comparison {
    match c {
        Comparison::Less => Comparison::More,
        Comparison::Same => Comparison::Same,
        Comparison::More => Comparison::Less,
    }
}

/// How one number stands to another.
pub open spec fn number_order(a: int, b: int) -> Comparison {
    if a < b {
        Comparison::Less
    } else if a == b {
        Comparison::Same
    } else {
        Comparison::More
    }
}

/// How one byte string stands to another.
pub open spec fn bytes_order(a: Seq<u8>, b: Seq<u8>) -> Comparison {
    if byte_string::before(a, b) {
        Comparison::Less
    } else if a == b {
        Comparison::Same
    } else {
        Comparison::More
    }
}

/// The largest bit pattern of a double without its sign that is a number: infinity.
pub const DOUBLE_INFINITY: u64 = 0x7ff0_0000_0000_0000;

/// The bit that holds the sign of a double.
pub const DOUBLE_SIGN: u64 = 0x8000_0000_0000_0000;

/// The largest bit pattern of a single-precision number without its sign that is a number.
pub const FLOAT_INFINITY: u32 = 0x7f80_0000;

/// The bit that holds the sign of a single-precision number.
pub const FLOAT_SIGN: u32 = 0x8000_0000;

/// A number in the order of doubles: bit patterns without sign stand in the order of the
/// numbers, those with sign in the opposite order; what is no number has none.
pub open spec fn double_rank(bits: u64) -> Option<int> {
    let size = if bits >= DOUBLE_SIGN {
        bits - DOUBLE_SIGN
    } else {
        bits as int
    };
    if size > DOUBLE_INFINITY {
        None
    } else if bits >= DOUBLE_SIGN {
        Some(-size)
    } else {
        Some(size)
    }
}

/// The same for single precision.
pub open spec fn float_rank(bits: u32) -> Option<int> {
    let size = if bits >= FLOAT_SIGN {
        bits - FLOAT_SIGN
    } else {
        bits as int
    };
    if size > FLOAT_INFINITY {
        None
    } else if bits >= FLOAT_SIGN {
        Some(-size)
    } else {
        Some(size)
    }
}

/// How one value stands to another of the same kind. Values of different kinds, nested values
/// and floating-point values that are no numbers have no order.
pub open spec fn value_order(a: Value, b: Value) -> Option<Comparison> {
    match (a, b) {
        (Value::BigInt(x), Value::BigInt(y)) => Some(number_order(x as int, y as int)),
        (Value::Boolean(x), Value::Boolean(y)) => Some(
            number_order(if x {
                1
            } else {
                0
            }, if y {
                1
            } else {
                0
            }),
        ),
        (Value::Bytes(x), Value::Bytes(y)) => Some(bytes_order(x, y)),
        (Value::Double(x), Value::Double(y)) => match (double_rank(x), double_rank(y)) {
            (Some(p), Some(q)) => Some(number_order(p, q)),
            _ => None,
        },
        (Value::Float(x), Value::Float(y)) => match (float_rank(x), float_rank(y)) {
            (Some(p), Some(q)) => Some(number_order(p, q)),
            _ => None,
        },
        (Value::Instant(x), Value::Instant(y)) => Some(number_order(x as int, y as int)),
        (Value::Keyword(x), Value::Keyword(y)) => Some(
            bytes_order(vstd::utf8::encode_utf8(x), vstd::utf8::encode_utf8(y)),
        ),
        (Value::Long(x), Value::Long(y)) => Some(number_order(x as int, y as int)),
        (Value::String(x), Value::String(y)) => Some(
            bytes_order(vstd::utf8::encode_utf8(x), vstd::utf8::encode_utf8(y)),
        ),
        (Value::Uuid(x), Value::Uuid(y)) => Some(number_order(x as int, y as int)),
        _ => None,
    }
}

/// How one byte string stands to another.
fn order_bytes(a: &[u8], b: &[u8]) -> (r: Comparison)
    ensures
        r == bytes_order(a@, b@),
{
    if comes_before(a, b) {
        Comparison::Less
    } else if same_bytes(a, b) {
        Comparison::Same
    } else {
        Comparison::More
    }
}

/// How one double, given by its bits, stands to another.
fn order_doubles(a: u64, b: u64) -> (r: Option<Comparison>)
    ensures
        r == value_order(Value::Double(a), Value::Double(b)),
{
    let a_negative = a >= DOUBLE_SIGN;
    let b_negative = b >= DOUBLE_SIGN;
    let a_size: u64 = if a_negative {
        a - DOUBLE_SIGN
    } else {
        a
    };
    let b_size: u64 = if b_negative {
        b - DOUBLE_SIGN
    } else {
        b
    };
    if a_size > DOUBLE_INFINITY || b_size > DOUBLE_INFINITY {
        return None;
    }
    if a_size == 0 && b_size == 0 {
        return Some(Comparison::Same);
    }
    if a_negative != b_negative {
        return if a_negative {
            Some(Comparison::Less)
        } else {
            Some(Comparison::More)
        };
    }
    if a_size == b_size {
        return Some(Comparison::Same);
    }
    if (a_size < b_size) != a_negative {
        Some(Comparison::Less)
    } else {
        Some(Comparison::More)
    }
}

/// How one single-precision number, given by its bits, stands to another.
fn order_floats(a: u32, b: u32) -> (r: Option<Comparison>)
    ensures
        r == value_order(Value::Float(a), Value::Float(b)),
{
    let a_negative = a >= FLOAT_SIGN;
    let b_negative = b >= FLOAT_SIGN;
    let a_size: u32 = if a_negative {
        a - FLOAT_SIGN
    } else {
        a
    };
    let b_size: u32 = if b_negative {
        b - FLOAT_SIGN
    } else {
        b
    };
    if a_size > FLOAT_INFINITY || b_size > FLOAT_INFINITY {
        return None;
    }
    if a_size == 0 && b_size == 0 {
        return Some(Comparison::Same);
    }
    if a_negative != b_negative {
        return if a_negative {
            Some(Comparison::Less)
        } else {
            Some(Comparison::More)
        };
    }
    if a_size == b_size {
        return Some(Comparison::Same);
    }
    if (a_size < b_size) != a_negative {
        Some(Comparison::Less)
    } else {
        Some(Comparison::More)
    }
}

/// How one value stands to another of the same kind.
pub fn order_values(a: &DataType, b: &DataType) -> (r: Option<Comparison>)
    ensures
        r == value_order(a@, b@),
{
    match (a, b) {
        (DataType::BigInt(x), DataType::BigInt(y)) => if *x < *y {
            Some(Comparison::Less)
        } else if *x == *y {
            Some(Comparison::Same)
        } else {
            Some(Comparison::More)
        },
        (DataType::Boolean(x), DataType::Boolean(y)) => if *x == *y {
            Some(Comparison::Same)
        } else if *y {
            Some(Comparison::Less)
        } else {
            Some(Comparison::More)
        },
        (DataType::Bytes(x), DataType::Bytes(y)) => Some(order_bytes(x, y)),
        (DataType::Double(x), DataType::Double(y)) => order_doubles(*x, *y),
        (DataType::Float(x), DataType::Float(y)) => order_floats(*x, *y),
        (DataType::Instant(x), DataType::Instant(y)) => if *x < *y {
            Some(Comparison::Less)
        } else if *x == *y {
            Some(Comparison::Same)
        } else {
            Some(Comparison::More)
        },
        (DataType::Keyword(x), DataType::Keyword(y)) => Some(
            order_bytes(x.name.as_str().as_bytes(), y.name.as_str().as_bytes()),
        ),
        (DataType::Long(x), DataType::Long(y)) => if *x < *y {
            Some(Comparison::Less)
        } else if *x == *y {
            Some(Comparison::Same)
        } else {
            Some(Comparison::More)
        },
        (DataType::String(x), DataType::String(y)) => Some(
            order_bytes(x.as_str().as_bytes(), y.as_str().as_bytes()),
        ),
        (DataType::Uuid(x), DataType::Uuid(y)) => if *x < *y {
            Some(Comparison::Less)
        } else if *x == *y {
            Some(Comparison::Same)
        } else {
            Some(Comparison::More)
        },
        _ => None,
    }
}

/// The order of byte strings, seen from both sides and chained.
proof fn lemma_bytes_order(a: Seq<u8>, b: Seq<u8>, c: Seq<u8>)
    ensures
        bytes_order(b, a) == flipped(bytes_order(a, b)),
        bytes_order(a, b) != Comparison::More && bytes_order(b, c) != Comparison::More
            ==> bytes_order(a, c) == (if bytes_order(a, b) == Comparison::Same && bytes_order(b, c)
            == Comparison::Same {
            Comparison::Same
        } else {
            Comparison::Less
        }),
{
    byte_string::lemma_before_irreflexive(a);
    byte_string::lemma_before_total(a, b);
    if byte_string::before(a, b) {
        byte_string::lemma_before_asymmetric(a, b);
    }
    if byte_string::before(b, a) {
        byte_string::lemma_before_asymmetric(b, a);
    }
    if byte_string::before(a, b) && byte_string::before(b, c) {
        byte_string::lemma_before_transitive(a, b, c);
    }
}

/// The order of values, seen from both sides and chained.
pub proof fn lemma_value_order(a: Value, b: Value, c: Value)
    ensures
        value_order(b, a) == (match value_order(a, b) {
            Some(x) => Some(flipped(x)),
            None => None,
        }),
        (value_order(a, b) matches Some(x) && value_order(b, c) matches Some(y) && x
            != Comparison::More && y != Comparison::More) ==> value_order(a, c) == Some(
            if value_order(a, b) == Some(Comparison::Same) && value_order(b, c) == Some(
                Comparison::Same,
            ) {
                Comparison::Same
            } else {
                Comparison::Less
            },
        ),
{
    match (a, b) {
        (Value::Bytes(x), Value::Bytes(y)) => {
            lemma_bytes_order(x, y, y);
            if let Value::Bytes(z) = c {
                lemma_bytes_order(x, y, z);
            }
        },
        (Value::Keyword(x), Value::Keyword(y)) => {
            let p = vstd::utf8::encode_utf8(x);
            let q = vstd::utf8::encode_utf8(y);
            lemma_bytes_order(p, q, q);
            if let Value::Keyword(z) = c {
                lemma_bytes_order(p, q, vstd::utf8::encode_utf8(z));
            }
        },
        (Value::String(x), Value::String(y)) => {
            let p = vstd::utf8::encode_utf8(x);
            let q = vstd::utf8::encode_utf8(y);
            lemma_bytes_order(p, q, q);
            if let Value::String(z) = c {
                lemma_bytes_order(p, q, vstd::utf8::encode_utf8(z));
            }
        },
        _ => {},
    }
}

/// How one row stands to another: the first of the columns to sort by in which they differ
/// decides, the other way round where it descends.
pub open spec fn row_order(
    a: Seq<Value>,
    b: Seq<Value>,
    keys: Seq<(usize, Direction)>,
) -> Option<Comparison>
    decreases keys.len(),
{
    if keys.len() == 0 {
        Some(Comparison::Same)
    } else {
        let col = keys[0].0 as int;
        match value_order(a[col], b[col]) {
            None => None,
            Some(Comparison::Same) => row_order(a, b, keys.drop_first()),
            Some(c) => Some(
                match keys[0].1 {
                    Direction::Ascending => c,
                    Direction::Descending => flipped(c),
                },
            ),
        }
    }
}

/// Whether one row may stand before another.
pub open spec fn row_le(a: Seq<Value>, b: Seq<Value>, keys: Seq<(usize, Direction)>) -> bool {
    row_order(a, b, keys) matches Some(c) && c != Comparison::More
}

/// The order of rows, seen from both sides and chained.
proof fn lemma_row_order(
    a: Seq<Value>,
    b: Seq<Value>,
    c: Seq<Value>,
    keys: Seq<(usize, Direction)>,
)
    ensures
        row_order(b, a, keys) == (match row_order(a, b, keys) {
            Some(x) => Some(flipped(x)),
            None => None,
        }),
        row_le(a, b, keys) && row_le(b, c, keys) ==> row_order(a, c, keys) == Some(
            if row_order(a, b, keys) == Some(Comparison::Same) && row_order(b, c, keys) == Some(
                Comparison::Same,
            ) {
                Comparison::Same
            } else {
                Comparison::Less
            },
        ),
    decreases keys.len(),
{
    if keys.len() > 0 {
        let col = keys[0].0 as int;
        lemma_value_order(a[col], b[col], c[col]);
        lemma_value_order(c[col], b[col], a[col]);
        lemma_value_order(a[col], b[col], b[col]);
        lemma_value_order(b[col], c[col], c[col]);
        lemma_value_order(a[col], c[col], c[col]);
        lemma_row_order(a, b, c, keys.drop_first());
    }
}

/// How one row stands to another.
pub fn order_rows(a: &Vec<DataType>, b: &Vec<DataType>, keys: &[(usize, Direction)]) -> (r: Option<
    Comparison,
>)
    requires
        forall|i: int|
            0 <= i < keys@.len() ==> (#[trigger] keys@[i]).0 < a@.len() && keys@[i].0 < b@.len(),
    ensures
        r == row_order(lower::values(a@), lower::values(b@), keys@),
{
    let ghost x = lower::values(a@);
    let ghost y = lower::values(b@);
    let mut i: usize = 0;
    assert(keys@.skip(0) =~= keys@);
    while i < keys.len()
        invariant
            i <= keys@.len(),
            x == lower::values(a@),
            y == lower::values(b@),
            forall|j: int|
                0 <= j < keys@.len() ==> (#[trigger] keys@[j]).0 < a@.len() && keys@[j].0 < b@.len(),
            row_order(x, y, keys@) == row_order(x, y, keys@.skip(i as int)),
        decreases keys@.len() - i,
    {
        let col: usize = keys[i].0;
        assert(keys@[i as int].0 < a@.len());
        assert(keys@.skip(i as int).drop_first() =~= keys@.skip(i + 1));
        assert(keys@.skip(i as int)[0] == keys@[i as int]);
        match order_values(&a[col], &b[col]) {
            None => {
                return None;
            },
            Some(Comparison::Same) => {},
            Some(Comparison::Less) => {
                return match keys[i].1 {
                    Direction::Ascending => Some(Comparison::Less),
                    Direction::Descending => Some(Comparison::More),
                };
            },
            Some(Comparison::More) => {
                return match keys[i].1 {
                    Direction::Ascending => Some(Comparison::More),
                    Direction::Descending => Some(Comparison::Less),
                };
            },
        }
        i += 1;
    }
    assert(keys@.skip(i as int).len() == 0);
    Some(Comparison::Same)
}

/// Whether the row at one place may stand before the row at another: it is not above it, and
/// where the two are not told apart it came first.
pub open spec fn may_precede(
    rows: Seq<Seq<Value>>,
    keys: Seq<(usize, Direction)>,
    x: int,
    y: int,
) -> bool {
    row_le(rows[x], rows[y], keys) && (row_order(rows[x], rows[y], keys) == Some(Comparison::Same)
        ==> x < y)
}

/// What may precede is chained.
proof fn lemma_chain(
    rows: Seq<Seq<Value>>,
    keys: Seq<(usize, Direction)>,
    x: int,
    y: int,
    z: int,
)
    requires
        may_precede(rows, keys, x, y),
        may_precede(rows, keys, y, z),
    ensures
        may_precede(rows, keys, x, z),
{
    lemma_row_order(rows[x], rows[y], rows[z], keys);
}

/// Whether `order` lists the places of the first rows, each once, so that the rows there are in
/// order and rows that are not told apart keep their order.
pub open spec fn stable_order(
    rows: Seq<Seq<Value>>,
    keys: Seq<(usize, Direction)>,
    order: Seq<usize>,
    n: int,
) -> bool {
    &&& order.len() == n
    &&& forall|i: int| 0 <= i < order.len() ==> (#[trigger] order[i]) < n
    &&& forall|k: int| 0 <= k < n ==> order.contains(#[trigger] byte_string::index_of_place(k))
    &&& forall|i: int, j: int|
        0 <= i < j < order.len() ==> may_precede(
            rows,
            keys,
            #[trigger] order[i] as int,
            #[trigger] order[j] as int,
        )
}

/// Whether all rows can be told apart or are the same.
pub open spec fn comparable(rows: Seq<Seq<Value>>, keys: Seq<(usize, Direction)>) -> bool {
    forall|i: int, j: int|
        0 <= i < rows.len() && 0 <= j < rows.len() && i != j ==> row_order(
            #[trigger] rows[i],
            #[trigger] rows[j],
            keys,
        ) is Some
}

/// The first `n` places, with the next one put in at `k`.
proof fn lemma_places(order: Seq<usize>, n: int, k: int)
    requires
        0 <= n <= usize::MAX,
        order.len() == n,
        0 <= k <= n,
        forall|i: int| 0 <= i < order.len() ==> (#[trigger] order[i]) < n,
        forall|m: int| 0 <= m < n ==> order.contains(#[trigger] byte_string::index_of_place(m)),
    ensures
        forall|i: int|
            0 <= i < n + 1 ==> (#[trigger] order.insert(k, n as usize)[i]) < n + 1,
        forall|m: int|
            0 <= m < n + 1 ==> order.insert(k, n as usize).contains(
                #[trigger] byte_string::index_of_place(m),
            ),
{
    let longer = order.insert(k, n as usize);
    assert forall|i: int| 0 <= i < longer.len() implies (#[trigger] longer[i]) < n + 1 by {
        if i < k {
            assert(longer[i] == order[i]);
        } else if i > k {
            assert(longer[i] == order[i - 1]);
        }
    }
    assert forall|m: int| 0 <= m < n + 1 implies longer.contains(
        #[trigger] byte_string::index_of_place(m),
    ) by {
        if m < n {
            assert(order.contains(byte_string::index_of_place(m)));
            let at = order.index_of(byte_string::index_of_place(m));
            if at < k {
                assert(longer[at] == order[at]);
            } else {
                assert(longer[at + 1] == order[at]);
            }
        } else {
            assert(longer[k] == n as usize);
        }
    }
}

/// The place of a new row, which comes last so far, keeps the order stable.
proof fn lemma_insert(
    rows: Seq<Seq<Value>>,
    keys: Seq<(usize, Direction)>,
    order: Seq<usize>,
    n: int,
    k: int,
)
    requires
        0 <= n < rows.len(),
        n <= usize::MAX,
        stable_order(rows, keys, order, n),
        0 <= k <= order.len(),
        k > 0 ==> may_precede(rows, keys, order[k - 1] as int, n),
        k < order.len() ==> may_precede(rows, keys, n, order[k] as int),
    ensures
        stable_order(rows, keys, order.insert(k, n as usize), n + 1),
{
    let longer = order.insert(k, n as usize);
    lemma_places(order, n, k);
    assert forall|i: int, j: int| 0 <= i < j < longer.len() implies may_precede(
        rows,
        keys,
        #[trigger] longer[i] as int,
        #[trigger] longer[j] as int,
    ) by {
        if j < k {
            assert(longer[i] == order[i] && longer[j] == order[j]);
        } else if i < k && j == k {
            assert(longer[i] == order[i] && longer[j] == n);
            if i < k - 1 {
                lemma_chain(rows, keys, order[i] as int, order[k - 1] as int, n);
            }
        } else if i < k {
            assert(longer[i] == order[i] && longer[j] == order[j - 1]);
        } else if i == k {
            assert(longer[i] == n && longer[j] == order[j - 1]);
            if j - 1 > k {
                lemma_chain(rows, keys, n, order[k] as int, order[j - 1] as int);
            }
        } else {
            assert(longer[i] == order[i - 1] && longer[j] == order[j - 1]);
        }
    }
}

/// The places of rows in the order of the columns to sort by; rows that are not told apart keep
/// their order.
pub fn stable_places(rows: &Vec<Vec<DataType>>, keys: &[(usize, Direction)]) -> (r: Result<
    Vec<usize>,
    Error,
>)
    requires
        forall|i: int, j: int|
            0 <= i < keys@.len() && 0 <= j < rows@.len() ==> (#[trigger] keys@[i]).0
                < #[trigger] rows@[j]@.len(),
    ensures
        match r {
            Ok(order) => stable_order(
                lower::value_rows(rows@),
                keys@,
                order@,
                rows@.len() as int,
            ),
            Err(e) => e@ == ErrorView::Incomparable && !comparable(lower::value_rows(rows@), keys@),
        },
{
    let ghost all = lower::value_rows(rows@);
    let mut order: Vec<usize> = Vec::new();
    let mut n: usize = 0;
    while n < rows.len()
        invariant
            n <= rows@.len() == all.len(),
            all == lower::value_rows(rows@),
            forall|i: int, j: int|
                0 <= i < keys@.len() && 0 <= j < rows@.len() ==> (#[trigger] keys@[i]).0
                    < #[trigger] rows@[j]@.len(),
            stable_order(all, keys@, order@, n as int),
        decreases rows@.len() - n,
    {
        let mut low: usize = 0;
        let mut high: usize = order.len();
        while low < high
            invariant
                low <= high <= order@.len() == n,
                n < rows@.len() == all.len(),
                all == lower::value_rows(rows@),
                forall|i: int, j: int|
                    0 <= i < keys@.len() && 0 <= j < rows@.len() ==> (#[trigger] keys@[i]).0
                        < #[trigger] rows@[j]@.len(),
                stable_order(all, keys@, order@, n as int),
                low > 0 ==> may_precede(all, keys@, order@[low - 1] as int, n as int),
                high < order@.len() ==> may_precede(
                    all,
                    keys@,
                    n as int,
                    order@[high as int] as int,
                ),
            decreases high - low,
        {
            let middle: usize = low + (high - low) / 2;
            let at: usize = order[middle];
            assert(order@[middle as int] < n);
            assert forall|i: int| 0 <= i < keys@.len() implies (#[trigger] keys@[i]).0
                < rows@[n as int]@.len() && keys@[i].0 < rows@[at as int]@.len() by {
                assert(rows@[n as int]@.len() > keys@[i].0);
                assert(rows@[at as int]@.len() > keys@[i].0);
            }
            match order_rows(&rows[n], &rows[at], keys) {
                Some(Comparison::Less) => {
                    high = middle;
                },
                Some(_) => {
                    proof {
                        lemma_row_order(
                            all[n as int],
                            all[at as int],
                            all[at as int],
                            keys@,
                        );
                    }
                    low = middle + 1;
                },
                None => {
                    assert(row_order(all[n as int], all[at as int], keys@) is None);
                    return Err(Error::Incomparable);
                },
            }
        }
        proof {
            lemma_insert(all, keys@, order@, n as int, low as int);
        }
        order.insert(low, n);
        n += 1;
    }
    Ok(order)
}

} // verus!
