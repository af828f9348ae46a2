//! Numbers in expressions and aggregates.
//!
//! Arithmetic on whole numbers is done here. Where a floating-point number takes part, both
//! operands become floating-point numbers, and the operation is left to the caller.

use vstd::prelude::*;

use crate::error::{self, Error, ErrorView};
use crate::value::{DataType, Value};

verus! {

/// A number; a floating-point number is held as its bit pattern.
#[derive(Clone, Copy, Debug, PartialEq, Eq, Structural)]
pub enum NumericValue {
    Long(i64),
    Double(u64),
}

/// A number to aggregate: one that is taken as it is, or one that becomes a floating-point number
/// first.
#[derive(Clone, Copy, Debug, PartialEq, Eq, Structural)]
pub enum AggregateInput {
    Exact(NumericValue),
    FromFloat(u32),
    FromBigInt(i128),
}

/// What an operation gives: a whole number if it has one, or it is one on floating-point numbers.
#[derive(Clone, Copy, Debug, PartialEq, Eq, Structural)]
pub enum Arithmetic {
    Whole(Option<i64>),
    Floating,
}

/// A whole number without its sign.
pub open spec fn magnitude(x: int) -> int {
    if x < 0 {
        -x
    } else {
        x
    }
}

/// The quotient of whole numbers, cut off at the point.
pub open spec fn quotient(x: int, d: int) -> int {
    if (x < 0) != (d < 0) {
        -(magnitude(x) / magnitude(d))
    } else {
        magnitude(x) / magnitude(d)
    }
}

/// What the quotient leaves, with the sign of the dividend.
pub open spec fn remainder(x: int, d: int) -> int {
    if x < 0 {
        -(magnitude(x) % magnitude(d))
    } else {
        magnitude(x) % magnitude(d)
    }
}

/// A whole number where it fits.
pub open spec fn fitting(x: int) -> Option<i64> {
    if i64::MIN <= x <= i64::MAX {
        Some(x as i64)
    } else {
        None
    }
}

/// Quotient and remainder give the dividend back, and the remainder is smaller than the divisor.
pub proof fn law_quotient_and_remainder(x: int, d: int)
    requires
        d != 0,
    ensures
        quotient(x, d) * d + remainder(x, d) == x,
        magnitude(remainder(x, d)) < magnitude(d),
{
    let m = magnitude(x);
    let n = magnitude(d);
    let q = m / n;
    vstd::arithmetic::div_mod::lemma_fundamental_div_mod(m, n);
    vstd::arithmetic::div_mod::lemma_mod_bound(m, n);
    assert(n * q == q * n) by (nonlinear_arith);
    assert((-q) * d == -(q * d)) by (nonlinear_arith);
    assert(q * (-d) == -(q * d)) by (nonlinear_arith);
}

impl NumericValue {
    /// A number in an expression; other values have none.
    pub fn from_expression(value: &DataType) -> (r: Option<Self>)
        ensures
            r == (match value@ {
                Value::Long(x) => Some(NumericValue::Long(x)),
                Value::Double(bits) => Some(NumericValue::Double(bits)),
                _ => None,
            }),
    {
        match value {
            DataType::Long(x) => Some(NumericValue::Long(*x)),
            DataType::Double(bits) => Some(NumericValue::Double(*bits)),
            _ => None,
        }
    }

    /// A number to aggregate; other values are refused.
    pub fn from_aggregate(value: &DataType) -> (r: Result<AggregateInput, Error>)
        ensures
            error::told(r) == (match value@ {
                Value::Long(x) => Ok::<AggregateInput, ErrorView>(
                    AggregateInput::Exact(NumericValue::Long(x)),
                ),
                Value::Double(bits) => Ok(AggregateInput::Exact(NumericValue::Double(bits))),
                Value::Float(bits) => Ok(AggregateInput::FromFloat(bits)),
                Value::BigInt(x) => Ok(AggregateInput::FromBigInt(x)),
                other => Err(ErrorView::NotNumeric(other)),
            }),
    {
        match value {
            DataType::Long(x) => Ok(AggregateInput::Exact(NumericValue::Long(*x))),
            DataType::Double(bits) => Ok(AggregateInput::Exact(NumericValue::Double(*bits))),
            DataType::Float(bits) => Ok(AggregateInput::FromFloat(*bits)),
            DataType::BigInt(x) => Ok(AggregateInput::FromBigInt(*x)),
            other => Err(Error::NotNumeric(other.clone())),
        }
    }

    /// The sum.
    pub fn checked_add(self, other: Self) -> (r: Arithmetic)
        ensures
            r == (match (self, other) {
                (NumericValue::Long(x), NumericValue::Long(y)) => Arithmetic::Whole(fitting(x + y)),
                _ => Arithmetic::Floating,
            }),
    {
        match (self, other) {
            (NumericValue::Long(x), NumericValue::Long(y)) => Arithmetic::Whole(x.checked_add(y)),
            _ => Arithmetic::Floating,
        }
    }

    /// The difference.
    pub fn checked_sub(self, other: Self) -> (r: Arithmetic)
        ensures
            r == (match (self, other) {
                (NumericValue::Long(x), NumericValue::Long(y)) => Arithmetic::Whole(fitting(x - y)),
                _ => Arithmetic::Floating,
            }),
    {
        match (self, other) {
            (NumericValue::Long(x), NumericValue::Long(y)) => Arithmetic::Whole(x.checked_sub(y)),
            _ => Arithmetic::Floating,
        }
    }

    /// The product.
    pub fn checked_mul(self, other: Self) -> (r: Arithmetic)
        ensures
            r == (match (self, other) {
                (NumericValue::Long(x), NumericValue::Long(y)) => Arithmetic::Whole(fitting(x * y)),
                _ => Arithmetic::Floating,
            }),
    {
        match (self, other) {
            (NumericValue::Long(x), NumericValue::Long(y)) => Arithmetic::Whole(x.checked_mul(y)),
            _ => Arithmetic::Floating,
        }
    }

    /// The quotient; there is none by zero.
    pub fn checked_div(self, other: Self) -> (r: Arithmetic)
        ensures
            r == (match (self, other) {
                (NumericValue::Long(x), NumericValue::Long(y)) => Arithmetic::Whole(
                    if y == 0 {
                        None
                    } else {
                        fitting(quotient(x as int, y as int))
                    },
                ),
                _ => Arithmetic::Floating,
            }),
    {
        match (self, other) {
            (NumericValue::Long(x), NumericValue::Long(y)) => {
                assert(y != 0 && x == 0 ==> quotient(x as int, y as int) == 0);
                Arithmetic::Whole(x.checked_div(y))
            },
            _ => Arithmetic::Floating,
        }
    }

    /// What a quotient leaves; there is none by zero, nor where the quotient does not fit.
    pub fn checked_rem(self, other: Self) -> (r: Arithmetic)
        ensures
            r == (match (self, other) {
                (NumericValue::Long(x), NumericValue::Long(y)) => Arithmetic::Whole(
                    if y == 0 || fitting(quotient(x as int, y as int)) is None {
                        None
                    } else {
                        fitting(remainder(x as int, y as int))
                    },
                ),
                _ => Arithmetic::Floating,
            }),
    {
        match (self, other) {
            (NumericValue::Long(x), NumericValue::Long(y)) => {
                proof {
                    if y != 0 {
                        lemma_quotient_fits(x, y);
                        let m = magnitude(x as int);
                        let n = magnitude(y as int);
                        vstd::arithmetic::div_mod::lemma_mod_bound(m, n);
                        vstd::arithmetic::div_mod::lemma_small_mod(0, n as nat);
                        assert(x as int * -1 == -(x as int) && y as int * -1 == -(y as int));
                        assert((m % n) * -1 == -(m % n));
                    }
                }
                Arithmetic::Whole(x.checked_rem(y))
            },
            _ => Arithmetic::Floating,
        }
    }

    /// The number as a value.
    pub fn into_data_type(self) -> (r: DataType)
        ensures
            r@ == (match self {
                NumericValue::Long(x) => Value::Long(x),
                NumericValue::Double(bits) => Value::Double(bits),
            }),
    {
        match self {
            NumericValue::Long(x) => DataType::Long(x),
            NumericValue::Double(bits) => DataType::Double(bits),
        }
    }
}

/// One quotient does not fit: that of the least number by minus one.
proof fn lemma_quotient_fits(x: i64, d: i64)
    requires
        d != 0,
    ensures
        (fitting(quotient(x as int, d as int)) is None) == (x == i64::MIN && d == -1),
{
    let m = magnitude(x as int);
    let n = magnitude(d as int);
    assert(0 <= m / n <= m) by (nonlinear_arith)
        requires
            m >= 0,
            n >= 1,
    ;
    if n >= 2 {
        assert(m / n <= m / 2) by (nonlinear_arith)
            requires
                m >= 0,
                n >= 2,
        ;
    } else {
        assert(m / 1 == m);
    }
}

/// Adding, subtracting and multiplying whole numbers gives their sum, difference and product, where
/// these fit.
pub proof fn law_whole_arithmetic(x: i64, y: i64, sum: Arithmetic, less: Arithmetic, product: Arithmetic)
    requires
        call_ensures(
            NumericValue::checked_add,
            (NumericValue::Long(x), NumericValue::Long(y)),
            sum,
        ),
        call_ensures(
            NumericValue::checked_sub,
            (NumericValue::Long(x), NumericValue::Long(y)),
            less,
        ),
        call_ensures(
            NumericValue::checked_mul,
            (NumericValue::Long(x), NumericValue::Long(y)),
            product,
        ),
    ensures
        match sum {
            Arithmetic::Whole(Some(r)) => r == x + y,
            Arithmetic::Whole(None) => !(i64::MIN <= x + y <= i64::MAX),
            Arithmetic::Floating => false,
        },
        match less {
            Arithmetic::Whole(Some(r)) => r == x - y,
            Arithmetic::Whole(None) => !(i64::MIN <= x - y <= i64::MAX),
            Arithmetic::Floating => false,
        },
        match product {
            Arithmetic::Whole(Some(r)) => r == x * y,
            Arithmetic::Whole(None) => !(i64::MIN <= x * y <= i64::MAX),
            Arithmetic::Floating => false,
        },
{
}

/// Dividing whole numbers gives a quotient and a remainder that give the dividend back; the
/// remainder is smaller than the divisor and has the sign of the dividend. There are none where the
/// divisor is zero, or where the quotient does not fit.
pub proof fn law_whole_division(x: i64, y: i64, quotient: Arithmetic, remainder: Arithmetic)
    requires
        call_ensures(
            NumericValue::checked_div,
            (NumericValue::Long(x), NumericValue::Long(y)),
            quotient,
        ),
        call_ensures(
            NumericValue::checked_rem,
            (NumericValue::Long(x), NumericValue::Long(y)),
            remainder,
        ),
    ensures
        y == 0 || (x == i64::MIN && y == -1) ==> quotient == Arithmetic::Whole(None) && remainder
            == Arithmetic::Whole(None),
        y != 0 && !(x == i64::MIN && y == -1) ==> {
            &&& quotient matches Arithmetic::Whole(Some(q)) && (remainder matches Arithmetic::Whole(
                Some(m),
            ) && q * y + m == x && magnitude(m as int) < magnitude(y as int) && (m == 0 || (m < 0)
                == (x < 0)))
        },
{
    if y != 0 {
        lemma_quotient_fits(x, y);
        law_quotient_and_remainder(x as int, y as int);
        let n = magnitude(y as int);
        vstd::arithmetic::div_mod::lemma_mod_bound(magnitude(x as int), n);
    }
}

/// An operation on a floating-point number is one on floating-point numbers.
pub proof fn law_floating_arithmetic(
    a: NumericValue,
    b: NumericValue,
    sum: Arithmetic,
    less: Arithmetic,
    product: Arithmetic,
    quotient: Arithmetic,
    remainder: Arithmetic,
)
    requires
        a is Double || b is Double,
        call_ensures(NumericValue::checked_add, (a, b), sum),
        call_ensures(NumericValue::checked_sub, (a, b), less),
        call_ensures(NumericValue::checked_mul, (a, b), product),
        call_ensures(NumericValue::checked_div, (a, b), quotient),
        call_ensures(NumericValue::checked_rem, (a, b), remainder),
    ensures
        sum is Floating,
        less is Floating,
        product is Floating,
        quotient is Floating,
        remainder is Floating,
{
}

/// Numbers are taken from values and made values again without change. In an expression only whole
/// numbers and doubles are numbers.
pub proof fn law_numbers_of_values(
    v: DataType,
    n: NumericValue,
    number: Option<NumericValue>,
    summand: Result<AggregateInput, Error>,
    made: DataType,
)
    requires
        call_ensures(NumericValue::from_expression, (&v,), number),
        call_ensures(NumericValue::from_aggregate, (&v,), summand),
        call_ensures(NumericValue::into_data_type, (n,), made),
    ensures
        match v {
            DataType::Long(x) => number == Some(NumericValue::Long(x)) && (summand matches Ok(i) && i
                == AggregateInput::Exact(NumericValue::Long(x))),
            DataType::Double(x) => number == Some(NumericValue::Double(x)) && (summand matches Ok(i)
                && i == AggregateInput::Exact(NumericValue::Double(x))),
            DataType::Float(x) => number is None && (summand matches Ok(i) && i
                == AggregateInput::FromFloat(x)),
            DataType::BigInt(x) => number is None && (summand matches Ok(i) && i
                == AggregateInput::FromBigInt(x)),
            _ => number is None && summand is Err,
        },
        match n {
            NumericValue::Long(x) => made == DataType::Long(x),
            NumericValue::Double(x) => made == DataType::Double(x),
        },
{
}

} // verus!
