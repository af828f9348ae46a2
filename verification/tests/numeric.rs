use triplox::error::Error;
use triplox::numeric::{AggregateInput, Arithmetic, NumericValue};
use triplox::value::DataType;

fn double(x: f64) -> NumericValue {
    NumericValue::Double(x.to_bits())
}

#[test]
fn expression_numeric_types_stay_narrow() {
    assert_eq!(
        NumericValue::from_expression(&DataType::Long(1)),
        Some(NumericValue::Long(1))
    );
    assert!(NumericValue::from_expression(&DataType::Float(1.0f32.to_bits())).is_none());
}

#[test]
fn aggregated_numbers_are_taken_exactly_or_made_double() {
    assert_eq!(
        NumericValue::from_aggregate(&DataType::Float(1.5f32.to_bits())).unwrap(),
        AggregateInput::FromFloat(1.5f32.to_bits())
    );
    assert_eq!(
        NumericValue::from_aggregate(&DataType::BigInt(2)).unwrap(),
        AggregateInput::FromBigInt(2)
    );
    assert_eq!(
        NumericValue::from_aggregate(&DataType::Double(2.5f64.to_bits())).unwrap(),
        AggregateInput::Exact(double(2.5))
    );
    assert_eq!(
        NumericValue::from_aggregate(&DataType::Boolean(true)),
        Err(Error::NotNumeric(DataType::Boolean(true)))
    );
}

#[test]
fn mixed_operations_are_on_floating_point_numbers() {
    let two = NumericValue::Long(2);
    assert_eq!(two.checked_add(double(0.5)), Arithmetic::Floating);
    assert_eq!(double(0.5).checked_sub(two), Arithmetic::Floating);
    assert_eq!(double(0.5).checked_mul(double(0.5)), Arithmetic::Floating);
    assert_eq!(two.checked_div(double(0.5)), Arithmetic::Floating);
    assert_eq!(two.checked_rem(double(0.5)), Arithmetic::Floating);
}

#[test]
fn whole_operations_round_toward_zero_and_refuse_overflow() {
    let long = NumericValue::Long;
    assert_eq!(long(2).checked_add(long(3)), Arithmetic::Whole(Some(5)));
    assert_eq!(long(i64::MAX).checked_add(long(1)), Arithmetic::Whole(None));
    assert_eq!(long(i64::MIN).checked_sub(long(1)), Arithmetic::Whole(None));
    assert_eq!(long(-4).checked_mul(long(3)), Arithmetic::Whole(Some(-12)));
    assert_eq!(long(i64::MAX).checked_mul(long(2)), Arithmetic::Whole(None));
    assert_eq!(long(-7).checked_div(long(2)), Arithmetic::Whole(Some(-3)));
    assert_eq!(long(-7).checked_rem(long(2)), Arithmetic::Whole(Some(-1)));
    assert_eq!(long(7).checked_rem(long(-2)), Arithmetic::Whole(Some(1)));
    assert_eq!(long(7).checked_div(long(0)), Arithmetic::Whole(None));
    assert_eq!(long(7).checked_rem(long(0)), Arithmetic::Whole(None));
    assert_eq!(long(i64::MIN).checked_div(long(-1)), Arithmetic::Whole(None));
    assert_eq!(long(i64::MIN).checked_rem(long(-1)), Arithmetic::Whole(None));
}

#[test]
fn a_number_is_a_value_again() {
    assert_eq!(NumericValue::Long(7).into_data_type(), DataType::Long(7));
    assert_eq!(double(0.5).into_data_type(), DataType::Double(0.5f64.to_bits()));
}

#[test]
fn values_are_shown_in_errors() {
    let told = |value| Error::NotNumeric(value).message();
    let said = |shown: &str| format!("cannot convert {} to numeric for aggregation", shown);
    assert_eq!(told(DataType::String("a\"b\n".to_string())), said("String(\"a\\\"b\\n\")"));
    assert_eq!(told(DataType::BigInt(i128::MIN)), said(&format!("BigInt({})", i128::MIN)));
    assert_eq!(told(DataType::BigInt(120)), said("BigInt(120)"));
    assert_eq!(told(DataType::Bytes(vec![0, 17, 255])), said("Bytes([0, 17, 255])"));
    assert_eq!(told(DataType::Bytes(vec![])), said("Bytes([])"));
    assert_eq!(told(DataType::Long(-7)), said("Long(-7)"));
    let id = 0x67e55044_10b1_426f_9247_bb680e5fe0c8;
    assert_eq!(
        told(DataType::Uuid(id)),
        said("Uuid(67e55044-10b1-426f-9247-bb680e5fe0c8)")
    );
    assert_eq!(
        told(DataType::Uuid(1)),
        said("Uuid(00000000-0000-0000-0000-000000000001)")
    );
    assert_eq!(told(DataType::Vector(vec![3, 4])), said("Vector([3, 4])"));
    assert_eq!(told(DataType::Document(vec![5])), said("Document([5])"));
    assert_eq!(told(DataType::Double(1.5f64.to_bits())), said("Double(0x3ff8000000000000)"));
    assert_eq!(told(DataType::Float(1.5f32.to_bits())), said("Float(0x3fc00000)"));
    assert_eq!(told(DataType::Instant(500)), said("Instant(1970-01-01T00:00:00.000500Z)"));
}
