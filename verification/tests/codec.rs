use triplox::codec::{
    decode, decode_datatype, decode_i64, encode, encode_datatype, encode_i64, encode_i64_bytes,
    index_type_to_prefix,
};
use triplox::error::Error;
use triplox::protocol::{
    data_type_tag, micros_to_datetime, ErrorCode, TAG_BOOLEAN, TAG_KEYWORD, TAG_LONG, TAG_STRING,
    TAG_VECTOR,
};
use triplox::value::{DataType, IndexType, Keyword};

fn values() -> Vec<DataType> {
    vec![
        DataType::BigInt(i128::MIN),
        DataType::BigInt(7),
        DataType::Boolean(false),
        DataType::Boolean(true),
        DataType::Bytes(vec![]),
        DataType::Bytes(vec![0, 1, 0, 0, 255]),
        DataType::Double(1.5f64.to_bits()),
        DataType::Float((-0.25f32).to_bits()),
        DataType::Instant(-1),
        DataType::Keyword(Keyword::new("db/ident")),
        DataType::Long(i64::MIN),
        DataType::Long(-1),
        DataType::Long(0),
        DataType::Long(i64::MAX),
        DataType::String("".to_string()),
        DataType::String("na\u{ef}ve \u{1f980}\0!".to_string()),
        DataType::Uuid(u128::MAX),
        DataType::Vector(vec![1, 0, 2]),
        DataType::Document(vec![0]),
    ]
}

#[test]
fn decoding_gives_back_what_was_encoded() {
    for value in values() {
        let bytes = encode(&value);
        assert_eq!(bytes[0], data_type_tag(&value));
        assert_eq!(decode(&bytes).unwrap(), value);
        let mut more = vec![9, 9];
        encode_datatype(&value, &mut more);
        more.extend([1, 2, 3]);
        assert_eq!(decode_datatype(&more, 2).unwrap(), (value, 2 + bytes.len()));
    }
}

#[test]
fn encodings_have_these_bytes() {
    assert_eq!(
        encode(&DataType::Long(0)),
        vec![TAG_LONG, 127, 255, 255, 255, 255, 255, 255, 255]
    );
    assert_eq!(encode(&DataType::Boolean(true)), vec![TAG_BOOLEAN, 1]);
    assert_eq!(encode(&DataType::String("a".to_string())), vec![TAG_STRING, 97, 0, 0]);
    assert_eq!(
        encode(&DataType::Keyword(Keyword::new("k"))),
        vec![TAG_KEYWORD, 107, 0, 0]
    );
    assert_eq!(encode(&DataType::Vector(vec![0])), vec![TAG_VECTOR, 0, 255, 0, 0]);
}

#[test]
fn larger_numbers_come_first() {
    let numbers = [i64::MAX, 1000, 1, 0, -1, -1000, i64::MIN];
    for pair in numbers.windows(2) {
        assert!(encode_i64_bytes(pair[0]) < encode_i64_bytes(pair[1]));
    }
    let mut out = vec![];
    encode_i64(5, &mut out);
    assert_eq!(out, encode_i64_bytes(5));
    assert_eq!(decode_i64(&out, 0), Ok((5, 8)));
    assert_eq!(decode_i64(&out, 1), Err(Error::Decode));
}

#[test]
fn texts_keep_their_order() {
    let texts = ["", "\0", "\0a", "a", "a\0", "a\0b", "ab", "b"];
    for pair in texts.windows(2) {
        let bytes = |s: &str| encode(&DataType::String(s.to_string()));
        assert!(bytes(pair[0]) < bytes(pair[1]));
    }
}

#[test]
fn no_encoding_begins_another() {
    let all: Vec<Vec<u8>> = values().iter().map(encode).collect();
    for (i, a) in all.iter().enumerate() {
        for (j, b) in all.iter().enumerate() {
            assert_eq!(b.starts_with(a), i == j);
        }
    }
}

#[test]
fn what_is_no_encoding_is_refused() {
    assert_eq!(decode(&[]), Err(Error::Decode));
    assert_eq!(decode(&[254]), Err(Error::Decode));
    assert_eq!(decode(&[TAG_LONG, 1, 2]), Err(Error::Decode));
    assert_eq!(decode(&[TAG_STRING, 97]), Err(Error::Decode));
    assert_eq!(decode(&[TAG_STRING, 0, 7]), Err(Error::Decode));
}

#[test]
fn texts_that_are_no_unicode_are_refused() {
    assert_eq!(decode(&[TAG_STRING, 255, 0, 0]), Err(Error::Decode));
    assert_eq!(decode(&[TAG_KEYWORD, 0xc3, 0, 0]), Err(Error::Decode));
    assert_eq!(
        decode(&[TAG_STRING, 0xc3, 0xa9, 0, 0]),
        Ok(DataType::String("\u{e9}".to_string()))
    );
}

#[test]
fn each_index_has_its_first_byte() {
    let all = [
        (IndexType::EAV, 0),
        (IndexType::AVE, 1),
        (IndexType::AEV, 2),
        (IndexType::AE, 3),
        (IndexType::AV, 4),
        (IndexType::VAE, 5),
    ];
    for (index_type, byte) in all {
        assert_eq!(index_type_to_prefix(index_type), byte);
    }
}

#[test]
fn error_codes_are_read_back() {
    for code in 0..=u16::MAX {
        match ErrorCode::from_u16(code) {
            Ok(kind) => assert_eq!(kind.as_u16(), code),
            Err(e) => assert_eq!(e, Error::UnknownErrorCode(code)),
        }
    }
    assert_eq!(ErrorCode::from_u16(3001), Ok(ErrorCode::TxAborted));
}

#[test]
fn instants_have_a_date() {
    assert_eq!(micros_to_datetime(0), Ok(0));
    assert_eq!(micros_to_datetime(-1), Ok(-1));
    assert_eq!(micros_to_datetime(1_700_000_000_123_456), Ok(1_700_000_000_123_456));
    let first = -8_334_601_228_800_000_000;
    let last = 8_210_266_876_799_999_999;
    assert_eq!(micros_to_datetime(first), Ok(first));
    assert_eq!(micros_to_datetime(last), Ok(last));
    assert_eq!(micros_to_datetime(first - 1), Err(Error::InvalidTimestamp(first - 1)));
    assert_eq!(micros_to_datetime(last + 1), Err(Error::InvalidTimestamp(last + 1)));
    assert_eq!(micros_to_datetime(i64::MIN), Err(Error::InvalidTimestamp(i64::MIN)));
}
