//! Tags, limits and error codes that storage and clients share.

use vstd::prelude::*;

use crate::clock::{self, utc_micros};
use crate::error::{self, Error, ErrorView};
use crate::value::DataType;

verus! {

/// The instant of a number of microseconds since the epoch, before it too, if it has a date.
pub fn micros_to_datetime(micros: i64) -> (r: Result<i64, Error>)
    ensures
        error::told(r) == (if clock::has_date(micros as int) {
            Ok::<i64, ErrorView>(micros)
        } else {
            Err(ErrorView::InvalidTimestamp(micros))
        }),
{
    let (seconds, rest) = match (
        micros.checked_div_euclid(1_000_000),
        micros.checked_rem_euclid(1_000_000),
    ) {
        (Some(seconds), Some(rest)) => (seconds, rest),
        _ => {
            return Err(Error::InvalidTimestamp(micros));
        },
    };
    let nanos: u32 = (rest as u32) * 1000;
    match utc_micros(seconds, nanos) {
        Some(instant) => Ok(instant),
        None => Err(Error::InvalidTimestamp(micros)),
    }
}

/// Default largest size of a message body: 64 MiB.
pub const DEFAULT_MAX_MESSAGE_SIZE: u32 = 64 * 1024 * 1024;

/// Severity of an error after which the connection goes on (`E`).
pub const SEVERITY_ERROR: u8 = 69;

/// Severity of an error that ends the connection (`F`).
pub const SEVERITY_FATAL: u8 = 70;

pub const TAG_BIG_INT: u8 = 1;

pub const TAG_BOOLEAN: u8 = 2;

pub const TAG_BYTES: u8 = 3;

pub const TAG_DOUBLE: u8 = 4;

pub const TAG_FLOAT: u8 = 5;

pub const TAG_INSTANT: u8 = 6;

pub const TAG_LONG: u8 = 7;

/// Reserved for references.
pub const TAG_REF: u8 = 8;

pub const TAG_STRING: u8 = 9;

pub const TAG_UUID: u8 = 10;

pub const TAG_VECTOR: u8 = 11;

pub const TAG_MAP: u8 = 12;

pub const TAG_KEYWORD: u8 = 13;

/// In column descriptions only: a column of several concrete types.
pub const TAG_UNION: u8 = 127;

/// In column descriptions only: a column whose type is not known.
pub const TAG_UNKNOWN: u8 = 255;

/// The kinds of error that a client is told of.
#[derive(Debug, Clone, Copy, PartialEq, Eq, Structural)]
pub enum ErrorCode {
    ProtocolVersionMismatch,
    InvalidStartup,
    ParseError,
    QueryError,
    InvalidQuery,
    EmptyQuery,
    TxError,
    TxAborted,
    InternalError,
    MessageTooLarge,
    InvalidMessageType,
    QueryCancelled,
    ServerShuttingDown,
    InvalidDbHandle,
    TooManyOpenDbs,
}

impl ErrorCode {
    /// The number of an error kind: 1xxx for the connection, 2xxx for queries, 3xxx for
    /// transactions, 5xxx for the server and the protocol, 6xxx for database handles.
    pub open spec fn number(self) -> u16 {
        match self {
            ErrorCode::ProtocolVersionMismatch => 1000,
            ErrorCode::InvalidStartup => 1001,
            ErrorCode::ParseError => 2000,
            ErrorCode::QueryError => 2001,
            ErrorCode::InvalidQuery => 2002,
            ErrorCode::EmptyQuery => 2003,
            ErrorCode::TxError => 3000,
            ErrorCode::TxAborted => 3001,
            ErrorCode::InternalError => 5000,
            ErrorCode::MessageTooLarge => 5001,
            ErrorCode::InvalidMessageType => 5002,
            ErrorCode::QueryCancelled => 5003,
            ErrorCode::ServerShuttingDown => 5004,
            ErrorCode::InvalidDbHandle => 6000,
            ErrorCode::TooManyOpenDbs => 6001,
        }
    }

    /// The error kind of a number, if it is the number of one.
    pub fn from_u16(code: u16) -> (r: Result<Self, Error>)
        ensures
            match r {
                Ok(kind) => kind.number() == code,
                Err(e) => e@ == ErrorView::UnknownErrorCode(code) && forall|kind: ErrorCode|
                    #![trigger kind.number()]
                    kind.number() != code,
            },
    {
        match code {
            1000 => Ok(ErrorCode::ProtocolVersionMismatch),
            1001 => Ok(ErrorCode::InvalidStartup),
            2000 => Ok(ErrorCode::ParseError),
            2001 => Ok(ErrorCode::QueryError),
            2002 => Ok(ErrorCode::InvalidQuery),
            2003 => Ok(ErrorCode::EmptyQuery),
            3000 => Ok(ErrorCode::TxError),
            3001 => Ok(ErrorCode::TxAborted),
            5000 => Ok(ErrorCode::InternalError),
            5001 => Ok(ErrorCode::MessageTooLarge),
            5002 => Ok(ErrorCode::InvalidMessageType),
            5003 => Ok(ErrorCode::QueryCancelled),
            5004 => Ok(ErrorCode::ServerShuttingDown),
            6000 => Ok(ErrorCode::InvalidDbHandle),
            6001 => Ok(ErrorCode::TooManyOpenDbs),
            _ => Err(Error::UnknownErrorCode(code)),
        }
    }

    /// The number of the error kind.
    pub fn as_u16(self) -> (r: u16)
        ensures
            r == self.number(),
    {
        match self {
            ErrorCode::ProtocolVersionMismatch => 1000,
            ErrorCode::InvalidStartup => 1001,
            ErrorCode::ParseError => 2000,
            ErrorCode::QueryError => 2001,
            ErrorCode::InvalidQuery => 2002,
            ErrorCode::EmptyQuery => 2003,
            ErrorCode::TxError => 3000,
            ErrorCode::TxAborted => 3001,
            ErrorCode::InternalError => 5000,
            ErrorCode::MessageTooLarge => 5001,
            ErrorCode::InvalidMessageType => 5002,
            ErrorCode::QueryCancelled => 5003,
            ErrorCode::ServerShuttingDown => 5004,
            ErrorCode::InvalidDbHandle => 6000,
            ErrorCode::TooManyOpenDbs => 6001,
        }
    }
}

/// Different error kinds have different numbers, so a kind read back from its number is the
/// kind itself.
pub proof fn law_error_codes_distinct(a: ErrorCode, b: ErrorCode)
    requires
        a.number() == b.number(),
    ensures
        a == b,
{
}

/// A column of a query result.
#[derive(Debug, PartialEq)]
pub struct ColumnDescription {
    pub name: String,
    pub data_type: u8,
    /// The member tags of a union column, and nothing for another column.
    pub members: Option<Vec<u8>>,
}

/// The tag of a value's type.
pub open spec fn tag_of(v: crate::value::Value) -> u8 {
    match v {
        crate::value::Value::BigInt(_) => TAG_BIG_INT,
        crate::value::Value::Boolean(_) => TAG_BOOLEAN,
        crate::value::Value::Bytes(_) => TAG_BYTES,
        crate::value::Value::Double(_) => TAG_DOUBLE,
        crate::value::Value::Float(_) => TAG_FLOAT,
        crate::value::Value::Instant(_) => TAG_INSTANT,
        crate::value::Value::Keyword(_) => TAG_KEYWORD,
        crate::value::Value::Long(_) => TAG_LONG,
        crate::value::Value::String(_) => TAG_STRING,
        crate::value::Value::Uuid(_) => TAG_UUID,
        crate::value::Value::Vector(_) => TAG_VECTOR,
        crate::value::Value::Document(_) => TAG_MAP,
    }
}

/// The tag of a value's type.
pub fn data_type_tag(dt: &DataType) -> (r: u8)
    ensures
        r == tag_of(dt@),
{
    match dt {
        DataType::BigInt(_) => TAG_BIG_INT,
        DataType::Boolean(_) => TAG_BOOLEAN,
        DataType::Bytes(_) => TAG_BYTES,
        DataType::Double(_) => TAG_DOUBLE,
        DataType::Float(_) => TAG_FLOAT,
        DataType::Instant(_) => TAG_INSTANT,
        DataType::Keyword(_) => TAG_KEYWORD,
        DataType::Long(_) => TAG_LONG,
        DataType::String(_) => TAG_STRING,
        DataType::Uuid(_) => TAG_UUID,
        DataType::Vector(_) => TAG_VECTOR,
        DataType::Document(_) => TAG_MAP,
    }
}

/// The numbers of the error kinds.
pub proof fn law_error_numbers(kind: ErrorCode, n: u16)
    requires
        call_ensures(ErrorCode::as_u16, (kind,), n),
    ensures
        match kind {
            ErrorCode::ProtocolVersionMismatch => n == 1000,
            ErrorCode::InvalidStartup => n == 1001,
            ErrorCode::ParseError => n == 2000,
            ErrorCode::QueryError => n == 2001,
            ErrorCode::InvalidQuery => n == 2002,
            ErrorCode::EmptyQuery => n == 2003,
            ErrorCode::TxError => n == 3000,
            ErrorCode::TxAborted => n == 3001,
            ErrorCode::InternalError => n == 5000,
            ErrorCode::MessageTooLarge => n == 5001,
            ErrorCode::InvalidMessageType => n == 5002,
            ErrorCode::QueryCancelled => n == 5003,
            ErrorCode::ServerShuttingDown => n == 5004,
            ErrorCode::InvalidDbHandle => n == 6000,
            ErrorCode::TooManyOpenDbs => n == 6001,
        },
{
}

/// An error kind is read back from its number, and from no other.
pub proof fn law_error_kinds_are_read_back(
    kind: ErrorCode,
    n: u16,
    code: u16,
    r: Result<ErrorCode, Error>,
)
    requires
        call_ensures(ErrorCode::as_u16, (kind,), n),
        call_ensures(ErrorCode::from_u16, (code,), r),
    ensures
        (r matches Ok(read) && read == kind) == (code == n),
{
}

/// The tags of the types of values.
pub proof fn law_type_tags(v: DataType, tag: u8)
    requires
        call_ensures(data_type_tag, (&v,), tag),
    ensures
        match v {
            DataType::BigInt(_) => tag == 1,
            DataType::Boolean(_) => tag == 2,
            DataType::Bytes(_) => tag == 3,
            DataType::Double(_) => tag == 4,
            DataType::Float(_) => tag == 5,
            DataType::Instant(_) => tag == 6,
            DataType::Long(_) => tag == 7,
            DataType::String(_) => tag == 9,
            DataType::Uuid(_) => tag == 10,
            DataType::Vector(_) => tag == 11,
            DataType::Document(_) => tag == 12,
            DataType::Keyword(_) => tag == 13,
        },
{
}

/// An instant is its number of microseconds, where it has a date: from the first second of the year
/// -262143 to the last of the year 262142.
pub proof fn law_instants_are_their_microseconds(micros: i64, r: Result<i64, Error>)
    requires
        call_ensures(micros_to_datetime, (micros,), r),
    ensures
        r is Ok == (-8_334_601_228_800_000_000 <= micros <= 8_210_266_876_799_999_999),
        r is Ok ==> r->Ok_0 == micros,
        r matches Err(e) ==> (e matches Error::InvalidTimestamp(said) && said == micros),
{
}

/// The numbers that both ends of a connection agree on.
pub proof fn law_protocol_numbers()
    ensures
        DEFAULT_MAX_MESSAGE_SIZE == 67_108_864,
        SEVERITY_ERROR == 69,
        SEVERITY_FATAL == 70,
        TAG_REF == 8,
        TAG_UNION == 127,
        TAG_UNKNOWN == 255,
{
}

} // verus!
