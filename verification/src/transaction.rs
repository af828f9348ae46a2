//! Transactions.

use vstd::prelude::*;

use crate::clock::{self, instant_text};
use crate::text::{self, concat3, concat5, decimal_text};

verus! {

/// What identifies a transaction: its number in the log, and its time in microseconds since the
/// epoch.
#[derive(Clone, Copy, Debug, PartialEq, Eq, PartialOrd, Ord, Hash, Structural)]
pub struct TxKey {
    pub tx_id: i64,
    pub system_time: i64,
}

/// A transaction that has been indexed, with its entity number.
#[derive(Clone, Copy, Debug, PartialEq, Eq, Structural)]
pub struct TxBasis {
    pub tx_key: TxKey,
    pub tx_eid: i64,
}

/// Whether a transaction comes before another: by number, then by time.
pub open spec fn precedes(a: TxKey, b: TxKey) -> bool {
    a.tx_id < b.tx_id || (a.tx_id == b.tx_id && a.system_time < b.system_time)
}

/// How errors show a transaction.
pub open spec fn key_shown(tx_key: TxKey) -> Seq<char> {
    "TxKey { tx_id: "@ + text::decimal(tx_key.tx_id as int) + ", system_time: "@
        + clock::instant_shown(tx_key.system_time) + " }"@
}

/// How errors show a transaction that may be missing.
pub open spec fn optional_key_shown(tx_key: Option<TxKey>) -> Seq<char> {
    match tx_key {
        Some(found) => "Some("@ + key_shown(found) + ")"@,
        None => "None"@,
    }
}

/// How errors show a transaction.
pub fn key_text(tx_key: TxKey) -> (r: String)
    ensures
        r@ == key_shown(tx_key),
{
    concat5(
        "TxKey { tx_id: ",
        decimal_text(tx_key.tx_id).as_str(),
        ", system_time: ",
        instant_text(tx_key.system_time).as_str(),
        " }",
    )
}

/// How errors show a transaction that may be missing.
pub fn optional_key_text(tx_key: Option<TxKey>) -> (r: String)
    ensures
        r@ == optional_key_shown(tx_key),
{
    match tx_key {
        Some(found) => concat3("Some(", key_text(found).as_str(), ")"),
        None => "None".to_owned(),
    }
}

impl TxKey {
    /// Whether the transaction comes before another: by number, then by time.
    pub fn is_before(&self, other: &TxKey) -> (r: bool)
        ensures
            r == precedes(*self, *other),
    {
        self.tx_id < other.tx_id || (self.tx_id == other.tx_id && self.system_time
            < other.system_time)
    }
}

/// Transactions stand in the order of their numbers, and of one number in the order of their times.
pub proof fn law_order_of_transactions(a: TxKey, b: TxKey, before: bool, behind: bool)
    requires
        call_ensures(TxKey::is_before, (&a, &b), before),
        call_ensures(TxKey::is_before, (&b, &a), behind),
    ensures
        a.tx_id < b.tx_id ==> before && !behind,
        a.tx_id == b.tx_id ==> before == (a.system_time < b.system_time),
        !(before && behind),
        (!before && !behind) == (a == b),
{
}

} // verus!
