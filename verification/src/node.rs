//! The decisions of a node.

use vstd::prelude::*;

use crate::error::{self, Error, ErrorView};
use crate::indexer::state::TxCompletion;
use crate::transaction::{TxBasis, TxKey};

verus! {

/// What became of a transaction.
#[derive(Debug)]
pub enum TransactionResult {
    TxCommited(TxBasis),
    TxAborted(TxBasis, String),
}

/// Where a node goes on: behind the latest transaction, unless that is the bootstrap transaction.
/// The first transaction of a log has the number of the bootstrap transaction, so that only the
/// entities tell them apart.
pub fn resume_point(latest: TxBasis, bootstrap_tx_eid: i64) -> (r: Option<TxBasis>)
    ensures
        r == (if latest.tx_eid > bootstrap_tx_eid {
            Some(latest)
        } else {
            None
        }),
{
    if latest.tx_eid > bootstrap_tx_eid {
        Some(latest)
    } else {
        None
    }
}

/// The number of the transaction behind which a node goes on.
pub fn resume_after(point: Option<TxBasis>) -> (r: Option<i64>)
    ensures
        r == (match point {
            Some(basis) => Some(basis.tx_key.tx_id),
            None => None,
        }),
{
    match point {
        Some(basis) => Some(basis.tx_key.tx_id),
        None => None,
    }
}

/// What became of a transaction, by what one who waited for it was told.
pub fn transaction_result(tx_key: TxKey, completion: TxCompletion) -> (r: Result<
    TransactionResult,
    Error,
>)
    ensures
        error::told(r) == (match completion.basis {
            None => Err::<TransactionResult, ErrorView>(ErrorView::NoBasis(tx_key.tx_id)),
            Some(basis) => match completion.error {
                None => Ok(TransactionResult::TxCommited(basis)),
                Some(error) => Ok(TransactionResult::TxAborted(basis, error)),
            },
        }),
{
    match completion.basis {
        None => Err(Error::NoBasis(tx_key.tx_id)),
        Some(basis) => match completion.error {
            None => Ok(TransactionResult::TxCommited(basis)),
            Some(error) => Ok(TransactionResult::TxAborted(basis, error)),
        },
    }
}

/// A node goes on behind the latest transaction exactly if that is not the bootstrap transaction.
pub proof fn law_where_a_node_goes_on(
    latest: TxBasis,
    bootstrap_tx_eid: i64,
    point: Option<TxBasis>,
    after: Option<i64>,
)
    requires
        call_ensures(resume_point, (latest, bootstrap_tx_eid), point),
        call_ensures(resume_after, (point,), after),
    ensures
        latest.tx_eid > bootstrap_tx_eid ==> point == Some(latest) && after == Some(
            latest.tx_key.tx_id,
        ),
        latest.tx_eid <= bootstrap_tx_eid ==> point is None && after is None,
{
}

/// A transaction was committed if it has a basis and no error, and aborted if it has both; without
/// a basis nothing is known of it.
pub proof fn law_what_became_of_a_transaction(
    tx_key: TxKey,
    completion: TxCompletion,
    r: Result<TransactionResult, Error>,
)
    requires
        call_ensures(transaction_result, (tx_key, completion), r),
    ensures
        match (completion.basis, completion.error) {
            (Some(basis), None) => r matches Ok(TransactionResult::TxCommited(b)) && b == basis,
            (Some(basis), Some(error)) => r matches Ok(TransactionResult::TxAborted(b, e)) && b
                == basis && e@ == error@,
            (None, _) => r matches Err(e) && (e matches Error::NoBasis(tx_id) && tx_id
                == tx_key.tx_id),
        },
{
}

} // verus!
