//! Identifier and event types for the ledger.

use vstd::prelude::*;

use crate::amount::Amount;
use crate::amount::ParseAmountError;
use crate::amount::parse_units;

verus! {

/// Identifier of a deposit or withdrawal transaction, unique across the
/// whole input stream.
#[derive(Debug, Clone, Copy, PartialEq, Eq, Hash, Structural)]
pub struct TxID(pub u32);

/// Identifier of a client account.
#[derive(Debug, Clone, Copy, PartialEq, Eq, Hash, Structural)]
pub struct ClientID(pub u16);

/// One ledger event, consumed once by the processor.
#[derive(Debug, Clone, Copy, PartialEq, Eq, Structural)]
pub enum Tx {
    Deposit { client_id: ClientID, tx_id: TxID, amount: Amount },
    Withdrawal { client_id: ClientID, tx_id: TxID, amount: Amount },
    Dispute { client_id: ClientID, tx_id: TxID },
    Resolve { client_id: ClientID, tx_id: TxID },
    Chargeback { client_id: ClientID, tx_id: TxID },
}

/// The kind tag of one input record.
#[derive(Debug, Clone, Copy, PartialEq, Eq, Structural)]
pub enum TxKind {
    Deposit,
    Withdrawal,
    Dispute,
    Resolve,
    Chargeback,
}

/// One input record as read from the event source, with the amount
/// still in its textual form.
#[derive(Debug)]
pub struct TxRow {
    pub kind: TxKind,
    pub client_id: ClientID,
    pub tx_id: TxID,
    pub amount: String,
}

impl Tx {
    /// Turns a raw record into a typed event. For deposits and
    /// withdrawals the amount text must parse; for the dispute
    /// lifecycle events it is ignored.
    pub fn from_row(tx_row: TxRow) -> (r: Result<Self, ParseAmountError>)
        ensures
            match tx_row.kind {
                TxKind::Deposit => match parse_units(tx_row.amount@) {
                    Ok(v) => r matches Ok(t) && (t matches Tx::Deposit { client_id, tx_id, amount }
                        && client_id == tx_row.client_id && tx_id == tx_row.tx_id && amount@ == v),
                    Err(e) => r == Err::<Tx, ParseAmountError>(e),
                },
                TxKind::Withdrawal => match parse_units(tx_row.amount@) {
                    Ok(v) => r matches Ok(t) && (t matches Tx::Withdrawal {
                        client_id,
                        tx_id,
                        amount,
                    } && client_id == tx_row.client_id && tx_id == tx_row.tx_id && amount@ == v),
                    Err(e) => r == Err::<Tx, ParseAmountError>(e),
                },
                TxKind::Dispute => r == Ok::<Tx, ParseAmountError>(
                    Tx::Dispute { client_id: tx_row.client_id, tx_id: tx_row.tx_id },
                ),
                TxKind::Resolve => r == Ok::<Tx, ParseAmountError>(
                    Tx::Resolve { client_id: tx_row.client_id, tx_id: tx_row.tx_id },
                ),
                TxKind::Chargeback => r == Ok::<Tx, ParseAmountError>(
                    Tx::Chargeback { client_id: tx_row.client_id, tx_id: tx_row.tx_id },
                ),
            },
    {
        match tx_row.kind {
            TxKind::Deposit => match Amount::from_text(tx_row.amount.as_str()) {
                Ok(amount) => Ok(
                    Tx::Deposit { client_id: tx_row.client_id, tx_id: tx_row.tx_id, amount },
                ),
                Err(e) => Err(e),
            },
            TxKind::Withdrawal => match Amount::from_text(tx_row.amount.as_str()) {
                Ok(amount) => Ok(
                    Tx::Withdrawal { client_id: tx_row.client_id, tx_id: tx_row.tx_id, amount },
                ),
                Err(e) => Err(e),
            },
            TxKind::Dispute => Ok(Tx::Dispute { client_id: tx_row.client_id, tx_id: tx_row.tx_id }),
            TxKind::Resolve => Ok(Tx::Resolve { client_id: tx_row.client_id, tx_id: tx_row.tx_id }),
            TxKind::Chargeback => Ok(
                Tx::Chargeback { client_id: tx_row.client_id, tx_id: tx_row.tx_id },
            ),
        }
    }
}

} // verus!
