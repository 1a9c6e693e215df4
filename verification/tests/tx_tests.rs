use ledger::amount::ParseAmountError;
use ledger::tx::ClientID;
use ledger::tx::Tx;
use ledger::tx::TxID;
use ledger::tx::TxKind;
use ledger::tx::TxRow;

fn row(kind: TxKind, amount: &str) -> TxRow {
    TxRow { kind, client_id: ClientID(1), tx_id: TxID(2), amount: String::from(amount) }
}

#[test]
fn test_from_row_deposit() {
    match Tx::from_row(row(TxKind::Deposit, "1.5")).unwrap() {
        Tx::Deposit { client_id, tx_id, amount } => {
            assert_eq!(client_id, ClientID(1));
            assert_eq!(tx_id, TxID(2));
            assert_eq!(amount.units(), 15000);
        },
        other => panic!("wrong event: {:?}", other),
    }
}

#[test]
fn test_from_row_withdrawal() {
    match Tx::from_row(row(TxKind::Withdrawal, "0.25")).unwrap() {
        Tx::Withdrawal { client_id, tx_id, amount } => {
            assert_eq!(client_id, ClientID(1));
            assert_eq!(tx_id, TxID(2));
            assert_eq!(amount.units(), 2500);
        },
        other => panic!("wrong event: {:?}", other),
    }
}

#[test]
fn test_from_row_bad_amount() {
    assert_eq!(
        Tx::from_row(row(TxKind::Deposit, "nope")).unwrap_err(),
        ParseAmountError::Parse
    );
    assert_eq!(
        Tx::from_row(row(TxKind::Withdrawal, "1.23456")).unwrap_err(),
        ParseAmountError::TooPrecise
    );
}

#[test]
fn test_from_row_lifecycle_ignores_amount() {
    assert_eq!(
        Tx::from_row(row(TxKind::Dispute, "nope")).unwrap(),
        Tx::Dispute { client_id: ClientID(1), tx_id: TxID(2) }
    );
    assert_eq!(
        Tx::from_row(row(TxKind::Resolve, "")).unwrap(),
        Tx::Resolve { client_id: ClientID(1), tx_id: TxID(2) }
    );
    assert_eq!(
        Tx::from_row(row(TxKind::Chargeback, "x")).unwrap(),
        Tx::Chargeback { client_id: ClientID(1), tx_id: TxID(2) }
    );
}
