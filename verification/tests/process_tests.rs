use ledger::amount::Amount;
use ledger::process::TxProcessingError;
use ledger::process::TxProcessor;
use ledger::tx::ClientID;
use ledger::tx::Tx;
use ledger::tx::TxID;

fn amt(s: &str) -> Amount {
    Amount::from_text(s).unwrap()
}

fn deposit(c: u16, t: u32, a: &str) -> Tx {
    Tx::Deposit { client_id: ClientID(c), tx_id: TxID(t), amount: amt(a) }
}

fn withdrawal(c: u16, t: u32, a: &str) -> Tx {
    Tx::Withdrawal { client_id: ClientID(c), tx_id: TxID(t), amount: amt(a) }
}

fn dispute(c: u16, t: u32) -> Tx {
    Tx::Dispute { client_id: ClientID(c), tx_id: TxID(t) }
}

fn resolve(c: u16, t: u32) -> Tx {
    Tx::Resolve { client_id: ClientID(c), tx_id: TxID(t) }
}

fn chargeback(c: u16, t: u32) -> Tx {
    Tx::Chargeback { client_id: ClientID(c), tx_id: TxID(t) }
}

#[test]
fn test_dispute_then_resolve_scenario() {
    // deposit 1.0, deposit 2.0, dispute the second: the 2.0 is held and
    // a withdrawal of 1.5 fails, then resolve restores everything.
    let mut p = TxProcessor::new();
    p.process(&deposit(1, 1, "1.0")).unwrap();
    p.process(&deposit(1, 2, "2.0")).unwrap();
    p.process(&dispute(1, 2)).unwrap();
    assert_eq!(
        p.process(&withdrawal(1, 3, "1.5")).unwrap_err(),
        TxProcessingError::InsufficientFunds
    );
    p.process(&resolve(1, 2)).unwrap();

    let s = p.client_summaries();
    assert_eq!(s.len(), 1);
    assert_eq!(s[0].id, ClientID(1));
    assert_eq!(s[0].available, amt("3.0"));
    assert_eq!(s[0].held, amt("0"));
    assert_eq!(s[0].total, amt("3.0"));
    assert!(!s[0].locked);
}

#[test]
fn test_deposit_withdrawal() {
    let mut p = TxProcessor::new();
    p.process(&deposit(7, 1, "10.5")).unwrap();
    p.process(&withdrawal(7, 2, "4.25")).unwrap();
    let s = p.client_summaries();
    assert_eq!(s.len(), 1);
    assert_eq!(s[0].available.units(), 62500);
    assert_eq!(s[0].total.units(), 62500);
    assert_eq!(s[0].held.units(), 0);
}

#[test]
fn test_insufficient_funds_creates_account() {
    let mut p = TxProcessor::new();
    assert_eq!(
        p.process(&withdrawal(9, 1, "0.0001")).unwrap_err(),
        TxProcessingError::InsufficientFunds
    );
    // The account was still created lazily, with zero balances.
    let s = p.client_summaries();
    assert_eq!(s.len(), 1);
    assert_eq!(s[0].id, ClientID(9));
    assert_eq!(s[0].total.units(), 0);
}

#[test]
fn test_amount_overflow() {
    let mut p = TxProcessor::new();
    p.process(&deposit(1, 1, "1844674407370955.1615")).unwrap();
    assert_eq!(
        p.process(&deposit(1, 2, "0.0001")).unwrap_err(),
        TxProcessingError::AmountOverflow
    );
    // The failed deposit left the balance untouched and was not
    // recorded, so it cannot be disputed.
    assert_eq!(
        p.process(&dispute(1, 2)).unwrap_err(),
        TxProcessingError::DepositNotFound
    );
    let s = p.client_summaries();
    assert_eq!(s[0].available.units(), u64::MAX);
}

#[test]
fn test_dispute_errors() {
    let mut p = TxProcessor::new();
    p.process(&deposit(1, 1, "5")).unwrap();
    // Unknown transaction, and a transaction of another client.
    assert_eq!(
        p.process(&dispute(1, 42)).unwrap_err(),
        TxProcessingError::DepositNotFound
    );
    assert_eq!(
        p.process(&dispute(2, 1)).unwrap_err(),
        TxProcessingError::DepositNotFound
    );
    // Double dispute.
    p.process(&dispute(1, 1)).unwrap();
    assert_eq!(
        p.process(&dispute(1, 1)).unwrap_err(),
        TxProcessingError::TxAlreadyDisputed
    );
    // Resolve makes it disputable again.
    p.process(&resolve(1, 1)).unwrap();
    assert_eq!(
        p.process(&resolve(1, 1)).unwrap_err(),
        TxProcessingError::TxNotDisputed
    );
    p.process(&dispute(1, 1)).unwrap();
}

#[test]
fn test_resolve_errors() {
    let mut p = TxProcessor::new();
    p.process(&deposit(1, 1, "5")).unwrap();
    assert_eq!(
        p.process(&resolve(1, 1)).unwrap_err(),
        TxProcessingError::TxNotDisputed
    );
    assert_eq!(
        p.process(&resolve(1, 2)).unwrap_err(),
        TxProcessingError::DepositNotFound
    );
    assert_eq!(
        p.process(&chargeback(1, 1)).unwrap_err(),
        TxProcessingError::TxNotDisputed
    );
}

#[test]
fn test_dispute_spent_deposit() {
    // A deposit already spent cannot be held.
    let mut p = TxProcessor::new();
    p.process(&deposit(1, 1, "5")).unwrap();
    p.process(&withdrawal(1, 2, "4")).unwrap();
    assert_eq!(
        p.process(&dispute(1, 1)).unwrap_err(),
        TxProcessingError::InsufficientFunds
    );
}

#[test]
fn test_chargeback_locks_account() {
    let mut p = TxProcessor::new();
    p.process(&deposit(1, 1, "2.0")).unwrap();
    p.process(&deposit(1, 2, "3.0")).unwrap();
    p.process(&dispute(1, 1)).unwrap();
    p.process(&chargeback(1, 1)).unwrap();

    let s = p.client_summaries();
    assert_eq!(s.len(), 1);
    assert_eq!(s[0].available, amt("3.0"));
    assert_eq!(s[0].held, amt("0"));
    assert_eq!(s[0].total, amt("3.0"));
    assert!(s[0].locked);

    // Once locked, no further event for that client succeeds.
    assert_eq!(
        p.process(&deposit(1, 3, "1.0")).unwrap_err(),
        TxProcessingError::AccountLocked
    );
    assert_eq!(
        p.process(&withdrawal(1, 4, "1.0")).unwrap_err(),
        TxProcessingError::AccountLocked
    );
    assert_eq!(
        p.process(&dispute(1, 2)).unwrap_err(),
        TxProcessingError::AccountLocked
    );
    // Another client is unaffected.
    p.process(&deposit(2, 5, "1.0")).unwrap();
    let s = p.client_summaries();
    assert_eq!(s.len(), 2);
}

#[test]
fn test_holds_redistribute_totals() {
    let mut p = TxProcessor::new();
    p.process(&deposit(3, 1, "1.5")).unwrap();
    p.process(&deposit(3, 2, "2.5")).unwrap();
    p.process(&dispute(3, 2)).unwrap();
    let s = p.client_summaries();
    assert_eq!(s[0].available, amt("1.5"));
    assert_eq!(s[0].held, amt("2.5"));
    assert_eq!(s[0].total, amt("4"));
    assert!(!s[0].locked);
}

#[test]
fn test_has_deposit() {
    let mut p = TxProcessor::new();
    assert!(!p.has_deposit(TxID(1)));
    p.process(&deposit(1, 1, "1")).unwrap();
    assert!(p.has_deposit(TxID(1)));
    assert!(!p.has_deposit(TxID(2)));
    // A failed deposit records nothing.
    let _ = p.process(&withdrawal(1, 2, "9"));
    assert!(!p.has_deposit(TxID(2)));
}

#[test]
fn test_processing_error_messages() {
    assert_eq!(TxProcessingError::AmountOverflow.message(), "amount overflow");
    assert_eq!(
        TxProcessingError::InsufficientFunds.message(),
        "insufficient funds"
    );
    assert_eq!(TxProcessingError::DepositNotFound.message(), "deposit not found");
    assert_eq!(
        TxProcessingError::TxAlreadyDisputed.message(),
        "transaction is already disputed"
    );
    assert_eq!(
        TxProcessingError::TxNotDisputed.message(),
        "transaction is not disputed"
    );
    assert_eq!(TxProcessingError::AccountLocked.message(), "account is locked");
}
