//! The ledger engine: applies events to per-client accounts.
//!
//! The whole engine state is modelled by [`LedgerView`]; one event step
//! is the spec function [`apply`], and [`TxProcessor::process`] is
//! verified to change the state exactly as `apply` says.

use vstd::prelude::*;

use std::collections::HashMap;
use std::collections::HashSet;

use crate::amount::Amount;
use crate::tx::ClientID;
use crate::tx::Tx;
use crate::tx::TxID;

verus! {

broadcast use vstd::set::group_set_axioms, vstd::std_specs::hash::group_hash_axioms;

/// Why an event was rejected; the event is skipped and the ledger is
/// left unchanged (except for lazily created accounts).
#[derive(Debug, Clone, Copy, PartialEq, Eq, Structural)]
pub enum TxProcessingError {
    AmountOverflow,
    InsufficientFunds,
    DepositNotFound,
    TxAlreadyDisputed,
    TxNotDisputed,
    AccountLocked,
}

impl TxProcessingError {
    /// A short human-readable description of the error.
    pub fn message(&self) -> (r: &'static str)
        ensures
            r@ == match *self {
                TxProcessingError::AmountOverflow => "amount overflow"@,
                TxProcessingError::InsufficientFunds => "insufficient funds"@,
                TxProcessingError::DepositNotFound => "deposit not found"@,
                TxProcessingError::TxAlreadyDisputed => "transaction is already disputed"@,
                TxProcessingError::TxNotDisputed => "transaction is not disputed"@,
                TxProcessingError::AccountLocked => "account is locked"@,
            },
    {
        match *self {
            TxProcessingError::AmountOverflow => "amount overflow",
            TxProcessingError::InsufficientFunds => "insufficient funds",
            TxProcessingError::DepositNotFound => "deposit not found",
            TxProcessingError::TxAlreadyDisputed => "transaction is already disputed",
            TxProcessingError::TxNotDisputed => "transaction is not disputed",
            TxProcessingError::AccountLocked => "account is locked",
        }
    }
}

// ---------------------------------------------------------------------------
// The mathematical model of the engine state.
// ---------------------------------------------------------------------------

/// Spec-level state of one client account, in minor units.
pub struct AccountView {
    pub available: nat,
    pub held: nat,
    pub locked: bool,
}

/// Spec-level record of one deposit: who made it and how much.
pub struct DepositView {
    pub client: u16,
    pub amount: nat,
}

/// Spec-level state of the whole engine: the accounts, the deposit
/// ledger, and the set of transactions currently under dispute.
#[verifier::ext_equal]
pub struct LedgerView {
    pub accounts: Map<u16, AccountView>,
    pub deposits: Map<u32, DepositView>,
    pub disputed: Set<u32>,
}

/// A fresh account.
pub open spec fn empty_account() -> AccountView {
    AccountView { available: 0, held: 0, locked: false }
}

/// The state a ledger starts in.
pub open spec fn init_ledger() -> LedgerView {
    LedgerView { accounts: Map::empty(), deposits: Map::empty(), disputed: Set::empty() }
}

/// The account of `c`, created lazily if it is not there yet.
pub open spec fn account_or_new(l: LedgerView, c: u16) -> AccountView {
    if l.accounts.contains_key(c) {
        l.accounts[c]
    } else {
        empty_account()
    }
}

/// The client an event addresses.
pub open spec fn event_client(tx: Tx) -> u16 {
    match tx {
        Tx::Deposit { client_id, .. } => client_id.0,
        Tx::Withdrawal { client_id, .. } => client_id.0,
        Tx::Dispute { client_id, .. } => client_id.0,
        Tx::Resolve { client_id, .. } => client_id.0,
        Tx::Chargeback { client_id, .. } => client_id.0,
    }
}

/// A deposit event must carry a transaction id never deposited before;
/// a duplicate is an input-consistency violation the engine treats as
/// fatal rather than as a recoverable error.
pub open spec fn fresh_deposit_id(l: LedgerView, tx: Tx) -> bool {
    match tx {
        Tx::Deposit { tx_id, .. } => !l.deposits.contains_key(tx_id.0),
        _ => true,
    }
}

/// One step of the engine: the state after the event and the outcome
/// reported for it.
pub open spec fn apply(l: LedgerView, tx: Tx) -> (LedgerView, Result<(), TxProcessingError>) {
    match tx {
        Tx::Deposit { client_id, tx_id, amount } => {
            let c = client_id.0;
            let acct = account_or_new(l, c);
            let l1 = LedgerView { accounts: l.accounts.insert(c, acct), ..l };
            if acct.locked {
                (l1, Err(TxProcessingError::AccountLocked))
            } else if acct.available + acct.held + amount@ > u64::MAX {
                (l1, Err(TxProcessingError::AmountOverflow))
            } else {
                (
                    LedgerView {
                        accounts: l.accounts.insert(
                            c,
                            AccountView {
                                available: (acct.available + amount@) as nat,
                                held: acct.held,
                                locked: acct.locked,
                            },
                        ),
                        deposits: l.deposits.insert(
                            tx_id.0,
                            DepositView { client: c, amount: amount@ },
                        ),
                        disputed: l.disputed,
                    },
                    Ok(()),
                )
            }
        },
        Tx::Withdrawal { client_id, tx_id, amount } => {
            let c = client_id.0;
            let acct = account_or_new(l, c);
            let l1 = LedgerView { accounts: l.accounts.insert(c, acct), ..l };
            if acct.locked {
                (l1, Err(TxProcessingError::AccountLocked))
            } else if amount@ > acct.available {
                (l1, Err(TxProcessingError::InsufficientFunds))
            } else {
                (
                    LedgerView {
                        accounts: l.accounts.insert(
                            c,
                            AccountView {
                                available: (acct.available - amount@) as nat,
                                held: acct.held,
                                locked: acct.locked,
                            },
                        ),
                        ..l
                    },
                    Ok(()),
                )
            }
        },
        Tx::Dispute { client_id, tx_id } => {
            let c = client_id.0;
            let t = tx_id.0;
            if !(l.deposits.contains_key(t) && l.deposits[t].client == c) {
                (l, Err(TxProcessingError::DepositNotFound))
            } else if l.disputed.contains(t) {
                (l, Err(TxProcessingError::TxAlreadyDisputed))
            } else {
                let a = l.deposits[t].amount;
                let acct = account_or_new(l, c);
                let l1 = LedgerView { accounts: l.accounts.insert(c, acct), ..l };
                if acct.locked {
                    (l1, Err(TxProcessingError::AccountLocked))
                } else if a > acct.available {
                    (l1, Err(TxProcessingError::InsufficientFunds))
                } else {
                    (
                        LedgerView {
                            accounts: l.accounts.insert(
                                c,
                                AccountView {
                                    available: (acct.available - a) as nat,
                                    held: (acct.held + a) as nat,
                                    locked: acct.locked,
                                },
                            ),
                            deposits: l.deposits,
                            disputed: l.disputed.insert(t),
                        },
                        Ok(()),
                    )
                }
            }
        },
        Tx::Resolve { client_id, tx_id } => {
            let c = client_id.0;
            let t = tx_id.0;
            if !(l.deposits.contains_key(t) && l.deposits[t].client == c) {
                (l, Err(TxProcessingError::DepositNotFound))
            } else if !l.disputed.contains(t) {
                (l, Err(TxProcessingError::TxNotDisputed))
            } else {
                let a = l.deposits[t].amount;
                let acct = account_or_new(l, c);
                let l1 = LedgerView { accounts: l.accounts.insert(c, acct), ..l };
                if acct.locked {
                    (l1, Err(TxProcessingError::AccountLocked))
                } else {
                    (
                        LedgerView {
                            accounts: l.accounts.insert(
                                c,
                                AccountView {
                                    available: (acct.available + a) as nat,
                                    held: (acct.held - a) as nat,
                                    locked: acct.locked,
                                },
                            ),
                            deposits: l.deposits,
                            disputed: l.disputed.remove(t),
                        },
                        Ok(()),
                    )
                }
            }
        },
        Tx::Chargeback { client_id, tx_id } => {
            let c = client_id.0;
            let t = tx_id.0;
            if !(l.deposits.contains_key(t) && l.deposits[t].client == c) {
                (l, Err(TxProcessingError::DepositNotFound))
            } else if !l.disputed.contains(t) {
                (l, Err(TxProcessingError::TxNotDisputed))
            } else {
                let a = l.deposits[t].amount;
                let acct = account_or_new(l, c);
                let l1 = LedgerView { accounts: l.accounts.insert(c, acct), ..l };
                if acct.locked {
                    (l1, Err(TxProcessingError::AccountLocked))
                } else {
                    (
                        LedgerView {
                            accounts: l.accounts.insert(
                                c,
                                AccountView {
                                    available: acct.available,
                                    held: (acct.held - a) as nat,
                                    locked: true,
                                },
                            ),
                            deposits: l.deposits,
                            disputed: l.disputed.remove(t),
                        },
                        Ok(()),
                    )
                }
            }
        },
    }
}

// ---------------------------------------------------------------------------
// Held funds as a sum over the disputed deposits.
// ---------------------------------------------------------------------------

/// The amount recorded for deposit `t`, as an integer (zero if unknown).
pub open spec fn amt_of(deposits: Map<u32, DepositView>, t: u32) -> int {
    if deposits.contains_key(t) {
        deposits[t].amount as int
    } else {
        0
    }
}

/// Adds the amount of deposit `t` to an accumulator.
pub open spec fn add_amt(deposits: Map<u32, DepositView>) -> spec_fn(int, u32) -> int {
    |acc: int, t: u32| acc + amt_of(deposits, t)
}

/// The transactions of client `c` currently under dispute.
pub open spec fn disputed_of(l: LedgerView, c: u16) -> Set<u32> {
    l.disputed.filter(|t: u32| l.deposits.contains_key(t) && l.deposits[t].client == c)
}

/// What client `c`'s held balance must be: the sum of the amounts of
/// that client's disputed deposits.
pub open spec fn held_of(l: LedgerView, c: u16) -> int {
    disputed_of(l, c).fold(0, add_amt(l.deposits))
}

proof fn lemma_add_amt_comm(deposits: Map<u32, DepositView>)
    ensures
        vstd::set::fold::is_fun_commutative(add_amt(deposits)),
{
}

proof fn lemma_sum_empty(s: Set<u32>, deposits: Map<u32, DepositView>)
    requires
        s.finite(),
        s.len() == 0,
    ensures
        s.fold(0, add_amt(deposits)) == 0,
{
    lemma_add_amt_comm(deposits);
    assert(s =~= Set::<u32>::empty());
    vstd::set::fold::lemma_fold_empty(0, add_amt(deposits));
}

proof fn lemma_sum_insert(s: Set<u32>, deposits: Map<u32, DepositView>, t: u32)
    requires
        s.finite(),
        !s.contains(t),
    ensures
        s.insert(t).fold(0, add_amt(deposits)) == s.fold(0, add_amt(deposits)) + amt_of(
            deposits,
            t,
        ),
{
    lemma_add_amt_comm(deposits);
    vstd::set::fold::lemma_fold_insert(s, 0, add_amt(deposits), t);
}

proof fn lemma_sum_remove(s: Set<u32>, deposits: Map<u32, DepositView>, t: u32)
    requires
        s.finite(),
        s.contains(t),
    ensures
        s.fold(0, add_amt(deposits)) == s.remove(t).fold(0, add_amt(deposits)) + amt_of(
            deposits,
            t,
        ),
{
    lemma_sum_insert(s.remove(t), deposits, t);
    assert(s.remove(t).insert(t) =~= s);
}

proof fn lemma_sum_nonneg(s: Set<u32>, deposits: Map<u32, DepositView>)
    requires
        s.finite(),
    ensures
        s.fold(0, add_amt(deposits)) >= 0,
    decreases s.len(),
{
    if s.len() == 0 {
        lemma_sum_empty(s, deposits);
    } else {
        let t = s.choose();
        assert(s.contains(t));
        lemma_sum_nonneg(s.remove(t), deposits);
        lemma_sum_remove(s, deposits, t);
    }
}

proof fn lemma_sum_member_le(s: Set<u32>, deposits: Map<u32, DepositView>, t: u32)
    requires
        s.finite(),
        s.contains(t),
    ensures
        amt_of(deposits, t) <= s.fold(0, add_amt(deposits)),
{
    lemma_sum_remove(s, deposits, t);
    lemma_sum_nonneg(s.remove(t), deposits);
}

/// Two deposit ledgers that agree on a set of transactions give that
/// set the same sum.
proof fn lemma_sum_congruence(s: Set<u32>, d1: Map<u32, DepositView>, d2: Map<u32, DepositView>)
    requires
        s.finite(),
        forall|t: u32| s.contains(t) ==> amt_of(d1, t) == amt_of(d2, t),
    ensures
        s.fold(0, add_amt(d1)) == s.fold(0, add_amt(d2)),
    decreases s.len(),
{
    if s.len() == 0 {
        lemma_sum_empty(s, d1);
        lemma_sum_empty(s, d2);
    } else {
        let t = s.choose();
        assert(s.contains(t));
        lemma_sum_congruence(s.remove(t), d1, d2);
        lemma_sum_remove(s, d1, t);
        lemma_sum_remove(s, d2, t);
    }
}

// ---------------------------------------------------------------------------
// Well-formedness of a ledger state, and its preservation.
// ---------------------------------------------------------------------------

/// The invariants every reachable engine state satisfies.
pub open spec fn ledger_wf(l: LedgerView) -> bool {
    &&& l.accounts.dom().finite()
    &&& l.deposits.dom().finite()
    &&& l.disputed.finite()
    &&& forall|c: u16|
        l.accounts.contains_key(c) ==> (#[trigger] l.accounts[c]).available + l.accounts[c].held
            <= u64::MAX
    &&& forall|t: u32| l.disputed.contains(t) ==> #[trigger] l.deposits.contains_key(t)
    &&& forall|t: u32|
        l.disputed.contains(t) ==> l.accounts.contains_key((#[trigger] l.deposits[t]).client)
    &&& forall|c: u16|
        #[trigger] held_of(l, c) == if l.accounts.contains_key(c) {
            l.accounts[c].held as int
        } else {
            0
        }
}

pub proof fn lemma_init_wf()
    ensures
        ledger_wf(init_ledger()),
{
    let l = init_ledger();
    assert forall|c: u16| #[trigger] held_of(l, c) == 0 by {
        assert(disputed_of(l, c) =~= Set::<u32>::empty());
        lemma_sum_empty(disputed_of(l, c), l.deposits);
    }
}

/// The disputed set of one client is finite in a well-formed ledger.
proof fn lemma_disputed_of_finite(l: LedgerView, c: u16)
    requires
        l.disputed.finite(),
    ensures
        disputed_of(l, c).finite(),
{
    l.disputed.lemma_len_filter(
        |t: u32| l.deposits.contains_key(t) && l.deposits[t].client == c,
    );
}

/// In a well-formed ledger, a disputed deposit's amount is covered by
/// its owner's held balance.
pub proof fn lemma_disputed_le_held(l: LedgerView, t: u32)
    requires
        ledger_wf(l),
        l.disputed.contains(t),
    ensures
        l.accounts.contains_key(l.deposits[t].client),
        l.deposits[t].amount <= l.accounts[l.deposits[t].client].held,
{
    let c = l.deposits[t].client;
    lemma_disputed_of_finite(l, c);
    assert(disputed_of(l, c).contains(t));
    lemma_sum_member_le(disputed_of(l, c), l.deposits, t);
    assert(amt_of(l.deposits, t) == l.deposits[t].amount as int);
    assert(held_of(l, c) == l.accounts[c].held as int);
}

/// Applying any event to a well-formed ledger yields a well-formed
/// ledger, provided a deposit's transaction id is fresh.
pub proof fn lemma_apply_wf(l: LedgerView, tx: Tx)
    requires
        ledger_wf(l),
        fresh_deposit_id(l, tx),
    ensures
        ledger_wf(apply(l, tx).0),
{
    let l2 = apply(l, tx).0;
    match tx {
        Tx::Deposit { client_id, tx_id, amount } => {
            let c = client_id.0;
            let t = tx_id.0;
            let acct = account_or_new(l, c);
            if acct.locked || acct.available + acct.held + amount@ > u64::MAX {
                lemma_wf_insert_same(l, c);
            } else {
                assert forall|c2: u16| #[trigger] held_of(l2, c2) == held_of(l, c2) by {
                    assert(disputed_of(l2, c2) =~= disputed_of(l, c2));
                    lemma_disputed_of_finite(l, c2);
                    lemma_sum_congruence(disputed_of(l, c2), l2.deposits, l.deposits);
                }
            }
        },
        Tx::Withdrawal { client_id, tx_id, amount } => {
            let c = client_id.0;
            let acct = account_or_new(l, c);
            if acct.locked || amount@ > acct.available {
                lemma_wf_insert_same(l, c);
            } else {
                assert(l2.deposits == l.deposits && l2.disputed == l.disputed);
                assert forall|c2: u16| #[trigger] held_of(l2, c2) == held_of(l, c2) by {
                    assert(disputed_of(l2, c2) =~= disputed_of(l, c2));
                }
            }
        },
        Tx::Dispute { client_id, tx_id } => {
            let c = client_id.0;
            let t = tx_id.0;
            if !(l.deposits.contains_key(t) && l.deposits[t].client == c) {
            } else if l.disputed.contains(t) {
            } else {
                let a = l.deposits[t].amount;
                let acct = account_or_new(l, c);
                if acct.locked || a > acct.available {
                    lemma_wf_insert_same(l, c);
                } else {
                    lemma_disputed_of_finite(l, c);
                    assert(disputed_of(l2, c) =~= disputed_of(l, c).insert(t));
                    lemma_sum_insert(disputed_of(l, c), l.deposits, t);
                    assert(held_of(l2, c) == held_of(l, c) + a);
                    assert forall|c2: u16|
                        c2 != c implies #[trigger] held_of(l2, c2) == held_of(l, c2) by {
                        assert(disputed_of(l2, c2) =~= disputed_of(l, c2));
                    }
                }
            }
        },
        Tx::Resolve { client_id, tx_id } => {
            let c = client_id.0;
            let t = tx_id.0;
            if !(l.deposits.contains_key(t) && l.deposits[t].client == c) {
            } else if !l.disputed.contains(t) {
            } else {
                let a = l.deposits[t].amount;
                let acct = account_or_new(l, c);
                lemma_disputed_le_held(l, t);
                if acct.locked {
                    lemma_wf_insert_same(l, c);
                } else {
                    lemma_disputed_of_finite(l, c);
                    assert(disputed_of(l, c).contains(t));
                    assert(disputed_of(l2, c) =~= disputed_of(l, c).remove(t));
                    lemma_sum_remove(disputed_of(l, c), l.deposits, t);
                    assert(held_of(l2, c) == held_of(l, c) - a);
                    assert forall|c2: u16|
                        c2 != c implies #[trigger] held_of(l2, c2) == held_of(l, c2) by {
                        assert(disputed_of(l2, c2) =~= disputed_of(l, c2));
                    }
                }
            }
        },
        Tx::Chargeback { client_id, tx_id } => {
            let c = client_id.0;
            let t = tx_id.0;
            if !(l.deposits.contains_key(t) && l.deposits[t].client == c) {
            } else if !l.disputed.contains(t) {
            } else {
                let a = l.deposits[t].amount;
                let acct = account_or_new(l, c);
                lemma_disputed_le_held(l, t);
                if acct.locked {
                    lemma_wf_insert_same(l, c);
                } else {
                    lemma_disputed_of_finite(l, c);
                    assert(disputed_of(l, c).contains(t));
                    assert(disputed_of(l2, c) =~= disputed_of(l, c).remove(t));
                    lemma_sum_remove(disputed_of(l, c), l.deposits, t);
                    assert(held_of(l2, c) == held_of(l, c) - a);
                    assert forall|c2: u16|
                        c2 != c implies #[trigger] held_of(l2, c2) == held_of(l, c2) by {
                        assert(disputed_of(l2, c2) =~= disputed_of(l, c2));
                    }
                }
            }
        },
    }
}

/// Re-inserting a client's current (or a fresh) account keeps the
/// ledger well-formed.
proof fn lemma_wf_insert_same(l: LedgerView, c: u16)
    requires
        ledger_wf(l),
    ensures
        ledger_wf(
            LedgerView { accounts: l.accounts.insert(c, account_or_new(l, c)), ..l },
        ),
{
    let l2 = LedgerView { accounts: l.accounts.insert(c, account_or_new(l, c)), ..l };
    if l.accounts.contains_key(c) {
        assert(l2.accounts =~= l.accounts);
        assert(l2 =~= l);
    } else {
        assert forall|c2: u16| #[trigger] held_of(l2, c2) == held_of(l, c2) by {
            assert(disputed_of(l2, c2) =~= disputed_of(l, c2));
        }
    }
}

// ---------------------------------------------------------------------------
// The executable engine.
// ---------------------------------------------------------------------------

/// One client account as stored by the engine.
#[derive(Debug, Clone, Copy)]
struct Client {
    available: Amount,
    held: Amount,
    locked: bool,
}

impl View for Client {
    type V = AccountView;

    closed spec fn view(&self) -> AccountView {
        AccountView { available: self.available@, held: self.held@, locked: self.locked }
    }
}

impl Client {
    fn new() -> (r: Self)
        ensures
            r@ == empty_account(),
    {
        Client { available: Amount::new(), held: Amount::new(), locked: false }
    }

    /// The account's total balance.
    fn total(&self) -> (r: Amount)
        requires
            self@.available + self@.held <= u64::MAX,
        ensures
            r@ == self@.available + self@.held,
    {
        self.available.checked_add(self.held).unwrap()
    }

    fn deposit(&mut self, amount: Amount) -> (r: Result<(), TxProcessingError>)
        requires
            old(self)@.available + old(self)@.held <= u64::MAX,
        ensures
            old(self)@.available + old(self)@.held + amount@ <= u64::MAX ==> r
                == Ok::<(), TxProcessingError>(()) && final(self)@ == (AccountView {
                available: (old(self)@.available + amount@) as nat,
                held: old(self)@.held,
                locked: old(self)@.locked,
            }),
            old(self)@.available + old(self)@.held + amount@ > u64::MAX ==> r
                == Err::<(), TxProcessingError>(TxProcessingError::AmountOverflow) && *final(self)
                == *old(self),
    {
        if self.total().checked_add(amount).is_some() {
            self.available = self.available.checked_add(amount).unwrap();
            Ok(())
        } else {
            Err(TxProcessingError::AmountOverflow)
        }
    }

    fn withdraw(&mut self, amount: Amount) -> (r: Result<(), TxProcessingError>)
        ensures
            amount@ <= old(self)@.available ==> r == Ok::<(), TxProcessingError>(()) && final(self)@ == (AccountView {
                available: (old(self)@.available - amount@) as nat,
                held: old(self)@.held,
                locked: old(self)@.locked,
            }),
            amount@ > old(self)@.available ==> r == Err::<(), TxProcessingError>(
                TxProcessingError::InsufficientFunds,
            ) && *final(self) == *old(self),
    {
        match self.available.checked_sub(amount) {
            Some(x) => {
                self.available = x;
                Ok(())
            },
            None => Err(TxProcessingError::InsufficientFunds),
        }
    }

    fn dispute(&mut self, amount: Amount) -> (r: Result<(), TxProcessingError>)
        requires
            old(self)@.available + old(self)@.held <= u64::MAX,
        ensures
            amount@ <= old(self)@.available ==> r == Ok::<(), TxProcessingError>(()) && final(self)@ == (AccountView {
                available: (old(self)@.available - amount@) as nat,
                held: (old(self)@.held + amount@) as nat,
                locked: old(self)@.locked,
            }),
            amount@ > old(self)@.available ==> r == Err::<(), TxProcessingError>(
                TxProcessingError::InsufficientFunds,
            ) && *final(self) == *old(self),
    {
        match self.available.checked_sub(amount) {
            Some(x) => {
                self.held = self.held.checked_add(amount).unwrap();
                self.available = x;
                Ok(())
            },
            None => Err(TxProcessingError::InsufficientFunds),
        }
    }

    fn resolve(&mut self, amount: Amount)
        requires
            old(self)@.available + old(self)@.held <= u64::MAX,
            amount@ <= old(self)@.held,
        ensures
            final(self)@ == (AccountView {
                available: (old(self)@.available + amount@) as nat,
                held: (old(self)@.held - amount@) as nat,
                locked: old(self)@.locked,
            }),
    {
        self.available = self.available.checked_add(amount).unwrap();
        self.held = self.held.checked_sub(amount).unwrap();
    }

    fn chargeback(&mut self, amount: Amount)
        requires
            amount@ <= old(self)@.held,
        ensures
            final(self)@ == (AccountView {
                available: old(self)@.available,
                held: (old(self)@.held - amount@) as nat,
                locked: true,
            }),
    {
        self.held = self.held.checked_sub(amount).unwrap();
        self.locked = true;
    }
}

/// One deposit as remembered for the dispute lifecycle.
#[derive(Debug, Clone, Copy)]
struct DepositRecord {
    client_id: u16,
    amount: Amount,
}

/// The final state of one client account, as reported by
/// [`TxProcessor::client_summaries`].
#[derive(Debug, Clone, Copy)]
pub struct ClientSummary {
    pub id: ClientID,
    pub available: Amount,
    pub held: Amount,
    pub total: Amount,
    pub locked: bool,
}

/// A summary faithfully reports one existing account, with
/// `total = available + held`.
pub open spec fn summary_ok(l: LedgerView, s: ClientSummary) -> bool {
    &&& l.accounts.contains_key(s.id.0)
    &&& s.available@ == l.accounts[s.id.0].available
    &&& s.held@ == l.accounts[s.id.0].held
    &&& s.total@ == l.accounts[s.id.0].available + l.accounts[s.id.0].held
    &&& s.locked == l.accounts[s.id.0].locked
}

/// The ledger engine: all client accounts, the deposit ledger and the
/// disputed set, driven one event at a time through
/// [`TxProcessor::process`].
pub struct TxProcessor {
    clients: HashMap<u16, Client>,
    client_ids: Vec<u16>,
    deposits: HashMap<u32, DepositRecord>,
    disputed: HashSet<u32>,
}

impl View for TxProcessor {
    type V = LedgerView;

    closed spec fn view(&self) -> LedgerView {
        LedgerView {
            accounts: Map::new(
                |c: u16| self.clients@.contains_key(c),
                |c: u16| self.clients@[c]@,
            ),
            deposits: Map::new(
                |t: u32| self.deposits@.contains_key(t),
                |t: u32|
                    DepositView {
                        client: self.deposits@[t].client_id,
                        amount: self.deposits@[t].amount@,
                    },
            ),
            disputed: self.disputed@,
        }
    }
}

impl TxProcessor {
    /// The processor's bookkeeping is sound and its state is a
    /// well-formed ledger.
    pub closed spec fn wf(&self) -> bool {
        &&& ledger_wf(self@)
        &&& self.client_ids@.no_duplicates()
        &&& forall|i: int|
            0 <= i < self.client_ids@.len() ==> self.clients@.contains_key(
                #[trigger] self.client_ids@[i],
            )
        &&& forall|c: u16| self.clients@.contains_key(c) ==> self.client_ids@.contains(c)
    }

    /// A fresh engine with no accounts, no deposits and no disputes.
    pub fn new() -> (r: Self)
        ensures
            r.wf(),
            r@ == init_ledger(),
    {
        let r = TxProcessor {
            clients: HashMap::new(),
            client_ids: Vec::new(),
            deposits: HashMap::new(),
            disputed: HashSet::new(),
        };
        proof {
            assert(r@.accounts =~= Map::<u16, AccountView>::empty());
            assert(r@.deposits =~= Map::<u32, DepositView>::empty());
            assert(r@ =~= init_ledger());
            lemma_init_wf();
        }
        r
    }

    /// Whether a deposit with this transaction id has been recorded.
    /// A caller must make sure of this before handing the engine a new
    /// deposit: a duplicate id is a fatal input-consistency violation.
    pub fn has_deposit(&self, tx_id: TxID) -> (r: bool)
        ensures
            r == self@.deposits.contains_key(tx_id.0),
    {
        self.deposits.contains_key(&tx_id.0)
    }

    /// Looks up the recorded deposit for `(client, tx)`.
    fn deposit_amount(&self, client_id: ClientID, tx_id: TxID) -> (r: Result<
        Amount,
        TxProcessingError,
    >)
        ensures
            match r {
                Ok(a) => self@.deposits.contains_key(tx_id.0) && self@.deposits[tx_id.0].client
                    == client_id.0 && a@ == self@.deposits[tx_id.0].amount,
                Err(e) => e == TxProcessingError::DepositNotFound && !(self@.deposits.contains_key(
                    tx_id.0,
                ) && self@.deposits[tx_id.0].client == client_id.0),
            },
    {
        match self.deposits.get(&tx_id.0) {
            Some(rec) => {
                if rec.client_id == client_id.0 {
                    Ok(rec.amount)
                } else {
                    Err(TxProcessingError::DepositNotFound)
                }
            },
            None => Err(TxProcessingError::DepositNotFound),
        }
    }

    /// The account for `client_id`, created empty if absent; the
    /// locked check every event goes through.
    fn client(&mut self, client_id: ClientID) -> (r: Result<Client, TxProcessingError>)
        requires
            old(self).wf(),
        ensures
            final(self).wf(),
            final(self)@.accounts == old(self)@.accounts.insert(
                client_id.0,
                account_or_new(old(self)@, client_id.0),
            ),
            final(self)@.deposits == old(self)@.deposits,
            final(self)@.disputed == old(self)@.disputed,
            match r {
                Ok(cl) => cl@ == account_or_new(old(self)@, client_id.0) && !account_or_new(
                    old(self)@,
                    client_id.0,
                ).locked,
                Err(e) => e == TxProcessingError::AccountLocked && account_or_new(
                    old(self)@,
                    client_id.0,
                ).locked,
            },
    {
        let c = client_id.0;
        let cl = match self.clients.get(&c) {
            Some(cl) => {
                let cl = *cl;
                proof {
                    assert(self@.accounts =~= old(self)@.accounts.insert(
                        c,
                        account_or_new(old(self)@, c),
                    ));
                }
                cl
            },
            None => {
                let cl = Client::new();
                self.clients.insert(c, cl);
                self.client_ids.push(c);
                proof {
                    assert(self@.accounts =~= old(self)@.accounts.insert(
                        c,
                        account_or_new(old(self)@, c),
                    ));
                    assert(self@.deposits =~= old(self)@.deposits);
                    lemma_wf_insert_same(old(self)@, c);
                    assert(self@ =~= LedgerView {
                        accounts: old(self)@.accounts.insert(c, account_or_new(old(self)@, c)),
                        ..old(self)@
                    });
                    let ids = old(self).client_ids@;
                    assert(self.client_ids@ =~= ids.push(c));
                    assert(!ids.contains(c));
                    assert forall|i: int, j: int|
                        0 <= i < j < self.client_ids@.len() implies self.client_ids@[i]
                        != self.client_ids@[j] by {
                        if j < ids.len() {
                        } else {
                            assert(self.client_ids@[j] == c);
                            assert(self.client_ids@[i] == ids[i]);
                        }
                    }
                    assert forall|c2: u16|
                        self.clients@.contains_key(c2) implies self.client_ids@.contains(c2) by {
                        if c2 == c {
                            assert(self.client_ids@[ids.len() as int] == c);
                            assert(self.client_ids@.contains(c));
                        } else {
                            assert(old(self).clients@.contains_key(c2));
                            assert(ids.contains(c2));
                            let j = choose|j: int| 0 <= j < ids.len() && ids[j] == c2;
                            assert(0 <= j < ids.len() && ids[j] == c2);
                            assert(self.client_ids@[j] == c2);
                            assert(self.client_ids@.contains(c2));
                        }
                    }
                }
                cl
            },
        };
        if cl.locked {
            Err(TxProcessingError::AccountLocked)
        } else {
            Ok(cl)
        }
    }

    /// Applies one event. The state changes, and the outcome reported,
    /// are exactly those of the one-step transition [`apply`]; the
    /// caller must not hand in a deposit whose transaction id was
    /// already deposited (see [`TxProcessor::has_deposit`]).
    pub fn process(&mut self, tx: &Tx) -> (r: Result<(), TxProcessingError>)
        requires
            old(self).wf(),
            fresh_deposit_id(old(self)@, *tx),
        ensures
            final(self).wf(),
            final(self)@ == apply(old(self)@, *tx).0,
            r == apply(old(self)@, *tx).1,
    {
        let ghost l = old(self)@;
        proof {
            lemma_apply_wf(l, *tx);
        }
        match *tx {
            Tx::Deposit { client_id, tx_id, amount } => {
                match self.client(client_id) {
                    Err(e) => {
                        proof {
                            assert(self@ =~= apply(l, *tx).0);
                        }
                        Err(e)
                    },
                    Ok(mut cl) => {
                        let ghost mid = *self;
                        proof {
                            if l.accounts.contains_key(client_id.0) {
                                assert(l.accounts[client_id.0].available
                                    + l.accounts[client_id.0].held <= u64::MAX);
                            }
                        }
                        match cl.deposit(amount) {
                            Err(e) => {
                                proof {
                                    assert(self@ =~= apply(l, *tx).0);
                                }
                                Err(e)
                            },
                            Ok(()) => {
                                self.clients.insert(client_id.0, cl);
                                self.deposits.insert(
                                    tx_id.0,
                                    DepositRecord { client_id: client_id.0, amount },
                                );
                                proof {
                                    assert(self@.accounts =~= mid@.accounts.insert(
                                        client_id.0,
                                        cl@,
                                    ));
                                    assert(self@.accounts =~= apply(l, *tx).0.accounts);
                                    assert(self@.deposits =~= apply(l, *tx).0.deposits);
                                    assert(self@ =~= apply(l, *tx).0);
                                    assert forall|c2: u16|
                                        self.clients@.contains_key(
                                            c2,
                                        ) implies self.client_ids@.contains(c2) by {
                                        if c2 == client_id.0 {
                                            assert(mid@.accounts.contains_key(client_id.0));
                                        }
                                        assert(mid.clients@.contains_key(c2));
                                    }
                                }
                                Ok(())
                            },
                        }
                    },
                }
            },
            Tx::Withdrawal { client_id, tx_id, amount } => {
                match self.client(client_id) {
                    Err(e) => {
                        proof {
                            assert(self@ =~= apply(l, *tx).0);
                        }
                        Err(e)
                    },
                    Ok(mut cl) => {
                        let ghost mid = *self;
                        match cl.withdraw(amount) {
                            Err(e) => {
                                proof {
                                    assert(self@ =~= apply(l, *tx).0);
                                }
                                Err(e)
                            },
                            Ok(()) => {
                                self.clients.insert(client_id.0, cl);
                                proof {
                                    assert(self@.accounts =~= mid@.accounts.insert(
                                        client_id.0,
                                        cl@,
                                    ));
                                    assert(self@.accounts =~= apply(l, *tx).0.accounts);
                                    assert(self@ =~= apply(l, *tx).0);
                                    assert forall|c2: u16|
                                        self.clients@.contains_key(
                                            c2,
                                        ) implies self.client_ids@.contains(c2) by {
                                        if c2 == client_id.0 {
                                            assert(mid@.accounts.contains_key(client_id.0));
                                        }
                                        assert(mid.clients@.contains_key(c2));
                                    }
                                }
                                Ok(())
                            },
                        }
                    },
                }
            },
            Tx::Dispute { client_id, tx_id } => {
                match self.deposit_amount(client_id, tx_id) {
                    Err(e) => Err(e),
                    Ok(amount) => {
                        if self.disputed.contains(&tx_id.0) {
                            Err(TxProcessingError::TxAlreadyDisputed)
                        } else {
                            match self.client(client_id) {
                                Err(e) => {
                                    proof {
                                        assert(self@ =~= apply(l, *tx).0);
                                    }
                                    Err(e)
                                },
                                Ok(mut cl) => {
                                    let ghost mid = *self;
                                    proof {
                                        if l.accounts.contains_key(client_id.0) {
                                            assert(l.accounts[client_id.0].available
                                                + l.accounts[client_id.0].held <= u64::MAX);
                                        }
                                    }
                                    match cl.dispute(amount) {
                                        Err(e) => {
                                            proof {
                                                assert(self@ =~= apply(l, *tx).0);
                                            }
                                            Err(e)
                                        },
                                        Ok(()) => {
                                            self.clients.insert(client_id.0, cl);
                                            self.disputed.insert(tx_id.0);
                                            proof {
                                                assert(self@.accounts =~= mid@.accounts.insert(
                                                    client_id.0,
                                                    cl@,
                                                ));
                                                assert(self@.accounts =~= apply(
                                                    l,
                                                    *tx,
                                                ).0.accounts);
                                                assert(self@ =~= apply(l, *tx).0);
                                                assert forall|c2: u16|
                                                    self.clients@.contains_key(
                                                        c2,
                                                    ) implies self.client_ids@.contains(c2) by {
                                                    if c2 == client_id.0 {
                                            assert(mid@.accounts.contains_key(client_id.0));
                                        }
                                        assert(mid.clients@.contains_key(c2));
                                                }
                                            }
                                            Ok(())
                                        },
                                    }
                                },
                            }
                        }
                    },
                }
            },
            Tx::Resolve { client_id, tx_id } => {
                match self.deposit_amount(client_id, tx_id) {
                    Err(e) => Err(e),
                    Ok(amount) => {
                        if !self.disputed.contains(&tx_id.0) {
                            Err(TxProcessingError::TxNotDisputed)
                        } else {
                            proof {
                                lemma_disputed_le_held(l, tx_id.0);
                            }
                            match self.client(client_id) {
                                Err(e) => {
                                    proof {
                                        assert(self@ =~= apply(l, *tx).0);
                                    }
                                    Err(e)
                                },
                                Ok(mut cl) => {
                                    let ghost mid = *self;
                                    proof {
                                        assert(l.accounts[client_id.0].available
                                            + l.accounts[client_id.0].held <= u64::MAX);
                                    }
                                    cl.resolve(amount);
                                    self.clients.insert(client_id.0, cl);
                                    self.disputed.remove(&tx_id.0);
                                    proof {
                                        assert(self@.accounts =~= mid@.accounts.insert(
                                            client_id.0,
                                            cl@,
                                        ));
                                        assert(self@.accounts =~= apply(l, *tx).0.accounts);
                                        assert(self@.disputed =~= apply(l, *tx).0.disputed);
                                        assert(self@ =~= apply(l, *tx).0);
                                        assert forall|c2: u16|
                                            self.clients@.contains_key(
                                                c2,
                                            ) implies self.client_ids@.contains(c2) by {
                                            if c2 == client_id.0 {
                                            assert(mid@.accounts.contains_key(client_id.0));
                                        }
                                        assert(mid.clients@.contains_key(c2));
                                        }
                                    }
                                    Ok(())
                                },
                            }
                        }
                    },
                }
            },
            Tx::Chargeback { client_id, tx_id } => {
                match self.deposit_amount(client_id, tx_id) {
                    Err(e) => Err(e),
                    Ok(amount) => {
                        if !self.disputed.contains(&tx_id.0) {
                            Err(TxProcessingError::TxNotDisputed)
                        } else {
                            proof {
                                lemma_disputed_le_held(l, tx_id.0);
                            }
                            match self.client(client_id) {
                                Err(e) => {
                                    proof {
                                        assert(self@ =~= apply(l, *tx).0);
                                    }
                                    Err(e)
                                },
                                Ok(mut cl) => {
                                    let ghost mid = *self;
                                    cl.chargeback(amount);
                                    self.clients.insert(client_id.0, cl);
                                    self.disputed.remove(&tx_id.0);
                                    proof {
                                        assert(self@.accounts =~= mid@.accounts.insert(
                                            client_id.0,
                                            cl@,
                                        ));
                                        assert(self@.accounts =~= apply(l, *tx).0.accounts);
                                        assert(self@.disputed =~= apply(l, *tx).0.disputed);
                                        assert(self@ =~= apply(l, *tx).0);
                                        assert forall|c2: u16|
                                            self.clients@.contains_key(
                                                c2,
                                            ) implies self.client_ids@.contains(c2) by {
                                            if c2 == client_id.0 {
                                            assert(mid@.accounts.contains_key(client_id.0));
                                        }
                                        assert(mid.clients@.contains_key(c2));
                                        }
                                    }
                                    Ok(())
                                },
                            }
                        }
                    },
                }
            },
        }
    }

    /// A point-in-time summary of every account ever referenced, one
    /// entry per client, each reported faithfully with
    /// `total = available + held`.
    pub fn client_summaries(&self) -> (r: Vec<ClientSummary>)
        requires
            self.wf(),
        ensures
            forall|i: int| 0 <= i < r@.len() ==> summary_ok(self@, #[trigger] r@[i]),
            forall|i: int, j: int| 0 <= i < j < r@.len() ==> r@[i].id.0 != r@[j].id.0,
            forall|c: u16|
                self@.accounts.contains_key(c) ==> exists|i: int|
                    0 <= i < r@.len() && (#[trigger] r@[i]).id.0 == c,
    {
        let mut r: Vec<ClientSummary> = Vec::new();
        let mut i: usize = 0;
        let n = self.client_ids.len();
        while i < n
            invariant
                self.wf(),
                i <= n,
                n == self.client_ids@.len(),
                r@.len() == i,
                forall|j: int|
                    0 <= j < i ==> (#[trigger] r@[j]).id.0 == self.client_ids@[j] && summary_ok(
                        self@,
                        r@[j],
                    ),
            decreases n - i,
        {
            let c = self.client_ids[i];
            let cl = match self.clients.get(&c) {
                Some(cl) => *cl,
                None => vstd::pervasive::unreached(),
            };
            proof {
                assert(self@.accounts.contains_key(c));
                assert(self@.accounts[c] == cl@);
                assert(self@.accounts[c].available + self@.accounts[c].held <= u64::MAX);
            }
            let total = cl.available.checked_add(cl.held).unwrap();
            r.push(
                ClientSummary {
                    id: ClientID(c),
                    available: cl.available,
                    held: cl.held,
                    total,
                    locked: cl.locked,
                },
            );
            i += 1;
        }
        proof {
            assert forall|c: u16| self@.accounts.contains_key(c) implies exists|i: int|
                0 <= i < r@.len() && (#[trigger] r@[i]).id.0 == c by {
                assert(self.clients@.contains_key(c));
                assert(self.client_ids@.contains(c));
                let j = choose|j: int|
                    0 <= j < self.client_ids@.len() && self.client_ids@[j] == c;
                assert(r@[j].id.0 == c);
            }
        }
        r
    }
}

// ---------------------------------------------------------------------------
// Laws of the state machine.
// ---------------------------------------------------------------------------

/// Lock monotonicity: once an account is locked it stays locked, and
/// an event addressed to a locked account is rejected and leaves the
/// whole ledger unchanged.
pub proof fn lemma_lock_monotonicity(l: LedgerView, tx: Tx, c: u16)
    requires
        l.accounts.contains_key(c),
        l.accounts[c].locked,
    ensures
        apply(l, tx).0.accounts.contains_key(c),
        apply(l, tx).0.accounts[c].locked,
        event_client(tx) == c ==> apply(l, tx).1 is Err && apply(l, tx).0 =~= l,
{
    if event_client(tx) == c {
        assert(l.accounts.insert(c, account_or_new(l, c)) =~= l.accounts);
    }
}

/// Along a whole run of events, a locked account stays locked.
pub proof fn lemma_lock_monotonicity_run(l: LedgerView, txs: Seq<Tx>, c: u16)
    requires
        l.accounts.contains_key(c),
        l.accounts[c].locked,
    ensures
        run(l, txs).accounts.contains_key(c),
        run(l, txs).accounts[c].locked,
    decreases txs.len(),
{
    if txs.len() > 0 {
        lemma_lock_monotonicity(l, txs[0], c);
        lemma_lock_monotonicity_run(apply(l, txs[0]).0, txs.skip(1), c);
    }
}

/// Dispute exclusivity: a transaction already under dispute cannot be
/// disputed again, and a resolve or chargeback of a transaction not
/// under dispute (in particular, of an unknown one) is rejected; only
/// a successful dispute puts a transaction under dispute, and a
/// successful resolve or chargeback takes it out again.
pub proof fn lemma_dispute_exclusivity(l: LedgerView, c: ClientID, t: TxID)
    ensures
        l.disputed.contains(t.0) ==> apply(l, Tx::Dispute { client_id: c, tx_id: t }).1 is Err,
        !l.disputed.contains(t.0) ==> apply(l, Tx::Resolve { client_id: c, tx_id: t }).1 is Err,
        !l.disputed.contains(t.0) ==> apply(l, Tx::Chargeback { client_id: c, tx_id: t }).1 is Err,
        apply(l, Tx::Dispute { client_id: c, tx_id: t }).1 is Ok ==> apply(
            l,
            Tx::Dispute { client_id: c, tx_id: t },
        ).0.disputed.contains(t.0),
        apply(l, Tx::Resolve { client_id: c, tx_id: t }).1 is Ok ==> !apply(
            l,
            Tx::Resolve { client_id: c, tx_id: t },
        ).0.disputed.contains(t.0),
        apply(l, Tx::Chargeback { client_id: c, tx_id: t }).1 is Ok ==> !apply(
            l,
            Tx::Chargeback { client_id: c, tx_id: t },
        ).0.disputed.contains(t.0),
{
}

/// How one successful event changes a client's total balance:
/// deposits add, withdrawals and chargebacks remove, disputes and
/// resolves only move funds between available and held.
pub open spec fn event_delta(l: LedgerView, tx: Tx, c: u16) -> int {
    match tx {
        Tx::Deposit { client_id, amount, .. } => if client_id.0 == c {
            amount@ as int
        } else {
            0
        },
        Tx::Withdrawal { client_id, amount, .. } => if client_id.0 == c {
            -(amount@ as int)
        } else {
            0
        },
        Tx::Chargeback { client_id, tx_id } => if client_id.0 == c {
            -amt_of(l.deposits, tx_id.0)
        } else {
            0
        },
        _ => 0,
    }
}

/// A client's total balance: available plus held funds.
pub open spec fn total_of(l: LedgerView, c: u16) -> int {
    if l.accounts.contains_key(c) {
        l.accounts[c].available + l.accounts[c].held as int
    } else {
        0
    }
}

/// The state after a whole sequence of events.
pub open spec fn run(l: LedgerView, txs: Seq<Tx>) -> LedgerView
    decreases txs.len(),
{
    if txs.len() == 0 {
        l
    } else {
        run(apply(l, txs[0]).0, txs.skip(1))
    }
}

/// Along the whole run, every deposit carries a fresh transaction id.
pub open spec fn ok_run(l: LedgerView, txs: Seq<Tx>) -> bool
    decreases txs.len(),
{
    txs.len() == 0 || (fresh_deposit_id(l, txs[0]) && ok_run(apply(l, txs[0]).0, txs.skip(1)))
}

/// The net balance change of client `c` over the successfully applied
/// events of a run: deposits minus withdrawals minus chargebacks.
pub open spec fn net_flow(l: LedgerView, txs: Seq<Tx>, c: u16) -> int
    decreases txs.len(),
{
    if txs.len() == 0 {
        0
    } else {
        let d = if apply(l, txs[0]).1 is Ok {
            event_delta(l, txs[0], c)
        } else {
            0
        };
        d + net_flow(apply(l, txs[0]).0, txs.skip(1), c)
    }
}

proof fn lemma_apply_total(l: LedgerView, tx: Tx, c: u16)
    requires
        ledger_wf(l),
        fresh_deposit_id(l, tx),
    ensures
        total_of(apply(l, tx).0, c) == total_of(l, c) + if apply(l, tx).1 is Ok {
            event_delta(l, tx, c)
        } else {
            0
        },
{
    match tx {
        Tx::Deposit { .. } => {
        },
        Tx::Withdrawal { .. } => {
        },
        Tx::Dispute { .. } => {
        },
        Tx::Resolve { client_id, tx_id } => {
            let t = tx_id.0;
            if l.deposits.contains_key(t) && l.deposits[t].client == client_id.0
                && l.disputed.contains(t) {
                lemma_disputed_le_held(l, t);
            }
        },
        Tx::Chargeback { client_id, tx_id } => {
            let t = tx_id.0;
            if l.deposits.contains_key(t) && l.deposits[t].client == client_id.0
                && l.disputed.contains(t) {
                lemma_disputed_le_held(l, t);
            }
        },
    }
}

/// Ledger invariant: every state reached by a run of events is
/// well-formed, and each client's total balance (available plus held)
/// equals the sum of that client's successful deposits minus its
/// successful withdrawals minus its successful chargebacks — holds are
/// a redistribution, never a change of the total.
pub proof fn lemma_ledger_invariant(l: LedgerView, txs: Seq<Tx>, c: u16)
    requires
        ledger_wf(l),
        ok_run(l, txs),
    ensures
        ledger_wf(run(l, txs)),
        total_of(run(l, txs), c) == total_of(l, c) + net_flow(l, txs, c),
    decreases txs.len(),
{
    if txs.len() > 0 {
        lemma_apply_wf(l, txs[0]);
        lemma_apply_total(l, txs[0], c);
        lemma_ledger_invariant(apply(l, txs[0]).0, txs.skip(1), c);
    }
}

} // verus!
