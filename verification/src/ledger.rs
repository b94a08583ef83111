//! The ledger engine: how a transaction mutates one account's balance record,
//! stated first as a pure transition function on balance views and then
//! implemented and proved against it, together with the laws the transition
//! obeys (exact accounting, idempotent duplicates, dispute-once, frozen
//! accounts).

use crate::currency::{sat_add, sat_sub};
use crate::model::{AllBalances, Balance, BalanceView, Currency, DisputeState, Transaction,
    TransactionType};
use std::collections::HashMap;
use vstd::prelude::*;

verus! {

broadcast use vstd::std_specs::hash::group_hash_axioms;

/// Deposits and withdrawals always carry an amount; without one the original
/// record was malformed and never reaches the engine.
pub open spec fn tx_has_needed_amount(t: Transaction) -> bool {
    (t._type == TransactionType::Deposit || t._type == TransactionType::Withdrawal)
        ==> t.amount is Some
}

/// The internal invariant of a balance record: every recorded transaction is
/// a deposit or a withdrawal, keyed by its own identifier, with an amount;
/// only recorded transactions are ever disputed.
pub open spec fn balance_wf(b: BalanceView) -> bool {
    &&& forall|k: u32| b.transactions.dom().contains(k) ==> {
        let t = #[trigger] b.transactions[k];
        &&& t.tx == k
        &&& (t._type == TransactionType::Deposit || t._type == TransactionType::Withdrawal)
        &&& t.amount is Some
    }
    &&& forall|k: u32| #[trigger] b.disputes.dom().contains(k) ==> b.transactions.dom().contains(k)
}

/// A deposit: ignored if its identifier is already recorded, otherwise
/// recorded, adding the amount to `available` and `total`.
pub open spec fn step_deposit(b: BalanceView, t: Transaction) -> BalanceView {
    if b.transactions.dom().contains(t.tx) {
        b
    } else {
        let a = t.amount.unwrap()@;
        BalanceView {
            available: sat_add(b.available, a),
            total: sat_add(b.total, a),
            transactions: b.transactions.insert(t.tx, t),
            ..b
        }
    }
}

/// A withdrawal: rejected outright if it would leave `available` negative,
/// ignored if its identifier is already recorded, otherwise recorded,
/// subtracting the amount from `available` and `total`.
pub open spec fn step_withdrawal(b: BalanceView, t: Transaction) -> BalanceView {
    let a = t.amount.unwrap()@;
    if sat_sub(b.available, a) < 0 {
        b
    } else if b.transactions.dom().contains(t.tx) {
        b
    } else {
        BalanceView {
            available: sat_sub(b.available, a),
            total: sat_sub(b.total, a),
            transactions: b.transactions.insert(t.tx, t),
            ..b
        }
    }
}

/// A dispute: ignored unless it names a recorded transaction that was never
/// disputed before. A disputed deposit moves its amount from `available` to
/// `held`; a disputed withdrawal moves no funds. Either way the identifier's
/// dispute slot is consumed.
pub open spec fn step_dispute(b: BalanceView, t: Transaction) -> BalanceView {
    if !b.transactions.dom().contains(t.tx) || b.disputes.dom().contains(t.tx) {
        b
    } else {
        let rt = b.transactions[t.tx];
        let a = rt.amount.unwrap()@;
        let moved = if rt._type == TransactionType::Deposit {
            BalanceView { available: sat_sub(b.available, a), held: sat_add(b.held, a), ..b }
        } else {
            b
        };
        BalanceView { disputes: b.disputes.insert(t.tx, DisputeState::Waiting), ..moved }
    }
}

/// A resolve: ignored unless it names a recorded transaction whose dispute is
/// waiting. A resolved deposit moves its amount back from `held` to
/// `available`; the dispute concludes either way.
pub open spec fn step_resolve(b: BalanceView, t: Transaction) -> BalanceView {
    if !b.transactions.dom().contains(t.tx) || !b.disputes.dom().contains(t.tx)
        || b.disputes[t.tx] == DisputeState::Resolved {
        b
    } else {
        let rt = b.transactions[t.tx];
        let a = rt.amount.unwrap()@;
        let moved = if rt._type == TransactionType::Deposit {
            BalanceView { available: sat_add(b.available, a), held: sat_sub(b.held, a), ..b }
        } else {
            b
        };
        BalanceView { disputes: b.disputes.insert(t.tx, DisputeState::Resolved), ..moved }
    }
}

/// A chargeback: ignored unless it names a recorded transaction whose dispute
/// is waiting. A charged-back deposit loses its amount from `held` and
/// `total`; a charged-back withdrawal is reversed, returning its amount to
/// `available` and `total`. The account is frozen and the dispute concludes.
pub open spec fn step_chargeback(b: BalanceView, t: Transaction) -> BalanceView {
    if !b.transactions.dom().contains(t.tx) || !b.disputes.dom().contains(t.tx)
        || b.disputes[t.tx] == DisputeState::Resolved {
        b
    } else {
        let rt = b.transactions[t.tx];
        let a = rt.amount.unwrap()@;
        let moved = if rt._type == TransactionType::Deposit {
            BalanceView { held: sat_sub(b.held, a), total: sat_sub(b.total, a), ..b }
        } else if rt._type == TransactionType::Withdrawal {
            BalanceView { available: sat_add(b.available, a), total: sat_add(b.total, a), ..b }
        } else {
            b
        };
        BalanceView {
            locked: true,
            disputes: b.disputes.insert(t.tx, DisputeState::Resolved),
            ..moved
        }
    }
}

/// The whole transition: a frozen account ignores everything; otherwise the
/// transaction kind picks the step above.
pub open spec fn tx_step(b: BalanceView, t: Transaction) -> BalanceView {
    if b.locked {
        b
    } else {
        match t._type {
            TransactionType::Deposit => step_deposit(b, t),
            TransactionType::Withdrawal => step_withdrawal(b, t),
            TransactionType::Dispute => step_dispute(b, t),
            TransactionType::Resolve => step_resolve(b, t),
            TransactionType::Chargeback => step_chargeback(b, t),
        }
    }
}

/// What the very first transaction of an unseen account creates: a deposit
/// initializes the funds, a withdrawal creates an empty record that still
/// reserves the identifier, anything else creates nothing.
pub open spec fn init_balance(t: Transaction) -> Option<BalanceView> {
    match t._type {
        TransactionType::Deposit => match t.amount {
            Some(a) => Some(
                BalanceView {
                    client: t.client,
                    available: a@,
                    held: 0,
                    total: a@,
                    locked: false,
                    transactions: Map::empty().insert(t.tx, t),
                    disputes: Map::empty(),
                },
            ),
            None => None,
        },
        TransactionType::Withdrawal => Some(
            BalanceView {
                client: t.client,
                available: 0,
                held: 0,
                total: 0,
                locked: false,
                transactions: Map::empty().insert(t.tx, t),
                disputes: Map::empty(),
            },
        ),
        _ => None,
    }
}

/// The transition keeps the balance record's internal invariant.
pub proof fn lemma_tx_step_preserves_wf(b: BalanceView, t: Transaction)
    requires
        balance_wf(b),
        tx_has_needed_amount(t),
    ensures
        balance_wf(tx_step(b, t)),
{
}

/// The record a first transaction creates satisfies the internal invariant.
pub proof fn lemma_init_balance_wf(t: Transaction)
    requires
        tx_has_needed_amount(t),
        init_balance(t) is Some,
    ensures
        balance_wf(init_balance(t).unwrap()),
{
}


/// The books of an account balance: `total` is exactly `available` plus
/// `held`, and no funds count is negative.
pub open spec fn accounting_ok(b: BalanceView) -> bool {
    &&& b.total == b.available + b.held
    &&& b.available >= 0
    &&& b.held >= 0
}

/// Every funds field of the view is a value an `i64` can hold, as it always
/// is for the view of a real `Balance`.
pub open spec fn funds_in_range(b: BalanceView) -> bool {
    &&& i64::MIN as int <= b.available <= i64::MAX as int
    &&& i64::MIN as int <= b.held <= i64::MAX as int
    &&& i64::MIN as int <= b.total <= i64::MAX as int
}

/// One step keeps the books balanced: if `total == available + held` with
/// both nonnegative before a transaction, the same holds after it. The
/// hypotheses leave out exactly the inputs on which the law fails: a
/// negative amount, a deposit or reversed withdrawal that saturates `total`,
/// and a dispute of a deposit whose funds were already withdrawn (with the
/// mirrored bound for concluding such a dispute).
pub proof fn lemma_step_preserves_accounting(b: BalanceView, t: Transaction)
    requires
        balance_wf(b),
        tx_has_needed_amount(t),
        funds_in_range(b),
        accounting_ok(b),
        t.amount is Some ==> 0 <= t.amount.unwrap()@,
        t._type == TransactionType::Deposit ==> b.total + t.amount.unwrap()@ <= i64::MAX as int,
        (t._type == TransactionType::Dispute && b.transactions.dom().contains(t.tx)) ==> {
            let rt = b.transactions[t.tx];
            &&& 0 <= rt.amount.unwrap()@
            &&& rt._type == TransactionType::Deposit ==> rt.amount.unwrap()@ <= b.available
        },
        ((t._type == TransactionType::Resolve || t._type == TransactionType::Chargeback)
            && b.transactions.dom().contains(t.tx)) ==> {
            let rt = b.transactions[t.tx];
            &&& 0 <= rt.amount.unwrap()@
            &&& rt._type == TransactionType::Deposit ==> rt.amount.unwrap()@ <= b.held
            &&& (rt._type == TransactionType::Withdrawal && t._type == TransactionType::Chargeback)
                ==> b.total + rt.amount.unwrap()@ <= i64::MAX as int
        },
    ensures
        accounting_ok(tx_step(b, t)),
        funds_in_range(tx_step(b, t)),
{
}

/// The record a first transaction creates has balanced books, provided the
/// deposited amount is not negative.
pub proof fn lemma_init_balance_accounting(t: Transaction)
    requires
        init_balance(t) is Some,
        t.amount is Some ==> 0 <= t.amount.unwrap()@,
    ensures
        accounting_ok(init_balance(t).unwrap()),
        funds_in_range(init_balance(t).unwrap()),
{
    if t.amount is Some {
        crate::currency::lemma_view_in_range(t.amount.unwrap());
    }
}

/// Replaying a deposit or a withdrawal whose identifier is already recorded
/// for the account changes nothing at all.
pub proof fn lemma_duplicate_id_no_op(b: BalanceView, t: Transaction)
    requires
        t._type == TransactionType::Deposit || t._type == TransactionType::Withdrawal,
        b.transactions.dom().contains(t.tx),
    ensures
        tx_step(b, t) == b,
{
}

/// An identifier can be disputed at most once over its lifetime: a dispute
/// naming an identifier that already has a dispute entry, waiting or
/// concluded by resolve or chargeback, changes nothing.
pub proof fn lemma_dispute_once(b: BalanceView, t: Transaction)
    requires
        t._type == TransactionType::Dispute,
        b.disputes.dom().contains(t.tx),
    ensures
        tx_step(b, t) == b,
{
}

/// A frozen account accepts no further mutation: once `locked` holds, every
/// transaction of every kind changes nothing.
pub proof fn lemma_frozen_account(b: BalanceView, t: Transaction)
    requires
        b.locked,
    ensures
        tx_step(b, t) == b,
{
}

impl Balance {
    /// The recorded transaction under `id`, if any.
    fn lookup_recorded(&self, id: u32) -> (r: Option<Transaction>)
        ensures
            r == if self@.transactions.dom().contains(id) {
                Some(self@.transactions[id])
            } else {
                None::<Transaction>
            },
    {
        match self.transactions.get(&id) {
            Some(t) => Some(*t),
            None => None,
        }
    }

    /// The dispute status of `id`, if it was ever disputed.
    fn lookup_dispute(&self, id: u32) -> (r: Option<DisputeState>)
        ensures
            r == if self@.disputes.dom().contains(id) {
                Some(self@.disputes[id])
            } else {
                None::<DisputeState>
            },
    {
        match self.disputes.get(&id) {
            Some(d) => Some(*d),
            None => None,
        }
    }

    /// Creates an account record from the first transaction seen for the
    /// account, exactly as `init_balance` describes: only a deposit or a
    /// withdrawal creates one.
    pub fn from_tx(tx: Transaction) -> (r: Option<Balance>)
        ensures
            r is Some <==> init_balance(tx) is Some,
            r is Some ==> init_balance(tx) == Some(r.unwrap()@),
            (r is Some && tx_has_needed_amount(tx)) ==> balance_wf(r.unwrap()@),
    {
        match tx._type {
            TransactionType::Deposit => match tx.amount {
                Some(amount) => {
                    let mut transactions: HashMap<u32, Transaction> = HashMap::new();
                    transactions.insert(tx.tx, tx);
                    Some(
                        Balance {
                            client: tx.client,
                            available: amount,
                            held: Currency::zero(),
                            total: amount,
                            locked: false,
                            transactions,
                            disputes: HashMap::new(),
                        },
                    )
                },
                None => None,
            },
            TransactionType::Withdrawal => {
                let mut transactions: HashMap<u32, Transaction> = HashMap::new();
                transactions.insert(tx.tx, tx);
                Some(
                    Balance {
                        client: tx.client,
                        available: Currency::zero(),
                        held: Currency::zero(),
                        total: Currency::zero(),
                        locked: false,
                        transactions,
                        disputes: HashMap::new(),
                    },
                )
            },
            _ => None,
        }
    }

    /// Applies one transaction to this account, exactly as `tx_step`
    /// describes; every rejected transaction is a silent no-op.
    pub fn apply_tx(&mut self, tx: Transaction)
        requires
            tx_has_needed_amount(tx),
            balance_wf(old(self)@),
        ensures
            final(self)@ == tx_step(old(self)@, tx),
            balance_wf(final(self)@),
    {
        proof {
            lemma_tx_step_preserves_wf(old(self)@, tx);
        }
        if self.locked {
            return;
        }
        match tx._type {
            TransactionType::Deposit => {
                if !self.transactions.contains_key(&tx.tx) {
                    let amount = tx.amount.unwrap();
                    self.available = self.available.saturating_add(amount);
                    self.total = self.total.saturating_add(amount);
                    self.transactions.insert(tx.tx, tx);
                }
            },
            TransactionType::Withdrawal => {
                let amount = tx.amount.unwrap();
                if self.available.saturating_sub(amount).raw() < 0 {
                    return;
                }
                if !self.transactions.contains_key(&tx.tx) {
                    self.available = self.available.saturating_sub(amount);
                    self.total = self.total.saturating_sub(amount);
                    self.transactions.insert(tx.tx, tx);
                }
            },
            TransactionType::Dispute => {
                match self.lookup_recorded(tx.tx) {
                    Some(rt) => {
                        if !self.disputes.contains_key(&tx.tx) {
                            let amount = rt.amount.unwrap();
                            if rt._type == TransactionType::Deposit {
                                self.available = self.available.saturating_sub(amount);
                                self.held = self.held.saturating_add(amount);
                            }
                            self.disputes.insert(tx.tx, DisputeState::Waiting);
                        }
                    },
                    None => {},
                }
            },
            TransactionType::Resolve => {
                match self.lookup_recorded(tx.tx) {
                    Some(rt) => {
                        match self.lookup_dispute(tx.tx) {
                            Some(DisputeState::Waiting) => {
                                let amount = rt.amount.unwrap();
                                if rt._type == TransactionType::Deposit {
                                    self.available = self.available.saturating_add(amount);
                                    self.held = self.held.saturating_sub(amount);
                                }
                                self.disputes.insert(tx.tx, DisputeState::Resolved);
                            },
                            _ => {},
                        }
                    },
                    None => {},
                }
            },
            TransactionType::Chargeback => {
                match self.lookup_recorded(tx.tx) {
                    Some(rt) => {
                        match self.lookup_dispute(tx.tx) {
                            Some(DisputeState::Waiting) => {
                                let amount = rt.amount.unwrap();
                                match rt._type {
                                    TransactionType::Deposit => {
                                        self.held = self.held.saturating_sub(amount);
                                        self.total = self.total.saturating_sub(amount);
                                    },
                                    TransactionType::Withdrawal => {
                                        self.available = self.available.saturating_add(amount);
                                        self.total = self.total.saturating_add(amount);
                                    },
                                    _ => {},
                                }
                                self.locked = true;
                                self.disputes.insert(tx.tx, DisputeState::Resolved);
                            },
                            _ => {},
                        }
                    },
                    None => {},
                }
            },
        }
    }
}

/// Running a whole stream of transactions, in input order, from an empty
/// ledger: each transaction either mutates the record of its account or, for
/// an unseen account, creates one as `init_balance` describes.
pub open spec fn ledger_run(s: Seq<Transaction>) -> Map<u16, BalanceView>
    decreases s.len(),
{
    if s.len() == 0 {
        Map::empty()
    } else {
        let m = ledger_run(s.drop_last());
        let t = s.last();
        if m.dom().contains(t.client) {
            m.insert(t.client, tx_step(m[t.client], t))
        } else {
            match init_balance(t) {
                Some(b) => m.insert(t.client, b),
                None => m,
            }
        }
    }
}

/// Feeds every transaction, in input order, to the ledger and returns the
/// final mapping from account identifier to its balance record, exactly as
/// `ledger_run` describes.
pub fn process_transactions(txs: &Vec<Transaction>) -> (r: AllBalances)
    requires
        forall|i: int| 0 <= i < txs@.len() ==> tx_has_needed_amount(#[trigger] txs@[i]),
    ensures
        r@.dom() == ledger_run(txs@).dom(),
        forall|c: u16| r@.dom().contains(c) ==> #[trigger] r@[c]@ == ledger_run(txs@)[c],
        forall|c: u16| r@.dom().contains(c) ==> balance_wf(#[trigger] r@[c]@),
{
    let mut balances: AllBalances = HashMap::new();
    let mut i: usize = 0;
    while i < txs.len()
        invariant
            i <= txs@.len(),
            forall|j: int| 0 <= j < txs@.len() ==> tx_has_needed_amount(#[trigger] txs@[j]),
            balances@.dom() == ledger_run(txs@.take(i as int)).dom(),
            forall|c: u16| balances@.dom().contains(c) ==> #[trigger] balances@[c]@ == ledger_run(
                txs@.take(i as int),
            )[c],
            forall|c: u16| balances@.dom().contains(c) ==> balance_wf(#[trigger] balances@[c]@),
        decreases txs@.len() - i,
    {
        let t = txs[i];
        proof {
            assert(txs@.take(i + 1).drop_last() =~= txs@.take(i as int));
            assert(txs@.take(i + 1).last() == t);
        }
        if balances.contains_key(&t.client) {
            let mut b = balances.remove(&t.client).unwrap();
            b.apply_tx(t);
            balances.insert(t.client, b);
        } else {
            match Balance::from_tx(t) {
                Some(b) => {
                    balances.insert(t.client, b);
                },
                None => {},
            }
        }
        proof {
            assert(balances@.dom() =~= ledger_run(txs@.take(i + 1)).dom());
        }
        i += 1;
    }
    proof {
        assert(txs@.take(txs@.len() as int) =~= txs@);
    }
    balances
}

} // verus!
