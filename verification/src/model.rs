//! The data model: transaction records as they arrive, the per-account
//! balance record the ledger keeps, and the mathematical view of a balance
//! that the contracts speak about.

use crate::currency::PreciseCurrency;
use std::collections::HashMap;
use vstd::prelude::*;
use vstd::string::StrSliceExecFns;

verus! {

/// Amounts carry four digits of precision.
pub type Currency = PreciseCurrency;

/// All account balances, keyed by account identifier.
pub type AllBalances = HashMap<u16, Balance>;

/// The supported transaction kinds.
#[derive(Copy, Clone, Debug, PartialEq, Eq, Structural)]
pub enum TransactionType {
    Deposit,
    Withdrawal,
    Dispute,
    Resolve,
    Chargeback,
}

/// One immutable input record. `tx` identifiers are unique per account, not
/// globally; `amount` is present exactly for deposits and withdrawals.
#[derive(Copy, Clone, Debug, PartialEq, Eq)]
pub struct Transaction {
    pub _type: TransactionType,
    pub client: u16,
    pub tx: u32,
    pub amount: Option<Currency>,
}

/// The lifecycle of a disputed transaction identifier: absent from the
/// dispute map means never disputed.
#[derive(Copy, Clone, Debug, PartialEq, Eq, Structural)]
pub enum DisputeState {
    /// Under dispute, awaiting a resolve or a chargeback.
    Waiting,
    /// The dispute concluded; no further action is possible on this identifier.
    Resolved,
}

/// One account's record: its funds, its frozen flag, the history of its
/// deposit/withdrawal transactions by identifier, and the dispute status of
/// every identifier that was ever disputed.
#[derive(Debug)]
pub struct Balance {
    pub client: u16,
    pub available: Currency,
    pub held: Currency,
    pub total: Currency,
    pub locked: bool,
    pub transactions: HashMap<u32, Transaction>,
    pub disputes: HashMap<u32, DisputeState>,
}

/// The mathematical image of a `Balance`: money as unbounded integers
/// (of scaled units), the two lookup structures as maps.
#[verifier::ext_equal]
pub ghost struct BalanceView {
    pub client: u16,
    pub available: int,
    pub held: int,
    pub total: int,
    pub locked: bool,
    pub transactions: Map<u32, Transaction>,
    pub disputes: Map<u32, DisputeState>,
}

impl View for Balance {
    type V = BalanceView;

    open spec fn view(&self) -> BalanceView {
        BalanceView {
            client: self.client,
            available: self.available@,
            held: self.held@,
            total: self.total@,
            locked: self.locked,
            transactions: self.transactions@,
            disputes: self.disputes@,
        }
    }
}

/// Balances compare by what they report (funds, owner, frozen flag), not by
/// the private lookup structures.
impl PartialEq for Balance {
    fn eq(&self, other: &Self) -> (r: bool) {
        self.client == other.client && self.available == other.available && self.held
            == other.held && self.total == other.total && self.locked == other.locked
    }
}

impl vstd::std_specs::cmp::PartialEqSpecImpl for Balance {
    open spec fn obeys_eq_spec() -> bool {
        true
    }

    open spec fn eq_spec(&self, other: &Self) -> bool {
        self.client == other.client && self.available == other.available && self.held
            == other.held && self.total == other.total && self.locked == other.locked
    }
}

/// The code point of `c` with ASCII capitals folded to lower case.
pub open spec fn lower_code(c: char) -> int {
    if 65 <= c as u32 <= 90 {
        c as u32 + 32
    } else {
        c as u32 as int
    }
}

/// Character-wise equality up to ASCII case.
pub open spec fn eq_ignore_ascii_case(a: Seq<char>, b: Seq<char>) -> bool {
    a.len() == b.len() && forall|i: int| 0 <= i < a.len() ==> lower_code(a[i]) == lower_code(
        #[trigger] b[i],
    )
}

/// Which transaction kind a name denotes, compared without regard to ASCII
/// case; any other name denotes none.
pub open spec fn spec_kind_from(s: Seq<char>) -> Option<TransactionType> {
    if eq_ignore_ascii_case(s, "deposit"@) {
        Some(TransactionType::Deposit)
    } else if eq_ignore_ascii_case(s, "withdrawal"@) {
        Some(TransactionType::Withdrawal)
    } else if eq_ignore_ascii_case(s, "dispute"@) {
        Some(TransactionType::Dispute)
    } else if eq_ignore_ascii_case(s, "resolve"@) {
        Some(TransactionType::Resolve)
    } else if eq_ignore_ascii_case(s, "chargeback"@) {
        Some(TransactionType::Chargeback)
    } else {
        None
    }
}

/// `lower_code`, executably.
fn char_lower_code(c: char) -> (r: u32)
    ensures
        r as int == lower_code(c),
{
    let u = c as u32;
    if 65 <= u && u <= 90 {
        u + 32
    } else {
        u
    }
}

/// Whether two names are equal up to ASCII case.
fn eq_lower(s: &str, t: &str) -> (r: bool)
    ensures
        r == eq_ignore_ascii_case(s@, t@),
{
    let n = s.unicode_len();
    if n != t.unicode_len() {
        return false;
    }
    let mut i: usize = 0;
    while i < n
        invariant
            i <= n,
            n == s@.len(),
            n == t@.len(),
            forall|j: int| 0 <= j < i ==> lower_code(s@[j]) == lower_code(#[trigger] t@[j]),
        decreases n - i,
    {
        let a = s.get_char(i);
        let b = t.get_char(i);
        if char_lower_code(a) != char_lower_code(b) {
            return false;
        }
        i += 1;
    }
    true
}

/// Reads a transaction kind from its name, without regard to ASCII case,
/// exactly as `spec_kind_from` describes.
pub fn transaction_type_from_str(s: &str) -> (r: Option<TransactionType>)
    ensures
        r == spec_kind_from(s@),
{
    if eq_lower(s, "deposit") {
        Some(TransactionType::Deposit)
    } else if eq_lower(s, "withdrawal") {
        Some(TransactionType::Withdrawal)
    } else if eq_lower(s, "dispute") {
        Some(TransactionType::Dispute)
    } else if eq_lower(s, "resolve") {
        Some(TransactionType::Resolve)
    } else if eq_lower(s, "chargeback") {
        Some(TransactionType::Chargeback)
    } else {
        None
    }
}

} // verus!
