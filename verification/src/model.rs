//! Entry kinds and every result type an operation of the ledger returns.

use vstd::prelude::*;

use crate::error::{ErrorV, LedgerError};
use crate::money::{amount_text, format_amount};
use crate::text::{str_eq, trim, trim_str};

verus! {

/// What an entry records.
#[derive(Clone, Copy, Debug, PartialEq, Eq, Structural)]
pub enum Kind {
    Deposit,
    Withdrawal,
    Trade,
    Settlement,
    Fee,
    Transfer,
    Adjustment,
    Reversal,
    Other,
}

/// The text of a kind.
pub open spec fn kind_text(k: Kind) -> Seq<char> {
    match k {
        Kind::Deposit => "deposit"@,
        Kind::Withdrawal => "withdrawal"@,
        Kind::Trade => "trade"@,
        Kind::Settlement => "settlement"@,
        Kind::Fee => "fee"@,
        Kind::Transfer => "transfer"@,
        Kind::Adjustment => "adjustment"@,
        Kind::Reversal => "reversal"@,
        Kind::Other => "other"@,
    }
}

/// The kind whose text is `t`, if any.
pub open spec fn kind_of_text(t: Seq<char>) -> Option<Kind> {
    if t == "deposit"@ {
        Some(Kind::Deposit)
    } else if t == "withdrawal"@ {
        Some(Kind::Withdrawal)
    } else if t == "trade"@ {
        Some(Kind::Trade)
    } else if t == "settlement"@ {
        Some(Kind::Settlement)
    } else if t == "fee"@ {
        Some(Kind::Fee)
    } else if t == "transfer"@ {
        Some(Kind::Transfer)
    } else if t == "adjustment"@ {
        Some(Kind::Adjustment)
    } else if t == "reversal"@ {
        Some(Kind::Reversal)
    } else if t == "other"@ {
        Some(Kind::Other)
    } else {
        None
    }
}

/// A kind that `add` and `import` accept: every kind but `transfer` and
/// `reversal`, which only their own operations write.
pub open spec fn addable(k: Kind) -> bool {
    k != Kind::Transfer && k != Kind::Reversal
}

/// The sign rule of a kind, if it has one: `deposit` positive, `withdrawal`
/// and `fee` negative.
pub open spec fn sign_rule(k: Kind) -> Option<(Seq<char>, bool)> {
    match k {
        Kind::Deposit => Some(("positive"@, true)),
        Kind::Withdrawal | Kind::Fee => Some(("negative"@, false)),
        _ => None,
    }
}

/// The outcome of `check_sign`: zero is always rejected; a kind with a sign
/// rule rejects the other sign.
pub open spec fn sign_check(k: Kind, amount: int, decimals: nat) -> Option<ErrorV> {
    if amount == 0 {
        Some(ErrorV::ZeroAmount)
    } else {
        match sign_rule(k) {
            Some((expected, positive)) => if (amount > 0) == positive {
                None
            } else {
                Some(
                    ErrorV::InvalidSign {
                        kind: kind_text(k),
                        expected,
                        amount: amount_text(amount, decimals),
                    },
                )
            },
            None => None,
        }
    }
}

impl Kind {
    /// Every kind, in declaration order.
    pub const ALL: [Kind; 9] = [
        Kind::Deposit,
        Kind::Withdrawal,
        Kind::Trade,
        Kind::Settlement,
        Kind::Fee,
        Kind::Transfer,
        Kind::Adjustment,
        Kind::Reversal,
        Kind::Other,
    ];

    /// The text of this kind.
    pub fn as_str(self) -> (r: &'static str)
        ensures
            r@ == kind_text(self),
    {
        match self {
            Kind::Deposit => "deposit",
            Kind::Withdrawal => "withdrawal",
            Kind::Trade => "trade",
            Kind::Settlement => "settlement",
            Kind::Fee => "fee",
            Kind::Transfer => "transfer",
            Kind::Adjustment => "adjustment",
            Kind::Reversal => "reversal",
            Kind::Other => "other",
        }
    }

    /// The kind named by `text`, ignoring surrounding whitespace.
    pub fn parse(text: &str) -> (r: Option<Kind>)
        ensures
            r == kind_of_text(trim(text@)),
    {
        let t = trim_str(text);
        let t = t.as_str();
        if str_eq(t, "deposit") {
            Some(Kind::Deposit)
        } else if str_eq(t, "withdrawal") {
            Some(Kind::Withdrawal)
        } else if str_eq(t, "trade") {
            Some(Kind::Trade)
        } else if str_eq(t, "settlement") {
            Some(Kind::Settlement)
        } else if str_eq(t, "fee") {
            Some(Kind::Fee)
        } else if str_eq(t, "transfer") {
            Some(Kind::Transfer)
        } else if str_eq(t, "adjustment") {
            Some(Kind::Adjustment)
        } else if str_eq(t, "reversal") {
            Some(Kind::Reversal)
        } else if str_eq(t, "other") {
            Some(Kind::Other)
        } else {
            None
        }
    }

    /// Kinds a caller may write through `add` or `import`.
    pub fn parse_addable(text: &str) -> (r: Result<Kind, LedgerError>)
        ensures
            match kind_of_text(trim(text@)) {
                Some(k) => if addable(k) {
                    r == Ok::<Kind, LedgerError>(k)
                } else {
                    r matches Err(e) && e.view() == ErrorV::InvalidKind(trim(text@))
                },
                None => r matches Err(e) && e.view() == ErrorV::InvalidKind(trim(text@)),
            },
    {
        match Self::parse(text) {
            Some(Kind::Transfer) | Some(Kind::Reversal) | None => Err(
                LedgerError::InvalidKind(trim_str(text)),
            ),
            Some(kind) => Ok(kind),
        }
    }

    /// Zero is always rejected; deposit must be positive; withdrawal and fee negative.
    pub fn check_sign(self, amount: i64, decimals: u32) -> (r: Result<(), LedgerError>)
        requires
            decimals <= 38,
        ensures
            match sign_check(self, amount as int, decimals as nat) {
                None => r is Ok,
                Some(e) => r matches Err(x) && x.view() == e,
            },
    {
        if amount == 0 {
            return Err(LedgerError::ZeroAmount);
        }
        let rule: Option<(&'static str, bool)> = match self {
            Kind::Deposit => Some(("positive", amount > 0)),
            Kind::Withdrawal | Kind::Fee => Some(("negative", amount < 0)),
            _ => None,
        };
        if let Some((expected, ok)) = rule {
            if !ok {
                return Err(
                    LedgerError::InvalidSign {
                        kind: crate::text::copy_str(self.as_str()),
                        expected,
                        amount: format_amount(amount, decimals),
                    },
                );
            }
        }
        Ok(())
    }
}

/// Every kind's text names that kind and nothing else, and is its own trim:
/// `parse(as_str(k)) == Some(k)`.
pub proof fn lemma_kind_text_round_trip(k: Kind)
    ensures
        kind_of_text(kind_text(k)) == Some(k),
        trim(kind_text(k)) == kind_text(k),
{
    reveal_strlit("deposit");
    reveal_strlit("withdrawal");
    reveal_strlit("trade");
    reveal_strlit("settlement");
    reveal_strlit("fee");
    reveal_strlit("transfer");
    reveal_strlit("adjustment");
    reveal_strlit("reversal");
    reveal_strlit("other");
    let t = kind_text(k);
    assert(t.len() > 0);
    assert(!crate::text::is_ws(t[0]));
    assert(!crate::text::is_ws(t.last()));
    assert(crate::text::lead_ws(t) == 0);
    assert(t.skip(0) =~= t);
    assert(crate::text::trail_ws(t) == 0);
    assert(t.take(t.len() as int) =~= t);
    match k {
        Kind::Deposit => {},
        Kind::Withdrawal => {
            assert(t != "deposit"@);
        },
        Kind::Trade => {
            assert(t != "deposit"@);
            assert(t != "withdrawal"@);
        },
        Kind::Settlement => {
            assert(t != "deposit"@);
            assert(t != "withdrawal"@);
            assert(t != "trade"@);
        },
        Kind::Fee => {
            assert(t != "deposit"@);
            assert(t != "withdrawal"@);
            assert(t != "trade"@);
            assert(t != "settlement"@);
        },
        Kind::Transfer => {
            assert(t != "deposit"@);
            assert(t != "withdrawal"@);
            assert(t != "trade"@);
            assert(t != "settlement"@);
            assert(t != "fee"@);
        },
        Kind::Adjustment => {
            assert(t != "deposit"@);
            assert(t != "withdrawal"@);
            assert(t != "trade"@);
            assert(t != "settlement"@);
            assert(t != "fee"@);
            assert(t != "transfer"@);
        },
        Kind::Reversal => {
            assert(t != "deposit"@);
            assert(t != "withdrawal"@);
            assert(t != "trade"@);
            assert(t != "settlement"@);
            assert(t != "fee"@);
            assert(t != "transfer"@);
            assert(t != "adjustment"@);
        },
        Kind::Other => {
            assert(t != "deposit"@);
            assert(t != "withdrawal"@);
            assert(t != "trade"@);
            assert(t != "settlement"@);
            assert(t != "fee"@);
            assert(t != "transfer"@);
            assert(t != "adjustment"@);
            assert(t != "reversal"@);
        },
    }
}

/// An account as listed.
#[derive(Debug)]
pub struct Account {
    pub id: i64,
    pub name: String,
    pub currency: String,
    pub decimals: u32,
    pub note: Option<String>,
    pub created_at: String,
}

/// The account `add_account` created or found.
#[derive(Debug)]
pub struct AccountAddResult {
    pub account: Account,
    pub duplicate: bool,
}

/// An entry as shown: stored fields, the account's name and currency, the
/// amount as text, and the entry that reverses it, if any. `meta` is the
/// stored JSON object text.
#[derive(Debug)]
pub struct Entry {
    pub id: i64,
    pub account: String,
    pub currency: String,
    pub ts: String,
    pub recorded_at: String,
    pub kind: Kind,
    pub amount: String,
    pub reference: Option<String>,
    pub memo: Option<String>,
    pub actor: Option<String>,
    pub group_id: Option<String>,
    pub meta: Option<String>,
    pub reverses_id: Option<i64>,
    pub reversed_by: Option<i64>,
    pub amount_minor: i64,
    pub decimals: u32,
}

/// An entry with the account's balance right after it.
#[derive(Debug)]
pub struct HistoryEntry {
    pub entry: Entry,
    pub balance_after: String,
}

/// A reconciliation snapshot; `id` is `None` on a dry run, which records nothing.
#[derive(Debug)]
pub struct Snapshot {
    pub id: Option<i64>,
    pub account: String,
    pub ts: String,
    pub observed: String,
    pub book: String,
    pub diff: String,
    pub adjustment_entry_id: Option<i64>,
    pub source: Option<String>,
}

#[derive(Debug)]
pub struct AddResult {
    pub entry: Entry,
    pub balance: String,
    pub duplicate: bool,
}

#[derive(Debug)]
pub struct ShowResult {
    pub entry: Entry,
    pub balance: String,
}

#[derive(Debug)]
pub struct TransferResult {
    pub entries: Vec<Entry>,
    pub duplicate: bool,
}

#[derive(Debug)]
pub struct ReverseResult {
    pub entries: Vec<Entry>,
}

#[derive(Debug)]
pub struct AccountBalance {
    pub account: String,
    pub currency: String,
    pub balance: String,
    pub entries: i64,
    pub last_ts: Option<String>,
    pub last_reconciled_at: Option<String>,
}

#[derive(Debug)]
pub struct BalanceAt {
    pub account: String,
    pub currency: String,
    pub balance: String,
    pub at: Option<String>,
}

#[derive(Debug)]
pub struct History {
    pub account: String,
    pub currency: String,
    pub entries: Vec<HistoryEntry>,
}

/// Every entry of a group with its net per currency, currencies in order.
#[derive(Debug)]
pub struct GroupView {
    pub group: String,
    pub entries: Vec<Entry>,
    pub net: Vec<(String, String)>,
}

#[derive(Debug)]
pub struct PnlRow {
    pub bucket: Option<String>,
    pub trades: String,
    pub settlements: String,
    pub fees: String,
    pub adjustments: String,
    pub other: String,
    pub net: String,
    /// Sum of caller-supplied marks for the groups in this row; `None` when no group was marked.
    pub open_value: Option<String>,
    /// `net` plus `open_value`; equals `net` when nothing is marked.
    pub mtm: String,
}

#[derive(Debug)]
pub struct AccountPnl {
    pub account: String,
    pub currency: String,
    pub rows: Vec<PnlRow>,
}

#[derive(Debug)]
pub struct ReconcileResult {
    pub snapshot: Snapshot,
    pub adjustment: Option<Entry>,
    /// The same observation (ts, observed, book, source) was already on record; nothing written.
    pub duplicate: bool,
    /// Observed, book and diff were computed and nothing was written.
    pub dry_run: bool,
}

#[derive(Debug)]
pub struct SnapshotList {
    pub account: String,
    pub snapshots: Vec<Snapshot>,
}

#[derive(Debug)]
pub struct ImportResult {
    pub imported: usize,
    pub duplicates: usize,
    pub dry_run: bool,
    pub entries: Vec<Entry>,
}

} // verus!
