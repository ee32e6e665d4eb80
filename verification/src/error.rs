//! Domain and infrastructure errors, their stable codes, exit codes and messages.

use vstd::prelude::*;

use crate::text::{digits_of, from_chars, i64_text, int_text, push_str, usize_text};

verus! {

/// Every way an operation of the ledger can fail.
#[derive(Debug)]
pub enum LedgerError {
    AccountNotFound(String),
    AccountExists(String),
    InvalidAccountName,
    InvalidCurrency,
    SameAccount,
    EntryNotFound(i64),
    GroupNotFound(String),
    CurrencyMismatch { from: String, from_currency: String, to: String, to_currency: String },
    PrecisionExceeded { amount: String, scale: u32, account: String, decimals: u32 },
    InvalidAmount(String),
    ZeroAmount,
    InvalidSign { kind: String, expected: &'static str, amount: String },
    InvalidKind(String),
    InvalidTimestamp(String),
    InvalidGroup,
    InvalidMeta(String),
    InvalidBucket(String),
    /// A mark whose group's counted entries fall in more than one row.
    MarkAmbiguous(String),
    RefConflict {
        account: String,
        reference: String,
        existing_id: i64,
        existing_kind: String,
        existing_amount: String,
    },
    AlreadyReversed(i64, i64),
    CannotReverseReversal(i64),
    NothingToReverse(String),
    InvalidJson(String),
    Import { line: usize, source: Box<LedgerError> },
    /// A storage failure, carrying the storage layer's message.
    Db(String),
    /// An input/output failure, carrying its message.
    Io(String),
}

/// The mathematical form of a `LedgerError`: the same variant with every text
/// taken by its characters.
pub enum ErrorV {
    AccountNotFound(Seq<char>),
    AccountExists(Seq<char>),
    InvalidAccountName,
    InvalidCurrency,
    SameAccount,
    EntryNotFound(int),
    GroupNotFound(Seq<char>),
    CurrencyMismatch {
        from: Seq<char>,
        from_currency: Seq<char>,
        to: Seq<char>,
        to_currency: Seq<char>,
    },
    PrecisionExceeded { amount: Seq<char>, scale: nat, account: Seq<char>, decimals: nat },
    InvalidAmount(Seq<char>),
    ZeroAmount,
    InvalidSign { kind: Seq<char>, expected: Seq<char>, amount: Seq<char> },
    InvalidKind(Seq<char>),
    InvalidTimestamp(Seq<char>),
    InvalidGroup,
    InvalidMeta(Seq<char>),
    InvalidBucket(Seq<char>),
    MarkAmbiguous(Seq<char>),
    RefConflict {
        account: Seq<char>,
        reference: Seq<char>,
        existing_id: int,
        existing_kind: Seq<char>,
        existing_amount: Seq<char>,
    },
    AlreadyReversed(int, int),
    CannotReverseReversal(int),
    NothingToReverse(Seq<char>),
    InvalidJson(Seq<char>),
    Import { line: nat, source: Box<ErrorV> },
    Db(Seq<char>),
    Io(Seq<char>),
}

impl LedgerError {
    pub open spec fn view(&self) -> ErrorV
        decreases self,
    {
        match self {
            LedgerError::AccountNotFound(s) => ErrorV::AccountNotFound(s@),
            LedgerError::AccountExists(s) => ErrorV::AccountExists(s@),
            LedgerError::InvalidAccountName => ErrorV::InvalidAccountName,
            LedgerError::InvalidCurrency => ErrorV::InvalidCurrency,
            LedgerError::SameAccount => ErrorV::SameAccount,
            LedgerError::EntryNotFound(i) => ErrorV::EntryNotFound(*i as int),
            LedgerError::GroupNotFound(s) => ErrorV::GroupNotFound(s@),
            LedgerError::CurrencyMismatch { from, from_currency, to, to_currency } =>
                ErrorV::CurrencyMismatch {
                from: from@,
                from_currency: from_currency@,
                to: to@,
                to_currency: to_currency@,
            },
            LedgerError::PrecisionExceeded { amount, scale, account, decimals } =>
                ErrorV::PrecisionExceeded {
                amount: amount@,
                scale: *scale as nat,
                account: account@,
                decimals: *decimals as nat,
            },
            LedgerError::InvalidAmount(s) => ErrorV::InvalidAmount(s@),
            LedgerError::ZeroAmount => ErrorV::ZeroAmount,
            LedgerError::InvalidSign { kind, expected, amount } => ErrorV::InvalidSign {
                kind: kind@,
                expected: expected@,
                amount: amount@,
            },
            LedgerError::InvalidKind(s) => ErrorV::InvalidKind(s@),
            LedgerError::InvalidTimestamp(s) => ErrorV::InvalidTimestamp(s@),
            LedgerError::InvalidGroup => ErrorV::InvalidGroup,
            LedgerError::InvalidMeta(s) => ErrorV::InvalidMeta(s@),
            LedgerError::InvalidBucket(s) => ErrorV::InvalidBucket(s@),
            LedgerError::MarkAmbiguous(s) => ErrorV::MarkAmbiguous(s@),
            LedgerError::RefConflict {
                account,
                reference,
                existing_id,
                existing_kind,
                existing_amount,
            } => ErrorV::RefConflict {
                account: account@,
                reference: reference@,
                existing_id: *existing_id as int,
                existing_kind: existing_kind@,
                existing_amount: existing_amount@,
            },
            LedgerError::AlreadyReversed(a, b) => ErrorV::AlreadyReversed(*a as int, *b as int),
            LedgerError::CannotReverseReversal(a) => ErrorV::CannotReverseReversal(*a as int),
            LedgerError::NothingToReverse(s) => ErrorV::NothingToReverse(s@),
            LedgerError::InvalidJson(s) => ErrorV::InvalidJson(s@),
            LedgerError::Import { line, source } => ErrorV::Import {
                line: *line as nat,
                source: Box::new(source.view()),
            },
            LedgerError::Db(s) => ErrorV::Db(s@),
            LedgerError::Io(s) => ErrorV::Io(s@),
        }
    }
}

/// The stable code of an error; an import error has the code of its cause.
pub open spec fn error_code(e: ErrorV) -> Seq<char>
    decreases e,
{
    match e {
        ErrorV::AccountNotFound(_) => "account_not_found"@,
        ErrorV::AccountExists(_) => "account_exists"@,
        ErrorV::InvalidAccountName => "invalid_account_name"@,
        ErrorV::InvalidCurrency => "invalid_currency"@,
        ErrorV::SameAccount => "same_account"@,
        ErrorV::EntryNotFound(_) => "entry_not_found"@,
        ErrorV::GroupNotFound(_) => "group_not_found"@,
        ErrorV::CurrencyMismatch { .. } => "currency_mismatch"@,
        ErrorV::PrecisionExceeded { .. } => "precision_exceeded"@,
        ErrorV::InvalidAmount(_) => "invalid_amount"@,
        ErrorV::ZeroAmount => "zero_amount"@,
        ErrorV::InvalidSign { .. } => "invalid_sign"@,
        ErrorV::InvalidKind(_) => "invalid_kind"@,
        ErrorV::InvalidTimestamp(_) => "invalid_timestamp"@,
        ErrorV::InvalidGroup => "invalid_group"@,
        ErrorV::InvalidMeta(_) => "invalid_meta"@,
        ErrorV::InvalidBucket(_) => "invalid_bucket"@,
        ErrorV::MarkAmbiguous(_) => "mark_ambiguous"@,
        ErrorV::RefConflict { .. } => "ref_conflict"@,
        ErrorV::AlreadyReversed(..) => "already_reversed"@,
        ErrorV::CannotReverseReversal(_) => "cannot_reverse_reversal"@,
        ErrorV::NothingToReverse(_) => "nothing_to_reverse"@,
        ErrorV::InvalidJson(_) => "invalid_json"@,
        ErrorV::Import { source, .. } => error_code(*source),
        ErrorV::Db(_) => "database_error"@,
        ErrorV::Io(_) => "io_error"@,
    }
}

/// Exit status: 1 for storage and input/output failures, 2 for domain errors;
/// an import error exits as its cause does.
pub open spec fn error_exit(e: ErrorV) -> int
    decreases e,
{
    match e {
        ErrorV::Db(_) | ErrorV::Io(_) => 1,
        ErrorV::Import { source, .. } => error_exit(*source),
        _ => 2,
    }
}

/// The human-readable message of an error.
pub open spec fn error_message(e: ErrorV) -> Seq<char>
    decreases e,
{
    match e {
        ErrorV::AccountNotFound(n) => "account '"@ + n + "' not found"@,
        ErrorV::AccountExists(n) => "account '"@ + n + "' already exists"@,
        ErrorV::InvalidAccountName => "account name must not be empty"@,
        ErrorV::InvalidCurrency => "currency must not be empty"@,
        ErrorV::SameAccount => "from and to must be different accounts"@,
        ErrorV::EntryNotFound(i) => "entry "@ + int_text(i) + " not found"@,
        ErrorV::GroupNotFound(g) => "group '"@ + g + "' not found"@,
        ErrorV::CurrencyMismatch { from, from_currency, to, to_currency } => "currency mismatch: '"@
            + from + "' is "@ + from_currency + ", '"@ + to + "' is "@ + to_currency,
        ErrorV::PrecisionExceeded { amount, scale, account, decimals } => "amount "@ + amount
            + " has "@ + digits_of(scale) + " decimals; account '"@ + account + "' allows "@
            + digits_of(decimals),
        ErrorV::InvalidAmount(a) => "invalid amount '"@ + a + "'"@,
        ErrorV::ZeroAmount => "amount must not be zero"@,
        ErrorV::InvalidSign { kind, expected, amount } => kind + " must be "@ + expected
            + ", got "@ + amount,
        ErrorV::InvalidKind(k) => "invalid kind '"@ + k + "'"@,
        ErrorV::InvalidTimestamp(t) => "invalid timestamp '"@ + t
            + "' (expected RFC 3339 or YYYY-MM-DD)"@,
        ErrorV::InvalidGroup => "group id must not be empty"@,
        ErrorV::InvalidMeta(m) => "meta must be a JSON object: "@ + m,
        ErrorV::InvalidBucket(b) => "invalid pnl bucket '"@ + b
            + "' (expected total, day, week, month, group or meta:<key>)"@,
        ErrorV::MarkAmbiguous(g) => "mark for group '"@ + g + "' falls in more than one row"@,
        ErrorV::RefConflict { account, reference, existing_id, existing_kind, existing_amount } =>
            "ref '"@ + reference + "' on '"@ + account + "' already exists as entry "@ + int_text(
            existing_id,
        ) + " ("@ + existing_kind + " "@ + existing_amount + ")"@,
        ErrorV::AlreadyReversed(a, b) => "entry "@ + int_text(a) + " is already reversed by entry "@
            + int_text(b),
        ErrorV::CannotReverseReversal(a) => "entry "@ + int_text(a)
            + " is a reversal; add the original again instead of reversing it"@,
        ErrorV::NothingToReverse(g) => "nothing to reverse in group '"@ + g + "'"@,
        ErrorV::InvalidJson(m) => "invalid JSON: "@ + m,
        ErrorV::Import { line, source } => "line "@ + digits_of(line) + ": "@ + error_message(
            *source,
        ),
        ErrorV::Db(m) => "database error: "@ + m,
        ErrorV::Io(m) => "io error: "@ + m,
    }
}

impl LedgerError {
    /// The stable code of this error.
    pub fn code(&self) -> (r: &'static str)
        ensures
            r@ == error_code(self.view()),
        decreases self,
    {
        match self {
            LedgerError::AccountNotFound(_) => "account_not_found",
            LedgerError::AccountExists(_) => "account_exists",
            LedgerError::InvalidAccountName => "invalid_account_name",
            LedgerError::InvalidCurrency => "invalid_currency",
            LedgerError::SameAccount => "same_account",
            LedgerError::EntryNotFound(_) => "entry_not_found",
            LedgerError::GroupNotFound(_) => "group_not_found",
            LedgerError::CurrencyMismatch { .. } => "currency_mismatch",
            LedgerError::PrecisionExceeded { .. } => "precision_exceeded",
            LedgerError::InvalidAmount(_) => "invalid_amount",
            LedgerError::ZeroAmount => "zero_amount",
            LedgerError::InvalidSign { .. } => "invalid_sign",
            LedgerError::InvalidKind(_) => "invalid_kind",
            LedgerError::InvalidTimestamp(_) => "invalid_timestamp",
            LedgerError::InvalidGroup => "invalid_group",
            LedgerError::InvalidMeta(_) => "invalid_meta",
            LedgerError::InvalidBucket(_) => "invalid_bucket",
            LedgerError::MarkAmbiguous(_) => "mark_ambiguous",
            LedgerError::RefConflict { .. } => "ref_conflict",
            LedgerError::AlreadyReversed(..) => "already_reversed",
            LedgerError::CannotReverseReversal(_) => "cannot_reverse_reversal",
            LedgerError::NothingToReverse(_) => "nothing_to_reverse",
            LedgerError::InvalidJson(_) => "invalid_json",
            LedgerError::Import { source, .. } => source.code(),
            LedgerError::Db(_) => "database_error",
            LedgerError::Io(_) => "io_error",
        }
    }

    /// Exit status for this error: 1 for infrastructure, 2 for domain errors.
    pub fn exit_code(&self) -> (r: i32)
        ensures
            r as int == error_exit(self.view()),
        decreases self,
    {
        match self {
            LedgerError::Db(_) | LedgerError::Io(_) => 1,
            LedgerError::Import { source, .. } => source.exit_code(),
            _ => 2,
        }
    }

    /// The input line an import error points at.
    pub fn line(&self) -> (r: Option<usize>)
        ensures
            r == (match self {
                LedgerError::Import { line, .. } => Some(*line),
                _ => None::<usize>,
            }),
    {
        match self {
            LedgerError::Import { line, .. } => Some(*line),
            _ => None,
        }
    }

    /// The human-readable message of this error.
    pub fn message(&self) -> (r: String)
        ensures
            r@ == error_message(self.view()),
        decreases self,
    {
        let mut v: Vec<char> = Vec::new();
        match self {
            LedgerError::AccountNotFound(n) => {
                push_str(&mut v, "account '");
                push_str(&mut v, n.as_str());
                push_str(&mut v, "' not found");
            },
            LedgerError::AccountExists(n) => {
                push_str(&mut v, "account '");
                push_str(&mut v, n.as_str());
                push_str(&mut v, "' already exists");
            },
            LedgerError::InvalidAccountName => {
                push_str(&mut v, "account name must not be empty");
            },
            LedgerError::InvalidCurrency => {
                push_str(&mut v, "currency must not be empty");
            },
            LedgerError::SameAccount => {
                push_str(&mut v, "from and to must be different accounts");
            },
            LedgerError::EntryNotFound(i) => {
                push_str(&mut v, "entry ");
                push_str(&mut v, i64_text(*i).as_str());
                push_str(&mut v, " not found");
            },
            LedgerError::GroupNotFound(g) => {
                push_str(&mut v, "group '");
                push_str(&mut v, g.as_str());
                push_str(&mut v, "' not found");
            },
            LedgerError::CurrencyMismatch { from, from_currency, to, to_currency } => {
                push_str(&mut v, "currency mismatch: '");
                push_str(&mut v, from.as_str());
                push_str(&mut v, "' is ");
                push_str(&mut v, from_currency.as_str());
                push_str(&mut v, ", '");
                push_str(&mut v, to.as_str());
                push_str(&mut v, "' is ");
                push_str(&mut v, to_currency.as_str());
            },
            LedgerError::PrecisionExceeded { amount, scale, account, decimals } => {
                push_str(&mut v, "amount ");
                push_str(&mut v, amount.as_str());
                push_str(&mut v, " has ");
                push_str(&mut v, usize_text(*scale as usize).as_str());
                push_str(&mut v, " decimals; account '");
                push_str(&mut v, account.as_str());
                push_str(&mut v, "' allows ");
                push_str(&mut v, usize_text(*decimals as usize).as_str());
            },
            LedgerError::InvalidAmount(a) => {
                push_str(&mut v, "invalid amount '");
                push_str(&mut v, a.as_str());
                push_str(&mut v, "'");
            },
            LedgerError::ZeroAmount => {
                push_str(&mut v, "amount must not be zero");
            },
            LedgerError::InvalidSign { kind, expected, amount } => {
                push_str(&mut v, kind.as_str());
                push_str(&mut v, " must be ");
                push_str(&mut v, expected);
                push_str(&mut v, ", got ");
                push_str(&mut v, amount.as_str());
            },
            LedgerError::InvalidKind(k) => {
                push_str(&mut v, "invalid kind '");
                push_str(&mut v, k.as_str());
                push_str(&mut v, "'");
            },
            LedgerError::InvalidTimestamp(t) => {
                push_str(&mut v, "invalid timestamp '");
                push_str(&mut v, t.as_str());
                push_str(&mut v, "' (expected RFC 3339 or YYYY-MM-DD)");
            },
            LedgerError::InvalidGroup => {
                push_str(&mut v, "group id must not be empty");
            },
            LedgerError::InvalidMeta(m) => {
                push_str(&mut v, "meta must be a JSON object: ");
                push_str(&mut v, m.as_str());
            },
            LedgerError::InvalidBucket(b) => {
                push_str(&mut v, "invalid pnl bucket '");
                push_str(&mut v, b.as_str());
                push_str(&mut v, "' (expected total, day, week, month, group or meta:<key>)");
            },
            LedgerError::MarkAmbiguous(g) => {
                push_str(&mut v, "mark for group '");
                push_str(&mut v, g.as_str());
                push_str(&mut v, "' falls in more than one row");
            },
            LedgerError::RefConflict {
                account,
                reference,
                existing_id,
                existing_kind,
                existing_amount,
            } => {
                push_str(&mut v, "ref '");
                push_str(&mut v, reference.as_str());
                push_str(&mut v, "' on '");
                push_str(&mut v, account.as_str());
                push_str(&mut v, "' already exists as entry ");
                push_str(&mut v, i64_text(*existing_id).as_str());
                push_str(&mut v, " (");
                push_str(&mut v, existing_kind.as_str());
                push_str(&mut v, " ");
                push_str(&mut v, existing_amount.as_str());
                push_str(&mut v, ")");
            },
            LedgerError::AlreadyReversed(a, b) => {
                push_str(&mut v, "entry ");
                push_str(&mut v, i64_text(*a).as_str());
                push_str(&mut v, " is already reversed by entry ");
                push_str(&mut v, i64_text(*b).as_str());
            },
            LedgerError::CannotReverseReversal(a) => {
                push_str(&mut v, "entry ");
                push_str(&mut v, i64_text(*a).as_str());
                push_str(&mut v, " is a reversal; add the original again instead of reversing it");
            },
            LedgerError::NothingToReverse(g) => {
                push_str(&mut v, "nothing to reverse in group '");
                push_str(&mut v, g.as_str());
                push_str(&mut v, "'");
            },
            LedgerError::InvalidJson(m) => {
                push_str(&mut v, "invalid JSON: ");
                push_str(&mut v, m.as_str());
            },
            LedgerError::Import { line, source } => {
                push_str(&mut v, "line ");
                push_str(&mut v, usize_text(*line).as_str());
                push_str(&mut v, ": ");
                push_str(&mut v, source.message().as_str());
            },
            LedgerError::Db(m) => {
                push_str(&mut v, "database error: ");
                push_str(&mut v, m.as_str());
            },
            LedgerError::Io(m) => {
                push_str(&mut v, "io error: ");
                push_str(&mut v, m.as_str());
            },
        }
        let r = from_chars(&v);
        assert(r@ =~= error_message(self.view()));
        r
    }
}

} // verus!
