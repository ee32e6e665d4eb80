//! The `Ledger` type: accounts, entries and snapshots, append-only, with the
//! row-level helpers every operation shares.

use vstd::prelude::*;

use crate::error::{ErrorV, LedgerError};
use crate::json::{parse_json, JsonKind, JsonKindV, JsonValue};
use crate::model::{kind_text, sign_check, Entry, Kind};
use crate::money::{amount_text, format_amount, parse_amount, parse_amount_spec, AmountError};
use crate::text::{
    chars_eq, copy_str, from_chars, nocase_eq, nocase_equal, push_str, seq_le, str_eq, str_le,
    to_chars, trim, trim_str,
};
use crate::time::{normalize, normalize_spec};

pub mod accounts;
pub mod entries;
pub mod import;
pub mod marks;
pub mod pnl;
pub mod reconcile;
pub mod reports;

pub use entries::{AddRequest, TransferRequest};
pub use pnl::{PnlBucket, PnlFilter};
pub use reconcile::ReconcileRequest;
pub use reports::HistoryFilter;

verus! {

/// A stored account.
#[derive(Debug)]
pub struct AccountRow {
    pub id: i64,
    pub name: String,
    pub currency: String,
    pub decimals: u32,
    pub note: Option<String>,
    pub created_at: String,
}

/// A stored entry: one signed movement on one account.
#[derive(Debug)]
pub struct EntryRow {
    pub id: i64,
    pub account_id: i64,
    pub ts: String,
    pub recorded_at: String,
    pub kind: Kind,
    pub amount: i64,
    pub reference: Option<String>,
    pub memo: Option<String>,
    pub actor: Option<String>,
    pub group_id: Option<String>,
    pub meta: Option<String>,
    pub reverses_id: Option<i64>,
}

/// A stored reconciliation snapshot.
#[derive(Debug)]
pub struct SnapshotRow {
    pub id: i64,
    pub account_id: i64,
    pub ts: String,
    pub observed: i64,
    pub book: i64,
    pub diff: i64,
    pub adjustment_entry_id: Option<i64>,
    pub source: Option<String>,
}

pub struct AccountV {
    pub id: int,
    pub name: Seq<char>,
    pub currency: Seq<char>,
    pub decimals: nat,
    pub note: Option<Seq<char>>,
    pub created_at: Seq<char>,
}

pub struct EntryV {
    pub id: int,
    pub account_id: int,
    pub ts: Seq<char>,
    pub recorded_at: Seq<char>,
    pub kind: Kind,
    pub amount: int,
    pub reference: Option<Seq<char>>,
    pub memo: Option<Seq<char>>,
    pub actor: Option<Seq<char>>,
    pub group_id: Option<Seq<char>>,
    pub meta: Option<Seq<char>>,
    pub reverses_id: Option<int>,
}

pub struct SnapshotV {
    pub id: int,
    pub account_id: int,
    pub ts: Seq<char>,
    pub observed: int,
    pub book: int,
    pub diff: int,
    pub adjustment_entry_id: Option<int>,
    pub source: Option<Seq<char>>,
}

/// The whole book: accounts, entries and snapshots, each in id order.
pub struct LedgerV {
    pub accounts: Seq<AccountV>,
    pub entries: Seq<EntryV>,
    pub snapshots: Seq<SnapshotV>,
}

/// An optional text by its characters.
pub open spec fn ostr(o: Option<String>) -> Option<Seq<char>> {
    match o {
        Some(s) => Some(s@),
        None => None,
    }
}

/// An optional borrowed text by its characters.
pub open spec fn oref(o: Option<&str>) -> Option<Seq<char>> {
    match o {
        Some(s) => Some(s@),
        None => None,
    }
}

/// An optional id as an integer.
pub open spec fn oid(o: Option<i64>) -> Option<int> {
    match o {
        Some(i) => Some(i as int),
        None => None,
    }
}

impl AccountRow {
    pub open spec fn view(&self) -> AccountV {
        AccountV {
            id: self.id as int,
            name: self.name@,
            currency: self.currency@,
            decimals: self.decimals as nat,
            note: ostr(self.note),
            created_at: self.created_at@,
        }
    }
}

impl EntryRow {
    pub open spec fn view(&self) -> EntryV {
        EntryV {
            id: self.id as int,
            account_id: self.account_id as int,
            ts: self.ts@,
            recorded_at: self.recorded_at@,
            kind: self.kind,
            amount: self.amount as int,
            reference: ostr(self.reference),
            memo: ostr(self.memo),
            actor: ostr(self.actor),
            group_id: ostr(self.group_id),
            meta: ostr(self.meta),
            reverses_id: oid(self.reverses_id),
        }
    }
}

impl SnapshotRow {
    pub open spec fn view(&self) -> SnapshotV {
        SnapshotV {
            id: self.id as int,
            account_id: self.account_id as int,
            ts: self.ts@,
            observed: self.observed as int,
            book: self.book as int,
            diff: self.diff as int,
            adjustment_entry_id: oid(self.adjustment_entry_id),
            source: ostr(self.source),
        }
    }
}

/// The book. Rows are only ever appended: no operation changes or removes one.
pub struct Ledger {
    pub(crate) accounts: Vec<AccountRow>,
    pub(crate) entries: Vec<EntryRow>,
    pub(crate) snapshots: Vec<SnapshotRow>,
}

pub open spec fn account_rows_view(s: Seq<AccountRow>) -> Seq<AccountV> {
    s.map_values(|a: AccountRow| a.view())
}

pub open spec fn entry_rows_view(s: Seq<EntryRow>) -> Seq<EntryV> {
    s.map_values(|e: EntryRow| e.view())
}

pub open spec fn snapshot_rows_view(s: Seq<SnapshotRow>) -> Seq<SnapshotV> {
    s.map_values(|x: SnapshotRow| x.view())
}

/// Largest number of rows of one kind: ids and counts stay within `i64` and `usize`.
pub open spec fn max_rows() -> int {
    if usize::MAX < 0x3fff_ffff_ffff_ffff {
        usize::MAX as int
    } else {
        0x3fff_ffff_ffff_ffff
    }
}

/// A well-formed book: ids are 1, 2, 3, … in order; every reference to an
/// account or entry points at an existing row; accounts allow at most 18
/// fraction digits; no entry is zero.
pub open spec fn ledger_wf(v: LedgerV) -> bool {
    &&& v.accounts.len() < max_rows()
    &&& v.entries.len() < max_rows()
    &&& v.snapshots.len() < max_rows()
    &&& forall|i: int|
        0 <= i < v.accounts.len() ==> (#[trigger] v.accounts[i]).id == i + 1
            && v.accounts[i].decimals <= 18
    &&& forall|i: int|
        0 <= i < v.entries.len() ==> {
            let e = #[trigger] v.entries[i];
            &&& e.id == i + 1
            &&& 1 <= e.account_id <= v.accounts.len()
            &&& e.amount != 0
            &&& (e.reverses_id matches Some(r) ==> 1 <= r <= i)
        }
    &&& forall|i: int|
        0 <= i < v.snapshots.len() ==> {
            let s = #[trigger] v.snapshots[i];
            &&& s.id == i + 1
            &&& 1 <= s.account_id <= v.accounts.len()
            &&& (s.adjustment_entry_id matches Some(r) ==> 1 <= r <= v.entries.len())
        }
}

/// `new` keeps every row of `old` unchanged and in place, and may add rows
/// after them: the audit trail is never rewritten.
pub open spec fn ledger_extends(old: LedgerV, new: LedgerV) -> bool {
    &&& old.accounts.is_prefix_of(new.accounts)
    &&& old.entries.is_prefix_of(new.entries)
    &&& old.snapshots.is_prefix_of(new.snapshots)
}

/// The first index of `s` whose element satisfies `p`.
pub open spec fn first_index<T>(s: Seq<T>, p: spec_fn(T) -> bool) -> Option<int>
    decreases s.len(),
{
    if s.len() == 0 {
        None
    } else if p(s[0]) {
        Some(0)
    } else {
        match first_index(s.drop_first(), p) {
            Some(i) => Some(i + 1),
            None => None,
        }
    }
}

pub proof fn lemma_first_index<T>(s: Seq<T>, p: spec_fn(T) -> bool)
    ensures
        first_index(s, p) matches Some(i) ==> 0 <= i < s.len() && p(s[i]) && forall|j: int|
            0 <= j < i ==> !p(#[trigger] s[j]),
        first_index(s, p) is None ==> forall|j: int| 0 <= j < s.len() ==> !p(#[trigger] s[j]),
    decreases s.len(),
{
    if s.len() > 0 && !p(s[0]) {
        lemma_first_index(s.drop_first(), p);
        assert forall|j: int| 1 <= j < s.len() implies s[j] == s.drop_first()[j - 1] by {}
    }
}

/// `first_index` is determined by the first match: the one in `[0, i)` is
/// none and `s[i]` matches.
pub proof fn lemma_first_index_is<T>(s: Seq<T>, p: spec_fn(T) -> bool, i: int)
    requires
        0 <= i < s.len(),
        p(s[i]),
        forall|j: int| 0 <= j < i ==> !p(#[trigger] s[j]),
    ensures
        first_index(s, p) == Some(i),
{
    lemma_first_index(s, p);
    if let Some(k) = first_index(s, p) {
        assert(k == i);
    }
}

/// Appending after the elements keeps an earlier match; otherwise the new
/// element is the first match if it matches.
pub proof fn lemma_first_index_push<T>(s: Seq<T>, p: spec_fn(T) -> bool, x: T)
    ensures
        first_index(s.push(x), p) == (match first_index(s, p) {
            Some(i) => Some(i),
            None => if p(x) {
                Some(s.len() as int)
            } else {
                None
            },
        }),
{
    lemma_first_index(s, p);
    lemma_first_index(s.push(x), p);
    assert forall|j: int| 0 <= j < s.len() implies s.push(x)[j] == s[j] by {}
    assert(s.push(x)[s.len() as int] == x);
}

/// Index of the account named `name` (trimmed, compared up to ASCII case).
pub open spec fn account_index(v: LedgerV, name: Seq<char>) -> Option<int> {
    first_index(v.accounts, |a: AccountV| nocase_eq(a.name, trim(name)))
}

/// The account lookup of every operation: the index, or `AccountNotFound`
/// with the trimmed name.
pub open spec fn account_lookup(v: LedgerV, name: Seq<char>) -> Result<int, ErrorV> {
    match account_index(v, name) {
        Some(i) => Ok(i),
        None => Err(ErrorV::AccountNotFound(trim(name))),
    }
}

/// Whether `e` counts toward the book of `account_id` as of `at`: movement
/// time `ts` compared as text, which is chronological for storage timestamps.
pub open spec fn counts_at(e: EntryV, account_id: int, at: Option<Seq<char>>) -> bool {
    &&& e.account_id == account_id
    &&& match at {
        None => true,
        Some(t) => seq_le(e.ts, t),
    }
}

/// The signed sum of the entries of `account_id` with `ts <= at`.
pub open spec fn book_sum(es: Seq<EntryV>, account_id: int, at: Option<Seq<char>>) -> int
    decreases es.len(),
{
    if es.len() == 0 {
        0
    } else {
        book_sum(es.drop_last(), account_id, at) + if counts_at(es.last(), account_id, at) {
            es.last().amount
        } else {
            0
        }
    }
}

/// Whether `x` fits in an `i64`.
pub open spec fn fits_i64(x: int) -> bool {
    i64::MIN <= x <= i64::MAX
}

/// What SQLite reports when an integer sum leaves `i64`.
pub open spec fn overflow_error() -> ErrorV {
    ErrorV::Db("integer overflow"@)
}

/// The balance of an account as of `at`, or the overflow error.
pub open spec fn balance_result(v: LedgerV, account_id: int, at: Option<Seq<char>>) -> Result<
    int,
    ErrorV,
> {
    let s = book_sum(v.entries, account_id, at);
    if fits_i64(s) {
        Ok(s)
    } else {
        Err(overflow_error())
    }
}

/// The entry that reverses entry `id`, if any.
pub open spec fn reversed_by(v: LedgerV, id: int) -> Option<int> {
    match first_index(v.entries, |e: EntryV| e.reverses_id == Some(id)) {
        Some(j) => Some(j + 1),
        None => None,
    }
}

/// `e` shows entry `i` of `v`.
pub open spec fn entry_is(e: Entry, v: LedgerV, i: int) -> bool {
    let row = v.entries[i];
    let acc = v.accounts[row.account_id - 1];
    &&& e.id == i + 1
    &&& e.account@ == acc.name
    &&& e.currency@ == acc.currency
    &&& e.ts@ == row.ts
    &&& e.recorded_at@ == row.recorded_at
    &&& e.kind == row.kind
    &&& e.amount@ == amount_text(row.amount, acc.decimals)
    &&& ostr(e.reference) == row.reference
    &&& ostr(e.memo) == row.memo
    &&& ostr(e.actor) == row.actor
    &&& ostr(e.group_id) == row.group_id
    &&& ostr(e.meta) == row.meta
    &&& oid(e.reverses_id) == row.reverses_id
    &&& oid(e.reversed_by) == reversed_by(v, i + 1)
    &&& e.amount_minor == row.amount
    &&& e.decimals == acc.decimals
}

/// `ts` resolved: `None` is the clock reading, a given text must normalize.
pub open spec fn resolve_ts_spec(ts: Option<Seq<char>>, clock: Seq<char>) -> Result<
    Seq<char>,
    ErrorV,
> {
    match ts {
        None => Ok(clock),
        Some(t) => match normalize_spec(t) {
            Some(s) => Ok(s),
            None => Err(ErrorV::InvalidTimestamp(trim(t))),
        },
    }
}

/// An amount text parsed for an account, with the account's errors.
pub open spec fn account_amount(text: Seq<char>, acc: AccountV) -> Result<int, ErrorV> {
    match parse_amount_spec(text, acc.decimals) {
        Ok(x) => Ok(x as int),
        Err(AmountError::Invalid) => Err(ErrorV::InvalidAmount(trim(text))),
        Err(AmountError::Precision { scale }) => Err(
            ErrorV::PrecisionExceeded {
                amount: trim(text),
                scale: scale as nat,
                account: acc.name,
                decimals: acc.decimals,
            },
        ),
    }
}

/// A reference trimmed, and dropped when empty.
pub open spec fn clean_ref_spec(r: Option<Seq<char>>) -> Option<Seq<char>> {
    match r {
        Some(t) => if trim(t).len() > 0 {
            Some(trim(t))
        } else {
            None
        },
        None => None,
    }
}

/// A group trimmed; an empty group is an error.
pub open spec fn group_spec(g: Option<Seq<char>>) -> Result<Option<Seq<char>>, ErrorV> {
    match g {
        None => Ok(None),
        Some(t) => if trim(t).len() == 0 {
            Err(ErrorV::InvalidGroup)
        } else {
            Ok(Some(trim(t)))
        },
    }
}

/// Meta text: must parse as a JSON object, and is stored in its compact form.
pub open spec fn meta_spec(m: Option<Seq<char>>) -> Result<Option<Seq<char>>, ErrorV> {
    match m {
        None => Ok(None),
        Some(text) => match crate::json::json_parse_of(text) {
            Err(msg) => Err(ErrorV::InvalidMeta(msg)),
            Ok(doc) => meta_storage_spec(doc.value),
        },
    }
}

/// A parsed meta value in storage form, or the error naming what it was.
pub open spec fn meta_storage_spec(value: crate::json::JsonValueV) -> Result<
    Option<Seq<char>>,
    ErrorV,
> {
    if value.kind is Object {
        Ok(Some(value.text))
    } else {
        Err(ErrorV::InvalidMeta("got "@ + value.text))
    }
}

/// A new entry about to be written.
pub struct NewEntry {
    pub account: usize,
    pub ts: String,
    pub kind: Kind,
    pub amount: i64,
    pub reference: Option<String>,
    pub memo: Option<String>,
    pub actor: Option<String>,
    pub group_id: Option<String>,
    pub meta: Option<String>,
    pub reverses_id: Option<i64>,
}

/// A new entry by its values.
pub struct NewEntryV {
    pub account: int,
    pub ts: Seq<char>,
    pub kind: Kind,
    pub amount: int,
    pub reference: Option<Seq<char>>,
    pub memo: Option<Seq<char>>,
    pub actor: Option<Seq<char>>,
    pub group_id: Option<Seq<char>>,
    pub meta: Option<Seq<char>>,
    pub reverses_id: Option<int>,
}

impl NewEntry {
    pub open spec fn view(&self) -> NewEntryV {
        NewEntryV {
            account: self.account as int,
            ts: self.ts@,
            kind: self.kind,
            amount: self.amount as int,
            reference: ostr(self.reference),
            memo: ostr(self.memo),
            actor: ostr(self.actor),
            group_id: ostr(self.group_id),
            meta: ostr(self.meta),
            reverses_id: oid(self.reverses_id),
        }
    }
}

/// The stored form of a new entry appended to `v`, written at `clock`.
pub open spec fn new_entry_row(ne: NewEntryV, v: LedgerV, clock: Seq<char>) -> EntryV {
    EntryV {
        id: v.entries.len() + 1int,
        account_id: ne.account + 1,
        ts: ne.ts,
        recorded_at: clock,
        kind: ne.kind,
        amount: ne.amount,
        reference: ne.reference,
        memo: ne.memo,
        actor: ne.actor,
        group_id: ne.group_id,
        meta: ne.meta,
        reverses_id: ne.reverses_id,
    }
}

/// Index of the entry of `account_id` carrying `reference`.
pub open spec fn ref_index(v: LedgerV, account_id: int, reference: Seq<char>) -> Option<int> {
    first_index(
        v.entries,
        |e: EntryV| e.account_id == account_id && e.reference == Some(reference),
    )
}

/// What writing an entry does.
pub enum WriteV {
    /// Rejected with this error; nothing written.
    Fail(ErrorV),
    /// The same kind and amount under the same reference already exist at this index.
    Duplicate(int),
    /// Appended.
    Inserted,
}

/// Sign rules, then reference idempotency: same reference with the same kind
/// and amount is the existing entry, with anything else a conflict.
pub open spec fn write_spec(v: LedgerV, ne: NewEntryV) -> WriteV {
    let acc = v.accounts[ne.account as int];
    match sign_check(ne.kind, ne.amount, acc.decimals) {
        Some(e) => WriteV::Fail(e),
        None => match ne.reference {
            None => WriteV::Inserted,
            Some(r) => match ref_index(v, ne.account + 1, r) {
                None => WriteV::Inserted,
                Some(j) => {
                    let x = v.entries[j];
                    if x.kind == ne.kind && x.amount == ne.amount {
                        WriteV::Duplicate(j)
                    } else {
                        WriteV::Fail(
                            ErrorV::RefConflict {
                                account: acc.name,
                                reference: r,
                                existing_id: x.id,
                                existing_kind: kind_text(x.kind),
                                existing_amount: amount_text(x.amount, acc.decimals),
                            },
                        )
                    }
                },
            },
        },
    }
}

/// `v` with one more entry.
pub open spec fn with_entry(v: LedgerV, e: EntryV) -> LedgerV {
    LedgerV { accounts: v.accounts, entries: v.entries.push(e), snapshots: v.snapshots }
}

impl Ledger {
    pub closed spec fn view(&self) -> LedgerV {
        LedgerV {
            accounts: account_rows_view(self.accounts@),
            entries: entry_rows_view(self.entries@),
            snapshots: snapshot_rows_view(self.snapshots@),
        }
    }

    /// The book's rows by their views, for the operations of the submodules.
    pub(crate) broadcast proof fn lemma_view(l: &Ledger)
        ensures
            #[trigger] l.view() == (LedgerV {
                accounts: account_rows_view(l.accounts@),
                entries: entry_rows_view(l.entries@),
                snapshots: snapshot_rows_view(l.snapshots@),
            }),
    {
    }

    /// A well-formed book.
    pub open spec fn wf(&self) -> bool {
        ledger_wf(self@)
    }

    /// An empty book.
    pub fn new() -> (r: Ledger)
        ensures
            r.wf(),
            r@.accounts.len() == 0,
            r@.entries.len() == 0,
            r@.snapshots.len() == 0,
    {
        let r = Ledger { accounts: Vec::new(), entries: Vec::new(), snapshots: Vec::new() };
        assert(r@.accounts =~= Seq::<AccountV>::empty());
        assert(r@.entries =~= Seq::<EntryV>::empty());
        assert(r@.snapshots =~= Seq::<SnapshotV>::empty());
        r
    }

    /// The book the stored rows make, each kind in id order. Rows that are
    /// not a well-formed book are refused with a database error.
    pub fn from_rows(
        accounts: Vec<AccountRow>,
        entries: Vec<EntryRow>,
        snapshots: Vec<SnapshotRow>,
    ) -> (r: Result<Ledger, LedgerError>)
        ensures
            ({
                let v = LedgerV {
                    accounts: account_rows_view(accounts@),
                    entries: entry_rows_view(entries@),
                    snapshots: snapshot_rows_view(snapshots@),
                };
                match r {
                    Ok(l) => l.wf() && l@ == v,
                    Err(e) => !ledger_wf(v) && e.view() == ErrorV::Db("malformed ledger rows"@),
                }
            }),
    {
        let ghost v = LedgerV {
            accounts: account_rows_view(accounts@),
            entries: entry_rows_view(entries@),
            snapshots: snapshot_rows_view(snapshots@),
        };
        let max = crate::ledger::accounts::max_rows_usize();
        let ok = accounts.len() < max && entries.len() < max && snapshots.len() < max
            && accounts_wf(&accounts) && entries_wf(&entries, accounts.len())
            && snapshots_wf(&snapshots, accounts.len(), entries.len());
        if !ok {
            return Err(LedgerError::Db(copy_str("malformed ledger rows")));
        }
        let l = Ledger { accounts, entries, snapshots };
        assert(l@ == v);
        Ok(l)
    }

    /// The stored accounts, in id order.
    pub fn account_rows(&self) -> (r: &[AccountRow])
        ensures
            account_rows_view(r@) == self@.accounts,
    {
        self.accounts.as_slice()
    }

    /// The stored entries, in id order.
    pub fn entry_rows(&self) -> (r: &[EntryRow])
        ensures
            entry_rows_view(r@) == self@.entries,
    {
        self.entries.as_slice()
    }

    /// The stored snapshots, in id order.
    pub fn snapshot_rows(&self) -> (r: &[SnapshotRow])
        ensures
            snapshot_rows_view(r@) == self@.snapshots,
    {
        self.snapshots.as_slice()
    }

    /// An empty book held in memory.
    pub fn open_in_memory() -> (r: Result<Ledger, LedgerError>)
        ensures
            r matches Ok(l) && l.wf() && l@.accounts.len() == 0 && l@.entries.len() == 0
                && l@.snapshots.len() == 0,
    {
        Ok(Ledger::new())
    }

    /// The index of the account named `name`, trimmed and up to ASCII case.
    pub(crate) fn account_by_name(&self, name: &str) -> (r: Result<usize, LedgerError>)
        requires
            self.wf(),
        ensures
            match account_lookup(self@, name@) {
                Ok(i) => r == Ok::<usize, LedgerError>(i as usize),
                Err(e) => r matches Err(x) && x.view() == e,
            },
            r matches Ok(i) ==> i < self@.accounts.len() && account_index(self@, name@) == Some(
                i as int,
            ),
    {
        let t = trim_str(name);
        let tc = to_chars(t.as_str());
        let ghost p = |a: AccountV| nocase_eq(a.name, trim(name@));
        let mut i: usize = 0;
        while i < self.accounts.len()
            invariant
                self.wf(),
                i <= self.accounts.len(),
                tc@ == trim(name@),
                p == (|a: AccountV| nocase_eq(a.name, trim(name@))),
                forall|j: int| 0 <= j < i ==> !p(#[trigger] self@.accounts[j]),
            decreases self.accounts.len() - i,
        {
            let nc = to_chars(self.accounts[i].name.as_str());
            assert(self@.accounts[i as int] == self.accounts@[i as int].view());
            if nocase_equal(&nc, &tc) {
                proof {
                    lemma_first_index_is(self@.accounts, p, i as int);
                }
                return Ok(i);
            }
            i = i + 1;
        }
        proof {
            lemma_first_index(self@.accounts, p);
            if let Some(k) = first_index(self@.accounts, p) {
                assert(!p(self@.accounts[k]));
            }
        }
        Err(LedgerError::AccountNotFound(t))
    }

    /// The balance of account `account` (an index) as of `at`.
    pub(crate) fn balance_minor(&self, account: usize, at: Option<&str>) -> (r: Result<
        i64,
        LedgerError,
    >)
        requires
            self.wf(),
            account < self@.accounts.len(),
        ensures
            match balance_result(self@, account + 1, match at {
                Some(t) => Some(t@),
                None => None,
            }) {
                Ok(x) => r == Ok::<i64, LedgerError>(x as i64),
                Err(e) => r matches Err(y) && y.view() == e,
            },
    {
        let ghost at_v: Option<Seq<char>> = match at {
            Some(t) => Some(t@),
            None => None,
        };
        let mut sum: i128 = 0;
        let mut i: usize = 0;
        while i < self.entries.len()
            invariant
                self.wf(),
                i <= self.entries.len(),
                sum == book_sum(self@.entries.take(i as int), account + 1, at_v),
                -(i as int) * 0x8000_0000_0000_0000 <= sum <= (i as int) * 0x8000_0000_0000_0000,
                at_v == (match at {
                    Some(t) => Some(t@),
                    None => None::<Seq<char>>,
                }),
                account < self@.accounts.len(),
            decreases self.entries.len() - i,
        {
            let e = &self.entries[i];
            assert(self@.entries[i as int] == e.view());
            assert(self@.entries.take(i + 1).drop_last() =~= self@.entries.take(i as int));
            assert(self@.entries.take(i + 1).last() == e.view());
            let counts = e.account_id == account as i64 + 1 && match at {
                None => true,
                Some(t) => str_le(e.ts.as_str(), t),
            };
            assert(counts == counts_at(e.view(), account + 1, at_v));
            if counts {
                sum = sum + e.amount as i128;
            }
            i = i + 1;
        }
        assert(self@.entries.take(self.entries.len() as int) =~= self@.entries);
        if sum < i64::MIN as i128 || sum > i64::MAX as i128 {
            Err(LedgerError::Db(copy_str("integer overflow")))
        } else {
            Ok(sum as i64)
        }
    }

    /// The entry that reverses entry `id`, if any.
    pub(crate) fn find_reversal(&self, id: i64) -> (r: Option<i64>)
        requires
            self.wf(),
        ensures
            oid(r) == reversed_by(self@, id as int),
    {
        let ghost p = |e: EntryV| e.reverses_id == Some(id as int);
        let mut i: usize = 0;
        while i < self.entries.len()
            invariant
                self.wf(),
                i <= self.entries.len(),
                p == (|e: EntryV| e.reverses_id == Some(id as int)),
                forall|j: int| 0 <= j < i ==> !p(#[trigger] self@.entries[j]),
            decreases self.entries.len() - i,
        {
            assert(self@.entries[i as int] == self.entries@[i as int].view());
            if self.entries[i].reverses_id == Some(id) {
                proof {
                    lemma_first_index_is(self@.entries, p, i as int);
                }
                return Some((i + 1) as i64);
            }
            i = i + 1;
        }
        proof {
            lemma_first_index(self@.entries, p);
            if let Some(k) = first_index(self@.entries, p) {
                assert(!p(self@.entries[k]));
            }
        }
        None
    }

    /// Entry `i` (an index) as shown.
    pub(crate) fn load_entry(&self, i: usize) -> (r: Entry)
        requires
            self.wf(),
            i < self@.entries.len(),
        ensures
            entry_is(r, self@, i as int),
    {
        let row = &self.entries[i];
        assert(self@.entries[i as int] == row.view());
        assert(1 <= self@.entries[i as int].account_id <= self@.accounts.len());
        let a = (row.account_id - 1) as usize;
        let acc = &self.accounts[a];
        assert(self@.accounts[a as int] == acc.view());
        assert(a as int == self@.entries[i as int].account_id - 1);
        Entry {
            id: row.id,
            account: copy_str(acc.name.as_str()),
            currency: copy_str(acc.currency.as_str()),
            ts: copy_str(row.ts.as_str()),
            recorded_at: copy_str(row.recorded_at.as_str()),
            kind: row.kind,
            amount: format_amount(row.amount, acc.decimals),
            reference: copy_opt(&row.reference),
            memo: copy_opt(&row.memo),
            actor: copy_opt(&row.actor),
            group_id: copy_opt(&row.group_id),
            meta: copy_opt(&row.meta),
            reverses_id: row.reverses_id,
            reversed_by: self.find_reversal(row.id),
            amount_minor: row.amount,
            decimals: acc.decimals,
        }
    }

    /// The index of the entry of `account` (an index) carrying `reference`.
    pub(crate) fn existing_ref(&self, account: usize, reference: &str) -> (r: Option<usize>)
        requires
            self.wf(),
            account < self@.accounts.len(),
        ensures
            match ref_index(self@, account + 1, reference@) {
                Some(j) => r == Some(j as usize),
                None => r is None,
            },
            r matches Some(j) ==> j < self@.entries.len() && ref_index(
                self@,
                account + 1,
                reference@,
            ) == Some(j as int),
    {
        let ghost p = |e: EntryV| e.account_id == account + 1 && e.reference == Some(reference@);
        let mut i: usize = 0;
        while i < self.entries.len()
            invariant
                self.wf(),
                i <= self.entries.len(),
                p == (|e: EntryV| e.account_id == account + 1 && e.reference == Some(reference@)),
                forall|j: int| 0 <= j < i ==> !p(#[trigger] self@.entries[j]),
                account < self@.accounts.len(),
            decreases self.entries.len() - i,
        {
            let e = &self.entries[i];
            assert(self@.entries[i as int] == e.view());
            let hit = e.account_id == account as i64 + 1 && match &e.reference {
                Some(x) => str_eq(x.as_str(), reference),
                None => false,
            };
            if hit {
                proof {
                    lemma_first_index_is(self@.entries, p, i as int);
                }
                return Some(i);
            }
            i = i + 1;
        }
        proof {
            lemma_first_index(self@.entries, p);
            if let Some(k) = first_index(self@.entries, p) {
                assert(!p(self@.entries[k]));
            }
        }
        None
    }

    /// Insert one entry, honouring sign rules and reference idempotency.
    /// Returns the entry's index and whether it already existed.
    pub(crate) fn write_entry(&mut self, ne: NewEntry, clock: &str) -> (r: Result<
        (usize, bool),
        LedgerError,
    >)
        requires
            old(self).wf(),
            ne.account < old(self)@.accounts.len(),
            ne.reverses_id matches Some(x) ==> 1 <= x <= old(self)@.entries.len(),
            old(self)@.entries.len() + 1 < max_rows(),
        ensures
            final(self).wf(),
            match write_spec(old(self)@, ne.view()) {
                WriteV::Fail(e) => r matches Err(x) && x.view() == e && final(self)@ == old(
                    self,
                )@,
                WriteV::Duplicate(j) => r == Ok::<(usize, bool), LedgerError>((j as usize, true))
                    && final(self)@ == old(self)@,
                WriteV::Inserted => r == Ok::<(usize, bool), LedgerError>(
                    (old(self)@.entries.len() as usize, false),
                ) && final(self)@ == with_entry(old(self)@, new_entry_row(ne.view(), old(self)@, clock@)),
            },
            r matches Ok((i, _)) ==> i < final(self)@.entries.len(),
            write_spec(old(self)@, ne.view()) matches WriteV::Duplicate(j) ==> 0 <= j < old(
                self,
            )@.entries.len(),
    {
        let ghost ne_v = ne.view();
        let decimals = self.accounts[ne.account].decimals;
        assert(self@.accounts[ne.account as int] == self.accounts@[ne.account as int].view());
        if let Err(e) = ne.kind.check_sign(ne.amount, decimals) {
            return Err(e);
        }
        if let Some(reference) = &ne.reference {
            proof {
                lemma_first_index(
                    self@.entries,
                    |e: EntryV| e.account_id == ne.account + 1 && e.reference == Some(reference@),
                );
            }
            if let Some(j) = self.existing_ref(ne.account, reference.as_str()) {
                let x = &self.entries[j];
                assert(self@.entries[j as int] == x.view());
                if x.kind == ne.kind && x.amount == ne.amount {
                    return Ok((j, true));
                }
                return Err(
                    LedgerError::RefConflict {
                        account: copy_str(self.accounts[ne.account].name.as_str()),
                        reference: copy_str(reference.as_str()),
                        existing_id: x.id,
                        existing_kind: copy_str(x.kind.as_str()),
                        existing_amount: format_amount(x.amount, decimals),
                    },
                );
            }
        }
        let n = self.entries.len();
        self.append_entry(ne, clock);
        Ok((n, false))
    }

    /// Append one entry as given, with the next id and `recorded_at = clock`.
    pub(crate) fn append_entry(&mut self, ne: NewEntry, clock: &str)
        requires
            old(self).wf(),
            ne.account < old(self)@.accounts.len(),
            ne.amount != 0,
            ne.reverses_id matches Some(x) ==> 1 <= x <= old(self)@.entries.len(),
            old(self)@.entries.len() + 1 < max_rows(),
        ensures
            final(self).wf(),
            final(self)@ == with_entry(old(self)@, new_entry_row(ne.view(), old(self)@, clock@)),
    {
        let ghost ne_v = ne.view();
        let n = self.entries.len();
        let row = EntryRow {
            id: (n + 1) as i64,
            account_id: (ne.account + 1) as i64,
            ts: ne.ts,
            recorded_at: copy_str(clock),
            kind: ne.kind,
            amount: ne.amount,
            reference: ne.reference,
            memo: ne.memo,
            actor: ne.actor,
            group_id: ne.group_id,
            meta: ne.meta,
            reverses_id: ne.reverses_id,
        };
        let ghost old_v = self@;
        self.entries.push(row);
        proof {
            assert(self@.entries =~= old_v.entries.push(new_entry_row(ne_v, old_v, clock@)));
            assert(self@ == with_entry(old_v, new_entry_row(ne_v, old_v, clock@)));
        }
    }

    /// Drop entries after the first `n`, undoing writes of a failed operation.
    pub(crate) fn roll_back_entries(&mut self, n: usize)
        requires
            old(self).wf(),
            n <= old(self)@.entries.len(),
            forall|i: int|
                0 <= i < old(self)@.snapshots.len() ==> ((#[trigger] old(
                    self,
                )@.snapshots[i]).adjustment_entry_id matches Some(r) ==> r <= n),
        ensures
            final(self).wf(),
            final(self)@.accounts == old(self)@.accounts,
            final(self)@.snapshots == old(self)@.snapshots,
            final(self)@.entries == old(self)@.entries.take(n as int),
    {
        let ghost old_v = self@;
        self.entries.truncate(n);
        proof {
            assert(self@.entries =~= old_v.entries.take(n as int));
            assert(self@.accounts == old_v.accounts);
            assert(self@.snapshots == old_v.snapshots);
        }
    }
}

/// Whether account rows have ids 1, 2, 3, … and at most 18 fraction digits.
fn accounts_wf(rows: &Vec<AccountRow>) -> (r: bool)
    ensures
        r == forall|i: int|
            0 <= i < rows.len() ==> (#[trigger] account_rows_view(rows@)[i]).id == i + 1
                && account_rows_view(rows@)[i].decimals <= 18,
{
    let ghost w = account_rows_view(rows@);
    let mut i: usize = 0;
    while i < rows.len()
        invariant
            i <= rows.len(),
            w == account_rows_view(rows@),
            forall|j: int| 0 <= j < i ==> (#[trigger] w[j]).id == j + 1 && w[j].decimals <= 18,
        decreases rows.len() - i,
    {
        assert(w[i as int] == rows@[i as int].view());
        if rows[i].id as i128 != i as i128 + 1 || rows[i].decimals > 18 {
            return false;
        }
        i = i + 1;
    }
    true
}

/// Whether entry rows have ids 1, 2, 3, …, name an existing account, are
/// not zero, and reverse only an earlier entry.
fn entries_wf(rows: &Vec<EntryRow>, n_accounts: usize) -> (r: bool)
    ensures
        r == forall|i: int|
            0 <= i < rows.len() ==> {
                let e = #[trigger] entry_rows_view(rows@)[i];
                &&& e.id == i + 1
                &&& 1 <= e.account_id <= n_accounts
                &&& e.amount != 0
                &&& (e.reverses_id matches Some(r) ==> 1 <= r <= i)
            },
{
    let ghost w = entry_rows_view(rows@);
    let mut i: usize = 0;
    while i < rows.len()
        invariant
            i <= rows.len(),
            w == entry_rows_view(rows@),
            forall|j: int|
                0 <= j < i ==> {
                    let e = #[trigger] w[j];
                    &&& e.id == j + 1
                    &&& 1 <= e.account_id <= n_accounts
                    &&& e.amount != 0
                    &&& (e.reverses_id matches Some(r) ==> 1 <= r <= j)
                },
        decreases rows.len() - i,
    {
        assert(w[i as int] == rows@[i as int].view());
        let e = &rows[i];
        if e.id as i128 != i as i128 + 1 || e.account_id < 1 || e.account_id as i128
            > n_accounts as i128 || e.amount == 0 {
            return false;
        }
        match e.reverses_id {
            Some(r) => {
                if r < 1 || r as i128 > i as i128 {
                    return false;
                }
            },
            None => {},
        }
        i = i + 1;
    }
    true
}

/// Whether snapshot rows have ids 1, 2, 3, … and name an existing account
/// and adjustment entry.
fn snapshots_wf(rows: &Vec<SnapshotRow>, n_accounts: usize, n_entries: usize) -> (r: bool)
    ensures
        r == forall|i: int|
            0 <= i < rows.len() ==> {
                let s = #[trigger] snapshot_rows_view(rows@)[i];
                &&& s.id == i + 1
                &&& 1 <= s.account_id <= n_accounts
                &&& (s.adjustment_entry_id matches Some(r) ==> 1 <= r <= n_entries)
            },
{
    let ghost w = snapshot_rows_view(rows@);
    let mut i: usize = 0;
    while i < rows.len()
        invariant
            i <= rows.len(),
            w == snapshot_rows_view(rows@),
            forall|j: int|
                0 <= j < i ==> {
                    let s = #[trigger] w[j];
                    &&& s.id == j + 1
                    &&& 1 <= s.account_id <= n_accounts
                    &&& (s.adjustment_entry_id matches Some(r) ==> 1 <= r <= n_entries)
                },
        decreases rows.len() - i,
    {
        assert(w[i as int] == rows@[i as int].view());
        let s = &rows[i];
        if s.id as i128 != i as i128 + 1 || s.account_id < 1 || s.account_id as i128
            > n_accounts as i128 {
            return false;
        }
        match s.adjustment_entry_id {
            Some(r) => {
                if r < 1 || r as i128 > n_entries as i128 {
                    return false;
                }
            },
            None => {},
        }
        i = i + 1;
    }
    true
}

/// A copy of an optional text.
pub fn copy_opt(o: &Option<String>) -> (r: Option<String>)
    ensures
        ostr(r) == ostr(*o),
{
    match o {
        Some(s) => Some(copy_str(s.as_str())),
        None => None,
    }
}

/// An optional text trimmed and dropped when empty.
pub fn clean_ref(reference: Option<&str>) -> (r: Option<String>)
    ensures
        ostr(r) == clean_ref_spec(match reference {
            Some(t) => Some(t@),
            None => None,
        }),
{
    match reference {
        None => None,
        Some(t) => {
            let x = trim_str(t);
            if to_chars(x.as_str()).len() == 0 {
                None
            } else {
                Some(x)
            }
        },
    }
}


/// An optional owned text borrowed.
pub fn opt_str(o: &Option<String>) -> (r: Option<&str>)
    ensures
        oref(r) == ostr(*o),
{
    match o {
        Some(s) => Some(s.as_str()),
        None => None,
    }
}

/// An amount text parsed for `account`, with the account's name in a
/// precision error.
pub fn parse_account_amount(text: &str, account: &AccountRow) -> (r: Result<i64, LedgerError>)
    requires
        account.decimals <= 18,
    ensures
        match account_amount(text@, account.view()) {
            Ok(x) => r == Ok::<i64, LedgerError>(x as i64),
            Err(e) => r matches Err(y) && y.view() == e,
        },
{
    match parse_amount(text, account.decimals) {
        Ok(x) => Ok(x),
        Err(AmountError::Invalid) => Err(LedgerError::InvalidAmount(trim_str(text))),
        Err(AmountError::Precision { scale }) => Err(
            LedgerError::PrecisionExceeded {
                amount: trim_str(text),
                scale,
                account: copy_str(account.name.as_str()),
                decimals: account.decimals,
            },
        ),
    }
}

/// A timestamp resolved against the clock reading `clock`: `None` is the
/// clock, a given text must normalize.
pub fn resolve_ts_at(ts: Option<&str>, clock: &str) -> (r: Result<String, LedgerError>)
    ensures
        match resolve_ts_spec(oref(ts), clock@) {
            Ok(s) => r matches Ok(x) && x@ == s,
            Err(e) => r matches Err(y) && y.view() == e,
        },
        ts is Some ==> (r matches Ok(x) ==> (x@.len() == 24 ==> normalize_spec(x@) == Some(
            x@,
        ))),
{
    match ts {
        None => Ok(copy_str(clock)),
        Some(t) => match normalize(t) {
            Some(s) => Ok(s),
            None => Err(LedgerError::InvalidTimestamp(trim_str(t))),
        },
    }
}

/// A timestamp resolved: `None` is now, a given text must normalize.
pub fn resolve_ts(ts: Option<&str>) -> (r: Result<String, LedgerError>)
    ensures
        exists|clock: Seq<char>|
            crate::time::storage_shape(clock) && match #[trigger] resolve_ts_spec(oref(ts), clock) {
                Ok(s) => r matches Ok(x) && x@ == s,
                Err(e) => r matches Err(y) && y.view() == e,
            },
{
    let clock = crate::time::now();
    resolve_ts_at(ts, clock.as_str())
}

/// An optional timestamp normalized; a given text that does not normalize is
/// an error.
pub fn normalize_opt_ts(ts: Option<&str>) -> (r: Result<Option<String>, LedgerError>)
    ensures
        match ts {
            None => r matches Ok(None),
            Some(t) => match normalize_spec(t@) {
                Some(s) => r matches Ok(Some(x)) && x@ == s,
                None => r matches Err(y) && y.view() == ErrorV::InvalidTimestamp(trim(t@)),
            },
        },
{
    match ts {
        None => Ok(None),
        Some(t) => match normalize(t) {
            Some(s) => Ok(Some(s)),
            None => Err(LedgerError::InvalidTimestamp(trim_str(t))),
        },
    }
}

/// A group id trimmed; an empty one is an error.
pub fn validate_group(group: Option<&str>) -> (r: Result<Option<String>, LedgerError>)
    ensures
        match group_spec(oref(group)) {
            Ok(g) => r matches Ok(x) && ostr(x) == g,
            Err(e) => r matches Err(y) && y.view() == e,
        },
{
    match group {
        None => Ok(None),
        Some(t) => {
            let g = trim_str(t);
            if to_chars(g.as_str()).len() == 0 {
                Err(LedgerError::InvalidGroup)
            } else {
                Ok(Some(g))
            }
        },
    }
}

/// A parsed meta value in storage form: only an object is accepted.
pub fn meta_value_to_storage(value: &JsonValue) -> (r: Result<String, LedgerError>)
    ensures
        match meta_storage_spec(value.view()) {
            Ok(m) => r matches Ok(x) && Some(x@) == m,
            Err(e) => r matches Err(y) && y.view() == e,
        },
{
    if matches!(value.kind, JsonKind::Object) {
        Ok(copy_str(value.text.as_str()))
    } else {
        let mut v: Vec<char> = Vec::new();
        push_str(&mut v, "got ");
        push_str(&mut v, value.text.as_str());
        proof {
            reveal_strlit("got ");
        }
        Err(LedgerError::InvalidMeta(from_chars(&v)))
    }
}

/// Meta text checked to be a JSON object and put in storage form.
pub fn validate_meta(meta: Option<&str>) -> (r: Result<Option<String>, LedgerError>)
    ensures
        match meta_spec(oref(meta)) {
            Ok(m) => r matches Ok(x) && ostr(x) == m,
            Err(e) => r matches Err(y) && y.view() == e,
        },
{
    match meta {
        None => Ok(None),
        Some(text) => match parse_json(text) {
            Err(m) => Err(LedgerError::InvalidMeta(m)),
            Ok(doc) => match meta_value_to_storage(&doc.value) {
                Ok(s) => Ok(Some(s)),
                Err(e) => Err(e),
            },
        },
    }
}

} // verus!
