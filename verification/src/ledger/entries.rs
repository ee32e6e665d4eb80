//! Writing entries: add, show, transfer, reverse.

use vstd::prelude::*;

use super::accounts::{capacity_error, max_rows_usize};
use super::{
    account_amount, account_lookup, balance_result, book_sum, clean_ref, clean_ref_spec,
    counts_at, entry_is,
    group_spec, ledger_extends, max_rows, meta_spec, new_entry_row, opt_str, ostr,
    overflow_error, parse_account_amount, ref_index, resolve_ts_at, reversed_by, resolve_ts_spec, validate_group,
    validate_meta, with_entry, write_spec, AccountV, EntryV, Ledger, LedgerV, NewEntry,
    NewEntryV, WriteV,
};
use crate::error::{ErrorV, LedgerError};
use crate::model::{kind_text, sign_check, AddResult, Entry, Kind, ReverseResult, ShowResult, TransferResult};
use crate::money::{amount_text, format_amount};
use crate::text::{copy_str, str_eq, trim};

verus! {

broadcast use Ledger::lemma_view;

/// One movement to record on one account.
#[derive(Clone, Debug)]
pub struct AddRequest {
    pub account: String,
    pub amount: String,
    pub kind: Kind,
    pub reference: Option<String>,
    pub memo: Option<String>,
    pub ts: Option<String>,
    pub group: Option<String>,
    pub meta: Option<String>,
    pub actor: Option<String>,
}

/// An `AddRequest` by its values.
pub struct AddRequestV {
    pub account: Seq<char>,
    pub amount: Seq<char>,
    pub kind: Kind,
    pub reference: Option<Seq<char>>,
    pub memo: Option<Seq<char>>,
    pub ts: Option<Seq<char>>,
    pub group: Option<Seq<char>>,
    pub meta: Option<Seq<char>>,
    pub actor: Option<Seq<char>>,
}

impl AddRequest {
    pub open spec fn view(&self) -> AddRequestV {
        AddRequestV {
            account: self.account@,
            amount: self.amount@,
            kind: self.kind,
            reference: ostr(self.reference),
            memo: ostr(self.memo),
            ts: ostr(self.ts),
            group: ostr(self.group),
            meta: ostr(self.meta),
            actor: ostr(self.actor),
        }
    }
}

/// The entry an `add` request describes, validated in the order the fields
/// are read: account, timestamp, amount, group, meta.
pub open spec fn add_fields(v: LedgerV, q: AddRequestV, clock: Seq<char>) -> Result<
    NewEntryV,
    ErrorV,
> {
    match account_lookup(v, q.account) {
        Err(e) => Err(e),
        Ok(a) => match resolve_ts_spec(q.ts, clock) {
            Err(e) => Err(e),
            Ok(ts) => match account_amount(q.amount, v.accounts[a]) {
                Err(e) => Err(e),
                Ok(amount) => match group_spec(q.group) {
                    Err(e) => Err(e),
                    Ok(g) => match meta_spec(q.meta) {
                        Err(e) => Err(e),
                        Ok(m) => Ok(
                            NewEntryV {
                                account: a,
                                ts,
                                kind: q.kind,
                                amount,
                                reference: clean_ref_spec(q.reference),
                                memo: q.memo,
                                actor: q.actor,
                                group_id: g,
                                meta: m,
                                reverses_id: None,
                            },
                        ),
                    },
                },
            },
        },
    }
}

/// What `add` does to the book: the new book, the index of the entry shown,
/// and whether it already existed.
pub open spec fn add_spec(v: LedgerV, q: AddRequestV, clock: Seq<char>) -> Result<
    (LedgerV, int, bool),
    ErrorV,
> {
    if v.entries.len() + 2 >= max_rows() {
        Err(capacity_error())
    } else {
        match add_fields(v, q, clock) {
            Err(e) => Err(e),
            Ok(ne) => match write_spec(v, ne) {
                WriteV::Fail(e) => Err(e),
                WriteV::Duplicate(j) => Ok((v, j, true)),
                WriteV::Inserted => Ok(
                    (with_entry(v, new_entry_row(ne, v, clock)), v.entries.len() as int, false),
                ),
            },
        }
    }
}

/// `r` shows entry `i` of `v` with its account's balance `b`, when the balance
/// fits; otherwise `r` is the overflow error.
pub open spec fn shown_with_balance(v: LedgerV, i: int, entry: Entry, balance: Seq<char>) -> bool {
    let acc_id = v.entries[i].account_id;
    match balance_result(v, acc_id, None) {
        Ok(b) => entry_is(entry, v, i) && balance == amount_text(
            b,
            v.accounts[acc_id - 1].decimals,
        ),
        Err(_) => false,
    }
}

/// `r` and the book after `add` are what `add_spec` says; a balance that
/// leaves `i64` fails the whole call, which then writes nothing.
pub open spec fn add_post(
    old: LedgerV,
    new: LedgerV,
    q: AddRequestV,
    clock: Seq<char>,
    r: Result<AddResult, LedgerError>,
) -> bool {
    match add_spec(old, q, clock) {
        Err(e) => new == old && (r matches Err(x) && x.view() == e),
        Ok((nv, i, dup)) => match balance_result(nv, nv.entries[i].account_id, None) {
            Err(e) => new == old && (r matches Err(x) && x.view() == e),
            Ok(_) => new == nv && (r matches Ok(res) && res.duplicate == dup && shown_with_balance(
                nv,
                i,
                res.entry,
                res.balance@,
            )),
        },
    }
}

/// What `show` returns: entry `id` with its account's balance.
pub open spec fn show_post(v: LedgerV, id: int, r: Result<ShowResult, LedgerError>) -> bool {
    if 1 <= id <= v.entries.len() {
        match balance_result(v, v.entries[id - 1].account_id, None) {
            Err(e) => r matches Err(x) && x.view() == e,
            Ok(_) => r matches Ok(res) && shown_with_balance(v, id - 1, res.entry, res.balance@),
        }
    } else {
        r matches Err(x) && x.view() == ErrorV::EntryNotFound(id)
    }
}

impl Ledger {
    /// The balance of the account of entry `i`, formatted, with the entry.
    fn entry_with_balance(&self, i: usize) -> (r: Result<(Entry, String), LedgerError>)
        requires
            self.wf(),
            i < self@.entries.len(),
        ensures
            match balance_result(self@, self@.entries[i as int].account_id, None) {
                Err(e) => r matches Err(x) && x.view() == e,
                Ok(_) => r matches Ok((entry, b)) && shown_with_balance(
                    self@,
                    i as int,
                    entry,
                    b@,
                ),
            },
    {
        let entry = self.load_entry(i);
        let a = (self.entries[i].account_id - 1) as usize;
        assert(self@.entries[i as int] == self.entries@[i as int].view());
        let decimals = self.accounts[a].decimals;
        assert(self@.accounts[a as int] == self.accounts@[a as int].view());
        match self.balance_minor(a, None) {
            Ok(b) => Ok((entry, format_amount(b, decimals))),
            Err(e) => Err(e),
        }
    }

    /// Record one movement; `clock` is the time of the call, used for a
    /// missing `ts` and as `recorded_at`.
    pub fn add_at(&mut self, req: &AddRequest, clock: &str) -> (r: Result<AddResult, LedgerError>)
        requires
            old(self).wf(),
        ensures
            final(self).wf(),
            ledger_extends(old(self)@, final(self)@),
            add_post(old(self)@, final(self)@, req.view(), clock@, r),
    {
        if self.entries.len() >= max_rows_usize() - 2 {
            return Err(LedgerError::Db(copy_str("database or disk is full")));
        }
        let a = match self.account_by_name(req.account.as_str()) {
            Ok(a) => a,
            Err(e) => return Err(e),
        };
        let ghost q = req.view();
        let ghost v = self@;
        assert(self@.accounts[a as int] == self.accounts@[a as int].view());
        let ts = match resolve_ts_at(opt_str(&req.ts), clock) {
            Ok(t) => t,
            Err(e) => return Err(e),
        };
        let amount = match parse_account_amount(req.amount.as_str(), &self.accounts[a]) {
            Ok(x) => x,
            Err(e) => return Err(e),
        };
        let reference = clean_ref(opt_str(&req.reference));
        let group_id = match validate_group(opt_str(&req.group)) {
            Ok(g) => g,
            Err(e) => return Err(e),
        };
        let meta = match validate_meta(opt_str(&req.meta)) {
            Ok(m) => m,
            Err(e) => return Err(e),
        };
        let ne = NewEntry {
            account: a,
            ts,
            kind: req.kind,
            amount,
            reference,
            memo: crate::ledger::copy_opt(&req.memo),
            actor: crate::ledger::copy_opt(&req.actor),
            group_id,
            meta,
            reverses_id: None,
        };
        let ghost ne_v = ne.view();
        assert(add_fields(v, q, clock@) == Ok::<NewEntryV, ErrorV>(ne_v));
        assert(v.entries.len() + 2 < max_rows());
        let n = self.entries.len();
        assert(ne.account < self@.accounts.len());
        assert(self@.entries.len() + 1 < max_rows());
        let (i, dup) = match self.write_entry(ne, clock) {
            Ok(x) => x,
            Err(e) => return Err(e),
        };
        assert(add_spec(v, q, clock@) == Ok::<(LedgerV, int, bool), ErrorV>((self@, i as int, dup)));
        match self.entry_with_balance(i) {
            Ok((entry, balance)) => Ok(AddResult { entry, balance, duplicate: dup }),
            Err(e) => {
                if !dup {
                    self.roll_back_entries(n);
                    assert(self@.entries =~= v.entries);
                }
                Err(e)
            },
        }
    }

    /// Record one movement.
    pub fn add(&mut self, req: &AddRequest) -> (r: Result<AddResult, LedgerError>)
        requires
            old(self).wf(),
        ensures
            final(self).wf(),
            ledger_extends(old(self)@, final(self)@),
            exists|clock: Seq<char>| crate::time::storage_shape(clock) && #[trigger] add_post(old(self)@, final(self)@, req.view(), clock, r),
    {
        let clock = crate::time::now();
        self.add_at(req, clock.as_str())
    }

    /// Entry `id` with its account's current balance.
    pub fn show(&self, id: i64) -> (r: Result<ShowResult, LedgerError>)
        requires
            self.wf(),
        ensures
            show_post(self@, id as int, r),
    {
        if id < 1 || id as u64 > self.entries.len() as u64 {
            return Err(LedgerError::EntryNotFound(id));
        }
        match self.entry_with_balance((id - 1) as usize) {
            Ok((entry, balance)) => Ok(ShowResult { entry, balance }),
            Err(e) => Err(e),
        }
    }
}


/// Money moved between two accounts of one currency.
#[derive(Clone, Debug)]
pub struct TransferRequest {
    pub from: String,
    pub to: String,
    pub amount: String,
    pub reference: Option<String>,
    pub memo: Option<String>,
    pub ts: Option<String>,
    pub group: Option<String>,
    pub meta: Option<String>,
    pub actor: Option<String>,
}

/// A `TransferRequest` by its values.
pub struct TransferRequestV {
    pub from: Seq<char>,
    pub to: Seq<char>,
    pub amount: Seq<char>,
    pub reference: Option<Seq<char>>,
    pub memo: Option<Seq<char>>,
    pub ts: Option<Seq<char>>,
    pub group: Option<Seq<char>>,
    pub meta: Option<Seq<char>>,
    pub actor: Option<Seq<char>>,
}

impl TransferRequest {
    pub open spec fn view(&self) -> TransferRequestV {
        TransferRequestV {
            from: self.from@,
            to: self.to@,
            amount: self.amount@,
            reference: ostr(self.reference),
            memo: ostr(self.memo),
            ts: ostr(self.ts),
            group: ostr(self.group),
            meta: ostr(self.meta),
            actor: ostr(self.actor),
        }
    }
}

/// `x` is a transfer leg of exactly `amount` minor units.
pub open spec fn leg_matches(x: EntryV, amount: int) -> bool {
    x.kind == Kind::Transfer && x.amount == amount
}

/// The conflict reported for the existing entry `x` of `acc` under reference `r`.
pub open spec fn ref_conflict(acc: AccountV, r: Seq<char>, x: EntryV) -> ErrorV {
    ErrorV::RefConflict {
        account: acc.name,
        reference: r,
        existing_id: x.id,
        existing_kind: kind_text(x.kind),
        existing_amount: amount_text(x.amount, acc.decimals),
    }
}

/// The two legs of a transfer appended to `v`: the outflow on `from`, then
/// the inflow on `to`.
pub open spec fn with_legs(v: LedgerV, out_leg: NewEntryV, in_leg: NewEntryV, clock: Seq<char>) -> LedgerV {
    let v1 = with_entry(v, new_entry_row(out_leg, v, clock));
    with_entry(v1, new_entry_row(in_leg, v1, clock))
}

/// What `transfer` does: the new book, the indices of the outflow and
/// inflow legs, and whether they already existed. `fresh` is the group id
/// used when the request names none.
pub open spec fn transfer_spec(
    v: LedgerV,
    q: TransferRequestV,
    clock: Seq<char>,
    fresh: Seq<char>,
) -> Result<(LedgerV, int, int, bool), ErrorV> {
    if v.entries.len() + 3 >= max_rows() {
        Err(capacity_error())
    } else {
        match account_lookup(v, q.from) {
            Err(e) => Err(e),
            Ok(f) => match account_lookup(v, q.to) {
                Err(e) => Err(e),
                Ok(t) => {
                    let fa = v.accounts[f];
                    let ta = v.accounts[t];
                    if f == t {
                        Err(ErrorV::SameAccount)
                    } else if fa.currency != ta.currency {
                        Err(
                            ErrorV::CurrencyMismatch {
                                from: fa.name,
                                from_currency: fa.currency,
                                to: ta.name,
                                to_currency: ta.currency,
                            },
                        )
                    } else {
                        match resolve_ts_spec(q.ts, clock) {
                            Err(e) => Err(e),
                            Ok(ts) => match account_amount(q.amount, fa) {
                                Err(e) => Err(e),
                                Ok(out) => match account_amount(q.amount, ta) {
                                    Err(e) => Err(e),
                                    Ok(inn) => if out == 0 || inn == 0 {
                                        Err(ErrorV::ZeroAmount)
                                    } else if out < 0 || inn < 0 {
                                        Err(
                                            ErrorV::InvalidSign {
                                                kind: "transfer"@,
                                                expected: "positive"@,
                                                amount: amount_text(out, fa.decimals),
                                            },
                                        )
                                    } else {
                                        match group_spec(q.group) {
                                            Err(e) => Err(e),
                                            Ok(g) => match meta_spec(q.meta) {
                                                Err(e) => Err(e),
                                                Ok(m) => {
                                                    let gid = match g {
                                                        Some(x) => x,
                                                        None => fresh,
                                                    };
                                                    let reference = clean_ref_spec(q.reference);
                                                    let out_leg = NewEntryV {
                                                        account: f,
                                                        ts,
                                                        kind: Kind::Transfer,
                                                        amount: -out,
                                                        reference,
                                                        memo: q.memo,
                                                        actor: q.actor,
                                                        group_id: Some(gid),
                                                        meta: m,
                                                        reverses_id: None,
                                                    };
                                                    let in_leg = NewEntryV {
                                                        account: t,
                                                        amount: inn,
                                                        ..out_leg
                                                    };
                                                    let n = v.entries.len() as int;
                                                    let inserted = Ok(
                                                        (
                                                            with_legs(v, out_leg, in_leg, clock),
                                                            n,
                                                            n + 1,
                                                            false,
                                                        ),
                                                    );
                                                    match reference {
                                                        None => inserted,
                                                        Some(r) => match (
                                                            ref_index(v, f + 1, r),
                                                            ref_index(v, t + 1, r),
                                                        ) {
                                                            (None, None) => inserted,
                                                            (Some(i), Some(j)) => if leg_matches(
                                                                v.entries[i],
                                                                -out,
                                                            ) && leg_matches(v.entries[j], inn) {
                                                                Ok((v, i, j, true))
                                                            } else if !leg_matches(
                                                                v.entries[i],
                                                                -out,
                                                            ) {
                                                                Err(ref_conflict(fa, r, v.entries[i]))
                                                            } else {
                                                                Err(ref_conflict(ta, r, v.entries[j]))
                                                            },
                                                            (Some(i), None) => Err(
                                                                ref_conflict(fa, r, v.entries[i]),
                                                            ),
                                                            (None, Some(j)) => Err(
                                                                ref_conflict(ta, r, v.entries[j]),
                                                            ),
                                                        },
                                                    }
                                                },
                                            },
                                        }
                                    },
                                },
                            },
                        }
                    }
                },
            },
        }
    }
}

/// `r` and the book after `transfer` are what `transfer_spec` says.
pub open spec fn transfer_post(
    old: LedgerV,
    new: LedgerV,
    q: TransferRequestV,
    clock: Seq<char>,
    fresh: Seq<char>,
    r: Result<TransferResult, LedgerError>,
) -> bool {
    match transfer_spec(old, q, clock, fresh) {
        Err(e) => new == old && (r matches Err(x) && x.view() == e),
        Ok((nv, i, j, dup)) => new == nv && (r matches Ok(res) && res.duplicate == dup
            && res.entries@.len() == 2 && entry_is(res.entries@[0], nv, i) && entry_is(
            res.entries@[1],
            nv,
            j,
        )),
    }
}

/// The hyphenated lower-case form of a UUID: 36 characters, hyphens at 8,
/// 13, 18 and 23, lower-case hexadecimal digits elsewhere.
pub open spec fn uuid_text(s: Seq<char>) -> bool {
    &&& s.len() == 36
    &&& forall|i: int|
        0 <= i < 36 ==> if i == 8 || i == 13 || i == 18 || i == 23 {
            #[trigger] s[i] == '-'
        } else {
            ('0' <= s[i] <= '9') || ('a' <= s[i] <= 'f')
        }
}

/// `Uuid::new_v4()` printed with `to_string()` (`format_hyphenated` with
/// lower-case digits). Stated: that form; the value is chance's. The crate
/// panics when the operating system gives no random bytes.
#[verifier::external_body]
fn new_group_id() -> (r: String)
    ensures
        uuid_text(r@),
{
    uuid::Uuid::new_v4().to_string()
}

impl Ledger {
    /// The reference conflict for entry `j` on account `a` (both indices).
    fn conflict_at(&self, a: usize, reference: &str, j: usize) -> (r: LedgerError)
        requires
            self.wf(),
            a < self@.accounts.len(),
            j < self@.entries.len(),
        ensures
            r.view() == ref_conflict(self@.accounts[a as int], reference@, self@.entries[j as int]),
    {
        let acc = &self.accounts[a];
        let x = &self.entries[j];
        assert(self@.accounts[a as int] == acc.view());
        assert(self@.entries[j as int] == x.view());
        LedgerError::RefConflict {
            account: copy_str(acc.name.as_str()),
            reference: copy_str(reference),
            existing_id: x.id,
            existing_kind: copy_str(x.kind.as_str()),
            existing_amount: format_amount(x.amount, acc.decimals),
        }
    }

    /// Move `amount` from one account to another of the same currency;
    /// `clock` is the time of the call and `fresh` the group id used when the
    /// request names none.
    pub fn transfer_with(&mut self, req: &TransferRequest, clock: &str, fresh: &str) -> (r: Result<
        TransferResult,
        LedgerError,
    >)
        requires
            old(self).wf(),
        ensures
            final(self).wf(),
            ledger_extends(old(self)@, final(self)@),
            transfer_post(old(self)@, final(self)@, req.view(), clock@, fresh@, r),
    {
        let ghost v = self@;
        let ghost q = req.view();
        if self.entries.len() >= max_rows_usize() - 3 {
            return Err(LedgerError::Db(copy_str("database or disk is full")));
        }
        let f = match self.account_by_name(req.from.as_str()) {
            Ok(a) => a,
            Err(e) => return Err(e),
        };
        let t = match self.account_by_name(req.to.as_str()) {
            Ok(a) => a,
            Err(e) => return Err(e),
        };
        if f == t {
            return Err(LedgerError::SameAccount);
        }
        assert(self@.accounts[f as int] == self.accounts@[f as int].view());
        assert(self@.accounts[t as int] == self.accounts@[t as int].view());
        if !str_eq(self.accounts[f].currency.as_str(), self.accounts[t].currency.as_str()) {
            return Err(
                LedgerError::CurrencyMismatch {
                    from: copy_str(self.accounts[f].name.as_str()),
                    from_currency: copy_str(self.accounts[f].currency.as_str()),
                    to: copy_str(self.accounts[t].name.as_str()),
                    to_currency: copy_str(self.accounts[t].currency.as_str()),
                },
            );
        }
        let ts = match resolve_ts_at(opt_str(&req.ts), clock) {
            Ok(x) => x,
            Err(e) => return Err(e),
        };
        let out = match parse_account_amount(req.amount.as_str(), &self.accounts[f]) {
            Ok(x) => x,
            Err(e) => return Err(e),
        };
        let inn = match parse_account_amount(req.amount.as_str(), &self.accounts[t]) {
            Ok(x) => x,
            Err(e) => return Err(e),
        };
        if out == 0 || inn == 0 {
            return Err(LedgerError::ZeroAmount);
        }
        if out < 0 || inn < 0 {
            proof {
                reveal_strlit("transfer");
                reveal_strlit("positive");
            }
            return Err(
                LedgerError::InvalidSign {
                    kind: copy_str("transfer"),
                    expected: "positive",
                    amount: format_amount(out, self.accounts[f].decimals),
                },
            );
        }
        let gid = match validate_group(opt_str(&req.group)) {
            Ok(Some(g)) => g,
            Ok(None) => copy_str(fresh),
            Err(e) => return Err(e),
        };
        let meta = match validate_meta(opt_str(&req.meta)) {
            Ok(m) => m,
            Err(e) => return Err(e),
        };
        let reference = clean_ref(opt_str(&req.reference));
        let out_leg = NewEntry {
            account: f,
            ts: copy_str(ts.as_str()),
            kind: Kind::Transfer,
            amount: -out,
            reference: crate::ledger::copy_opt(&reference),
            memo: crate::ledger::copy_opt(&req.memo),
            actor: crate::ledger::copy_opt(&req.actor),
            group_id: Some(copy_str(gid.as_str())),
            meta: crate::ledger::copy_opt(&meta),
            reverses_id: None,
        };
        let in_leg = NewEntry {
            account: t,
            ts,
            kind: Kind::Transfer,
            amount: inn,
            reference: crate::ledger::copy_opt(&reference),
            memo: crate::ledger::copy_opt(&req.memo),
            actor: crate::ledger::copy_opt(&req.actor),
            group_id: Some(gid),
            meta,
            reverses_id: None,
        };
        let ghost out_v = out_leg.view();
        let ghost in_v = in_leg.view();
        if let Some(r) = &reference {
            let fi = self.existing_ref(f, r.as_str());
            let ti = self.existing_ref(t, r.as_str());
            match (fi, ti) {
                (None, None) => {},
                (Some(i), Some(j)) => {
                    assert(self@.entries[i as int] == self.entries@[i as int].view());
                    assert(self@.entries[j as int] == self.entries@[j as int].view());
                    let mi = self.entries[i].kind == Kind::Transfer && self.entries[i].amount
                        == -out;
                    let mj = self.entries[j].kind == Kind::Transfer && self.entries[j].amount
                        == inn;
                    if mi && mj {
                        let a = self.load_entry(i);
                        let b = self.load_entry(j);
                        return Ok(TransferResult { entries: vec![a, b], duplicate: true });
                    } else if !mi {
                        return Err(self.conflict_at(f, r.as_str(), i));
                    } else {
                        return Err(self.conflict_at(t, r.as_str(), j));
                    }
                },
                (Some(i), None) => {
                    return Err(self.conflict_at(f, r.as_str(), i));
                },
                (None, Some(j)) => {
                    return Err(self.conflict_at(t, r.as_str(), j));
                },
            }
        }
        let n = self.entries.len();
        self.append_entry(out_leg, clock);
        self.append_entry(in_leg, clock);
        assert(self@ == with_legs(v, out_v, in_v, clock@));
        let a = self.load_entry(n);
        let b = self.load_entry(n + 1);
        Ok(TransferResult { entries: vec![a, b], duplicate: false })
    }

    /// Move `amount` from one account to another of the same currency, as
    /// two `transfer` entries sharing a group.
    pub fn transfer(&mut self, req: &TransferRequest) -> (r: Result<TransferResult, LedgerError>)
        requires
            old(self).wf(),
        ensures
            final(self).wf(),
            ledger_extends(old(self)@, final(self)@),
            exists|clock: Seq<char>, fresh: Seq<char>|
                crate::time::storage_shape(clock) && (req.group is None ==> uuid_text(fresh))
                    && #[trigger] transfer_post(old(self)@, final(self)@, req.view(), clock, fresh, r),
    {
        let clock = crate::time::now();
        let fresh = match &req.group {
            Some(_) => String::new(),
            None => new_group_id(),
        };
        self.transfer_with(req, clock.as_str(), fresh.as_str())
    }
}


/// `a` then `b` are the two legs of one transfer: an outflow directly
/// followed by an inflow on another account, same time and group.
pub open spec fn is_leg_pair(a: EntryV, b: EntryV) -> bool {
    &&& a.kind == Kind::Transfer
    &&& b.kind == Kind::Transfer
    &&& a.amount < 0
    &&& b.amount > 0
    &&& a.account_id != b.account_id
    &&& a.ts == b.ts
    &&& a.group_id == b.group_id
}

/// The other leg of the transfer entry at index `i`, if it is one.
pub open spec fn sibling(v: LedgerV, i: int) -> Option<int> {
    let e = v.entries[i];
    if e.kind != Kind::Transfer {
        None
    } else if e.amount < 0 {
        if i + 1 < v.entries.len() && is_leg_pair(e, v.entries[i + 1]) {
            Some(i + 1)
        } else {
            None
        }
    } else if i >= 1 && is_leg_pair(v.entries[i - 1], e) {
        Some(i - 1)
    } else {
        None
    }
}

/// The reversal of the entry at index `t`, stored with id `id`: same account,
/// movement time, group and meta, negated amount, pointing back at it.
pub open spec fn reversal_entry(
    v: LedgerV,
    t: int,
    id: int,
    memo: Option<Seq<char>>,
    actor: Option<Seq<char>>,
    clock: Seq<char>,
) -> EntryV {
    let e = v.entries[t];
    EntryV {
        id,
        account_id: e.account_id,
        ts: e.ts,
        recorded_at: clock,
        kind: Kind::Reversal,
        amount: -e.amount,
        reference: None,
        memo,
        actor,
        group_id: e.group_id,
        meta: e.meta,
        reverses_id: Some(t + 1),
    }
}

/// The reversals of the entries at `targets`, in that order, as appended to `v`.
pub open spec fn reversal_rows(
    v: LedgerV,
    targets: Seq<int>,
    memo: Option<Seq<char>>,
    actor: Option<Seq<char>>,
    clock: Seq<char>,
) -> Seq<EntryV> {
    Seq::new(
        targets.len(),
        |j: int| reversal_entry(v, targets[j], v.entries.len() + j + 1, memo, actor, clock),
    )
}

/// `v` with the reversals of the entries at `targets` appended.
pub open spec fn with_reversals(
    v: LedgerV,
    targets: Seq<int>,
    memo: Option<Seq<char>>,
    actor: Option<Seq<char>>,
    clock: Seq<char>,
) -> LedgerV {
    LedgerV {
        accounts: v.accounts,
        entries: v.entries + reversal_rows(v, targets, memo, actor, clock),
        snapshots: v.snapshots,
    }
}

/// Indices as integers.
pub open spec fn usizes(s: Seq<usize>) -> Seq<int> {
    s.map_values(|x: usize| x as int)
}

/// Whether every amount at `targets` can be negated within `i64`.
pub open spec fn negatable(v: LedgerV, targets: Seq<int>) -> bool {
    forall|j: int| 0 <= j < targets.len() ==> v.entries[#[trigger] targets[j]].amount != i64::MIN
}

/// What `reverse_entry` does: the indices of the entries it reverses (the
/// entry, then its transfer sibling if it has one).
pub open spec fn reverse_entry_spec(v: LedgerV, id: int) -> Result<Seq<int>, ErrorV> {
    if v.entries.len() + 3 >= max_rows() {
        Err(capacity_error())
    } else if !(1 <= id <= v.entries.len()) {
        Err(ErrorV::EntryNotFound(id))
    } else if v.entries[id - 1].kind == Kind::Reversal {
        Err(ErrorV::CannotReverseReversal(id))
    } else {
        match reversed_by(v, id) {
            Some(r) => Err(ErrorV::AlreadyReversed(id, r)),
            None => {
                let targets = match sibling(v, id - 1) {
                    None => seq![id - 1],
                    Some(s) => seq![id - 1, s],
                };
                match sibling(v, id - 1) {
                    Some(s) if reversed_by(v, s + 1) is Some => Err(
                        ErrorV::AlreadyReversed(s + 1, reversed_by(v, s + 1)->0),
                    ),
                    _ => if negatable(v, targets) {
                        Ok(targets)
                    } else {
                        Err(overflow_error())
                    },
                }
            },
        }
    }
}

/// `r` and the book after a reversal are the reversals of `targets`
/// appended, each shown; or the error, with the book unchanged.
pub open spec fn reverse_post(
    old: LedgerV,
    new: LedgerV,
    outcome: Result<Seq<int>, ErrorV>,
    memo: Option<Seq<char>>,
    actor: Option<Seq<char>>,
    clock: Seq<char>,
    r: Result<ReverseResult, LedgerError>,
) -> bool {
    match outcome {
        Err(e) => new == old && (r matches Err(x) && x.view() == e),
        Ok(targets) => new == with_reversals(old, targets, memo, actor, clock) && (r matches Ok(
            res,
        ) && res.entries@.len() == targets.len() && forall|j: int|
            0 <= j < targets.len() ==> entry_is(
                #[trigger] res.entries@[j],
                new,
                old.entries.len() + j,
            )),
    }
}

/// The entry at `i` is one `reverse --group` reverses: in group `g`, not a
/// reversal, and not reversed yet.
pub open spec fn group_target(v: LedgerV, g: Seq<char>, i: int) -> bool {
    &&& v.entries[i].group_id == Some(g)
    &&& v.entries[i].kind != Kind::Reversal
    &&& reversed_by(v, i + 1) is None
}

/// The indices below `k` that `reverse --group g` reverses, in order.
pub open spec fn group_targets(v: LedgerV, g: Seq<char>, k: int) -> Seq<int>
    decreases k,
{
    if k <= 0 {
        Seq::empty()
    } else {
        group_targets(v, g, k - 1) + if group_target(v, g, k - 1) {
            seq![k - 1]
        } else {
            Seq::empty()
        }
    }
}

/// What `reverse_group` does: the indices of the entries it reverses.
pub open spec fn reverse_group_spec(v: LedgerV, group: Seq<char>) -> Result<Seq<int>, ErrorV> {
    match group_spec(Some(group)) {
        Err(e) => Err(e),
        Ok(g) => {
            let gg = g->0;
            let targets = group_targets(v, gg, v.entries.len() as int);
            if targets.len() == 0 {
                Err(ErrorV::NothingToReverse(gg))
            } else if v.entries.len() + targets.len() + 1 >= max_rows() {
                Err(capacity_error())
            } else if !negatable(v, targets) {
                Err(overflow_error())
            } else {
                Ok(targets)
            }
        },
    }
}

proof fn lemma_group_targets_bounds(v: LedgerV, g: Seq<char>, k: int)
    requires
        0 <= k <= v.entries.len(),
    ensures
        forall|j: int| 0 <= j < group_targets(v, g, k).len() ==> 0 <= #[trigger] group_targets(v, g, k)[j] < k,
        group_targets(v, g, k).len() <= k,
    decreases k,
{
    if k > 0 {
        lemma_group_targets_bounds(v, g, k - 1);
    }
}

impl Ledger {
    /// Entries at `from` and after, as shown.
    pub(crate) fn entries_from(&self, from: usize) -> (r: Vec<Entry>)
        requires
            self.wf(),
            from <= self@.entries.len(),
        ensures
            r@.len() == self@.entries.len() - from,
            forall|j: int| 0 <= j < r@.len() ==> entry_is(#[trigger] r@[j], self@, from + j),
    {
        let mut out: Vec<Entry> = Vec::new();
        let mut i = from;
        while i < self.entries.len()
            invariant
                self.wf(),
                from <= i <= self.entries.len(),
                out@.len() == i - from,
                forall|j: int| 0 <= j < out@.len() ==> entry_is(#[trigger] out@[j], self@, from + j),
            decreases self.entries.len() - i,
        {
            let e = self.load_entry(i);
            out.push(e);
            i = i + 1;
        }
        out
    }

    /// Append the reversals of the entries at `targets`, in order.
    pub(crate) fn append_reversals(
        &mut self,
        targets: &Vec<usize>,
        memo: &Option<String>,
        actor: &Option<String>,
        clock: &str,
    )
        requires
            old(self).wf(),
            forall|j: int| 0 <= j < targets@.len() ==> #[trigger] targets@[j] < old(self)@.entries.len(),
            negatable(old(self)@, usizes(targets@)),
            old(self)@.entries.len() + targets@.len() < max_rows(),
        ensures
            final(self).wf(),
            final(self)@ == with_reversals(old(self)@, usizes(targets@), ostr(*memo), ostr(*actor), clock@),
    {
        let ghost v = self@;
        let ghost ts = usizes(targets@);
        let n = self.entries.len();
        let mut k: usize = 0;
        while k < targets.len()
            invariant
                self.wf(),
                v == old(self)@,
                ts == usizes(targets@),
                n == v.entries.len(),
                k <= targets.len(),
                forall|j: int| 0 <= j < targets@.len() ==> #[trigger] targets@[j] < n,
                negatable(v, ts),
                n + targets@.len() < max_rows(),
                self@ == with_reversals(v, ts.take(k as int), ostr(*memo), ostr(*actor), clock@),
            decreases targets.len() - k,
        {
            let t = targets[k];
            assert(ts[k as int] == t as int);
            assert(self@.entries[t as int] == v.entries[t as int]);
            assert(self@.entries[t as int] == self.entries@[t as int].view());
            let e = &self.entries[t];
            let ne = NewEntry {
                account: (e.account_id - 1) as usize,
                ts: copy_str(e.ts.as_str()),
                kind: Kind::Reversal,
                amount: -e.amount,
                reference: None,
                memo: crate::ledger::copy_opt(memo),
                actor: crate::ledger::copy_opt(actor),
                group_id: crate::ledger::copy_opt(&e.group_id),
                meta: crate::ledger::copy_opt(&e.meta),
                reverses_id: Some(e.id),
            };
            let ghost before = self@;
            self.append_entry(ne, clock);
            proof {
                let nt = ts.take(k + 1);
                assert(reversal_rows(v, nt, ostr(*memo), ostr(*actor), clock@) =~= reversal_rows(
                    v,
                    ts.take(k as int),
                    ostr(*memo),
                    ostr(*actor),
                    clock@,
                ).push(reversal_entry(v, t as int, n + k + 1, ostr(*memo), ostr(*actor), clock@)));
                assert(self@.entries =~= with_reversals(v, nt, ostr(*memo), ostr(*actor), clock@).entries);
            }
            k = k + 1;
        }
        assert(ts.take(targets@.len() as int) =~= ts);
    }

    /// Reverse entry `id`, and its sibling leg if it is a transfer leg;
    /// `clock` is the time of the call.
    pub fn reverse_entry_at(
        &mut self,
        id: i64,
        memo: Option<String>,
        actor: Option<String>,
        clock: &str,
    ) -> (r: Result<ReverseResult, LedgerError>)
        requires
            old(self).wf(),
        ensures
            final(self).wf(),
            ledger_extends(old(self)@, final(self)@),
            reverse_post(
                old(self)@,
                final(self)@,
                reverse_entry_spec(old(self)@, id as int),
                ostr(memo),
                ostr(actor),
                clock@,
                r,
            ),
    {
        let ghost v = self@;
        if self.entries.len() >= max_rows_usize() - 3 {
            return Err(LedgerError::Db(copy_str("database or disk is full")));
        }
        if id < 1 || id as u64 > self.entries.len() as u64 {
            return Err(LedgerError::EntryNotFound(id));
        }
        let i = (id - 1) as usize;
        assert(self@.entries[i as int] == self.entries@[i as int].view());
        if self.entries[i].kind == Kind::Reversal {
            return Err(LedgerError::CannotReverseReversal(id));
        }
        if let Some(r) = self.find_reversal(id) {
            return Err(LedgerError::AlreadyReversed(id, r));
        }
        let n = self.entries.len();
        let sib: Option<usize> = if self.entries[i].kind != Kind::Transfer {
            None
        } else if self.entries[i].amount < 0 {
            if i + 1 < n && self.is_leg_pair_at(i, i + 1) {
                Some(i + 1)
            } else {
                None
            }
        } else if i >= 1 && self.is_leg_pair_at(i - 1, i) {
            Some(i - 1)
        } else {
            None
        };
        assert(oid_usize(sib) == sibling(v, i as int));
        let mut targets: Vec<usize> = Vec::new();
        targets.push(i);
        if let Some(s) = sib {
            assert(self@.entries[s as int] == self.entries@[s as int].view());
            if let Some(r) = self.find_reversal((s + 1) as i64) {
                return Err(LedgerError::AlreadyReversed((s + 1) as i64, r));
            }
            targets.push(s);
        }
        assert(usizes(targets@) =~= match sibling(v, i as int) {
            None => seq![i as int],
            Some(s) => seq![i as int, s],
        });
        let ghost outcome = if negatable(v, usizes(targets@)) {
            Ok::<Seq<int>, ErrorV>(usizes(targets@))
        } else {
            Err::<Seq<int>, ErrorV>(overflow_error())
        };
        assert(reverse_entry_spec(v, id as int) == outcome);
        let mut k: usize = 0;
        while k < targets.len()
            invariant
                reverse_entry_spec(v, id as int) == outcome,
                outcome == (if negatable(v, usizes(targets@)) {
                    Ok::<Seq<int>, ErrorV>(usizes(targets@))
                } else {
                    Err::<Seq<int>, ErrorV>(overflow_error())
                }),
                self@ == v,
                self.wf(),
                k <= targets.len(),
                forall|j: int| 0 <= j < targets@.len() ==> #[trigger] targets@[j] < n,
                n == v.entries.len(),
                forall|j: int| 0 <= j < k ==> v.entries[#[trigger] usizes(targets@)[j]].amount != i64::MIN,
            decreases targets.len() - k,
        {
            let t = targets[k];
            assert(self@.entries[t as int] == self.entries@[t as int].view());
            assert(usizes(targets@)[k as int] == t as int);
            if self.entries[t].amount == i64::MIN {
                assert(v.entries[usizes(targets@)[k as int]].amount == i64::MIN);
                assert(!negatable(v, usizes(targets@)));
                return Err(LedgerError::Db(copy_str("integer overflow")));
            }
            k = k + 1;
        }
        self.append_reversals(&targets, &memo, &actor, clock);
        let entries = self.entries_from(n);
        Ok(ReverseResult { entries })
    }

    /// Whether the entries at `a` and `b` are the two legs of one transfer.
    fn is_leg_pair_at(&self, a: usize, b: usize) -> (r: bool)
        requires
            self.wf(),
            a < self@.entries.len(),
            b < self@.entries.len(),
        ensures
            r == is_leg_pair(self@.entries[a as int], self@.entries[b as int]),
    {
        let x = &self.entries[a];
        let y = &self.entries[b];
        assert(self@.entries[a as int] == x.view());
        assert(self@.entries[b as int] == y.view());
        let same_group = match (&x.group_id, &y.group_id) {
            (Some(p), Some(q)) => str_eq(p.as_str(), q.as_str()),
            (None, None) => true,
            _ => false,
        };
        x.kind == Kind::Transfer && y.kind == Kind::Transfer && x.amount < 0 && y.amount > 0
            && x.account_id != y.account_id && str_eq(x.ts.as_str(), y.ts.as_str()) && same_group
    }

    /// Reverse entry `id`, and its sibling leg if it is a transfer leg.
    pub fn reverse_entry(&mut self, id: i64, memo: Option<String>, actor: Option<String>) -> (r:
        Result<ReverseResult, LedgerError>)
        requires
            old(self).wf(),
        ensures
            final(self).wf(),
            ledger_extends(old(self)@, final(self)@),
            exists|clock: Seq<char>|
                crate::time::storage_shape(clock) && #[trigger] reverse_post(
                    old(self)@,
                    final(self)@,
                    reverse_entry_spec(old(self)@, id as int),
                    ostr(memo),
                    ostr(actor),
                    clock,
                    r,
                ),
    {
        let clock = crate::time::now();
        self.reverse_entry_at(id, memo, actor, clock.as_str())
    }

    /// Reverse every entry of group `group` that is neither a reversal nor
    /// reversed already; `clock` is the time of the call.
    pub fn reverse_group_at(
        &mut self,
        group: &str,
        memo: Option<String>,
        actor: Option<String>,
        clock: &str,
    ) -> (r: Result<ReverseResult, LedgerError>)
        requires
            old(self).wf(),
        ensures
            final(self).wf(),
            ledger_extends(old(self)@, final(self)@),
            reverse_post(
                old(self)@,
                final(self)@,
                reverse_group_spec(old(self)@, group@),
                ostr(memo),
                ostr(actor),
                clock@,
                r,
            ),
    {
        let ghost v = self@;
        let g = match validate_group(Some(group)) {
            Ok(Some(g)) => g,
            Ok(None) => return Err(LedgerError::InvalidGroup),
            Err(e) => return Err(e),
        };
        let n = self.entries.len();
        let mut targets: Vec<usize> = Vec::new();
        let mut i: usize = 0;
        while i < n
            invariant
                self@ == v,
                self.wf(),
                n == v.entries.len(),
                i <= n,
                usizes(targets@) == group_targets(v, g@, i as int),
                forall|j: int| 0 <= j < targets@.len() ==> #[trigger] targets@[j] < i,
            decreases n - i,
        {
            let e = &self.entries[i];
            assert(self@.entries[i as int] == e.view());
            let in_group = match &e.group_id {
                Some(x) => str_eq(x.as_str(), g.as_str()),
                None => false,
            };
            let ghost before = targets@;
            if in_group && e.kind != Kind::Reversal && self.find_reversal((i + 1) as i64).is_none() {
                targets.push(i);
                assert(usizes(targets@) =~= usizes(before).push(i as int));
            }
            assert(usizes(targets@) =~= group_targets(v, g@, i + 1));
            i = i + 1;
        }
        if targets.len() == 0 {
            return Err(LedgerError::NothingToReverse(g));
        }
        proof {
            lemma_group_targets_bounds(v, g@, n as int);
        }
        if n >= max_rows_usize() - 1 - targets.len() {
            return Err(LedgerError::Db(copy_str("database or disk is full")));
        }
        let ghost outcome = if negatable(v, usizes(targets@)) {
            Ok::<Seq<int>, ErrorV>(usizes(targets@))
        } else {
            Err::<Seq<int>, ErrorV>(overflow_error())
        };
        assert(reverse_group_spec(v, group@) == outcome);
        let mut k: usize = 0;
        while k < targets.len()
            invariant
                reverse_group_spec(v, group@) == outcome,
                outcome == (if negatable(v, usizes(targets@)) {
                    Ok::<Seq<int>, ErrorV>(usizes(targets@))
                } else {
                    Err::<Seq<int>, ErrorV>(overflow_error())
                }),
                self@ == v,
                self.wf(),
                k <= targets.len(),
                forall|j: int| 0 <= j < targets@.len() ==> #[trigger] targets@[j] < n,
                n == v.entries.len(),
                forall|j: int| 0 <= j < k ==> v.entries[#[trigger] usizes(targets@)[j]].amount != i64::MIN,
            decreases targets.len() - k,
        {
            let t = targets[k];
            assert(self@.entries[t as int] == self.entries@[t as int].view());
            assert(usizes(targets@)[k as int] == t as int);
            if self.entries[t].amount == i64::MIN {
                assert(!negatable(v, usizes(targets@)));
                return Err(LedgerError::Db(copy_str("integer overflow")));
            }
            k = k + 1;
        }
        self.append_reversals(&targets, &memo, &actor, clock);
        let entries = self.entries_from(n);
        Ok(ReverseResult { entries })
    }

    /// Reverse every entry of group `group` that is neither a reversal nor
    /// reversed already.
    pub fn reverse_group(&mut self, group: &str, memo: Option<String>, actor: Option<String>) -> (r:
        Result<ReverseResult, LedgerError>)
        requires
            old(self).wf(),
        ensures
            final(self).wf(),
            ledger_extends(old(self)@, final(self)@),
            exists|clock: Seq<char>|
                crate::time::storage_shape(clock) && #[trigger] reverse_post(
                    old(self)@,
                    final(self)@,
                    reverse_group_spec(old(self)@, group@),
                    ostr(memo),
                    ostr(actor),
                    clock,
                    r,
                ),
    {
        let clock = crate::time::now();
        self.reverse_group_at(group, memo, actor, clock.as_str())
    }
}

/// An optional index as an integer.
pub open spec fn oid_usize(o: Option<usize>) -> Option<int> {
    match o {
        Some(i) => Some(i as int),
        None => None,
    }
}


/// Replaying an `add` that carries a reference returns the entry the first
/// call returned, marked as a duplicate, and writes nothing — whatever the
/// clock reads on the replay.
pub proof fn lemma_add_replay(v: LedgerV, q: AddRequestV, clock: Seq<char>, clock2: Seq<char>)
    requires
        super::ledger_wf(v),
        add_spec(v, q, clock) is Ok,
        clean_ref_spec(q.reference) is Some,
        add_spec(v, q, clock)->Ok_0.0.entries.len() + 2 < max_rows(),
    ensures
        ({
            let (nv, i, _) = add_spec(v, q, clock)->Ok_0;
            add_spec(nv, q, clock2) == Ok::<(LedgerV, int, bool), ErrorV>((nv, i, true))
        }),
{
    let (nv, i, dup) = add_spec(v, q, clock)->Ok_0;
    let ne = add_fields(v, q, clock)->Ok_0;
    let ne2 = add_fields(nv, q, clock2)->Ok_0;
    let r = clean_ref_spec(q.reference)->0;
    let p = |e: EntryV| e.account_id == ne.account + 1 && e.reference == Some(r);
    super::lemma_first_index(v.entries, p);
    assert(nv.accounts == v.accounts);
    assert(add_fields(nv, q, clock2) is Ok);
    assert(ne2.account == ne.account && ne2.kind == ne.kind && ne2.amount == ne.amount
        && ne2.reference == ne.reference);
    if !dup {
        let row = new_entry_row(ne, v, clock);
        super::lemma_first_index_push(v.entries, p, row);
        assert(nv.entries == v.entries.push(row));
        assert(p(row));
        assert(ref_index(nv, ne.account + 1, r) == Some(v.entries.len() as int));
        assert(nv.entries[v.entries.len() as int] == row);
    }
}

/// After an `add` that carries a reference, another `add` on the same account
/// under the same reference whose kind or amount differs from the entry the
/// first call returned is refused with that entry, and writes nothing. (Its
/// other fields must be valid and its sign right: those errors come first.)
pub proof fn lemma_replay_conflict(
    v: LedgerV,
    q: AddRequestV,
    q2: AddRequestV,
    clock: Seq<char>,
    clock2: Seq<char>,
)
    requires
        super::ledger_wf(v),
        add_spec(v, q, clock) is Ok,
        clean_ref_spec(q.reference) is Some,
        q2.account == q.account,
        clean_ref_spec(q2.reference) == clean_ref_spec(q.reference),
        add_spec(v, q, clock)->Ok_0.0.entries.len() + 2 < max_rows(),
    ensures
        ({
            let (nv, i, _) = add_spec(v, q, clock)->Ok_0;
            let x = nv.entries[i];
            let acc = nv.accounts[x.account_id - 1];
            add_fields(nv, q2, clock2) matches Ok(ne2) && sign_check(
                ne2.kind,
                ne2.amount,
                acc.decimals,
            ) is None && (ne2.kind != x.kind || ne2.amount != x.amount) ==> add_spec(nv, q2, clock2)
                == Err::<(LedgerV, int, bool), ErrorV>(
                ref_conflict(acc, clean_ref_spec(q.reference)->0, x),
            )
        }),
{
    let (nv, i, dup) = add_spec(v, q, clock)->Ok_0;
    let ne = add_fields(v, q, clock)->Ok_0;
    let r = clean_ref_spec(q.reference)->0;
    let p = |e: EntryV| e.account_id == ne.account + 1 && e.reference == Some(r);
    super::lemma_first_index(v.entries, p);
    assert(nv.accounts == v.accounts);
    if !dup {
        let row = new_entry_row(ne, v, clock);
        super::lemma_first_index_push(v.entries, p, row);
        assert(nv.entries == v.entries.push(row));
        assert(p(row));
        assert(nv.entries[v.entries.len() as int] == row);
    }
    assert(ref_index(nv, ne.account + 1, r) == Some(i));
    assert(nv.entries[i].account_id == ne.account + 1);
    if add_fields(nv, q2, clock2) is Ok {
        let ne2 = add_fields(nv, q2, clock2)->Ok_0;
        assert(ne2.account == ne.account && ne2.reference == Some(r));
    }
}


/// What the entries at `targets` contribute to the balance of `acc_id` as
/// of `at`.
pub open spec fn targets_sum(v: LedgerV, targets: Seq<int>, acc_id: int, at: Option<Seq<char>>) -> int
    decreases targets.len(),
{
    if targets.len() == 0 {
        0
    } else {
        targets_sum(v, targets.drop_last(), acc_id, at) + if counts_at(
            v.entries[targets.last()],
            acc_id,
            at,
        ) {
            v.entries[targets.last()].amount
        } else {
            0
        }
    }
}

/// A reversal cancels what it reverses in every view: after the reversals
/// of `targets` are appended, the balance of every account as of any time
/// is what it was, less what the reversed entries contributed to it.
pub proof fn lemma_reversal_cancels(
    v: LedgerV,
    targets: Seq<int>,
    memo: Option<Seq<char>>,
    actor: Option<Seq<char>>,
    clock: Seq<char>,
    acc_id: int,
    at: Option<Seq<char>>,
)
    requires
        forall|j: int| 0 <= j < targets.len() ==> 0 <= #[trigger] targets[j] < v.entries.len(),
    ensures
        book_sum(with_reversals(v, targets, memo, actor, clock).entries, acc_id, at) == book_sum(
            v.entries,
            acc_id,
            at,
        ) - targets_sum(v, targets, acc_id, at),
    decreases targets.len(),
{
    let es = with_reversals(v, targets, memo, actor, clock).entries;
    if targets.len() == 0 {
        assert(es =~= v.entries);
    } else {
        let t2 = targets.drop_last();
        lemma_reversal_cancels(v, t2, memo, actor, clock, acc_id, at);
        let es2 = with_reversals(v, t2, memo, actor, clock).entries;
        assert(es.drop_last() =~= es2);
        let t = targets.last();
        let row = reversal_entry(v, t, v.entries.len() + t2.len() + 1int, memo, actor, clock);
        assert(es.last() == row);
        assert(counts_at(row, acc_id, at) == counts_at(v.entries[t], acc_id, at));
    }
}


proof fn lemma_group_targets_empty(v: LedgerV, g: Seq<char>, k: int)
    requires
        forall|i: int| 0 <= i < k ==> !#[trigger] group_target(v, g, i),
    ensures
        group_targets(v, g, k).len() == 0,
    decreases k,
{
    if k > 0 {
        lemma_group_targets_empty(v, g, k - 1);
        assert(!group_target(v, g, k - 1));
    }
}

proof fn lemma_group_targets_contains(v: LedgerV, g: Seq<char>, k: int, i: int)
    requires
        0 <= i < k,
        group_target(v, g, i),
    ensures
        group_targets(v, g, k).contains(i),
    decreases k,
{
    if i < k - 1 {
        lemma_group_targets_contains(v, g, k - 1, i);
        let prev = group_targets(v, g, k - 1);
        let j = choose|j: int| 0 <= j < prev.len() && prev[j] == i;
        assert(group_targets(v, g, k)[j] == i);
    } else {
        let prev = group_targets(v, g, k - 1);
        assert(group_targets(v, g, k)[prev.len() as int] == i);
    }
}

/// Entry `id` is reversed in `v`, and stays so in any book that extends it.
proof fn lemma_reversed_by_extend(v: LedgerV, w: LedgerV, id: int)
    requires
        reversed_by(v, id) is Some,
        v.entries.is_prefix_of(w.entries),
    ensures
        reversed_by(w, id) == reversed_by(v, id),
{
    let p = |e: EntryV| e.reverses_id == Some(id);
    super::lemma_first_index(v.entries, p);
    let k = super::first_index(v.entries, p)->0;
    assert forall|j: int| 0 <= j < k implies !p(#[trigger] w.entries[j]) by {
        assert(w.entries[j] == v.entries[j]);
    }
    assert(w.entries[k] == v.entries[k]);
    super::lemma_first_index_is(w.entries, p, k);
}

/// After `reverse --group` nothing in the group is left to reverse: the same
/// call again finds nothing.
pub proof fn lemma_reverse_group_exhausts(
    v: LedgerV,
    group: Seq<char>,
    memo: Option<Seq<char>>,
    actor: Option<Seq<char>>,
    clock: Seq<char>,
)
    requires
        super::ledger_wf(v),
        reverse_group_spec(v, group) is Ok,
    ensures
        reverse_group_spec(
            with_reversals(v, reverse_group_spec(v, group)->Ok_0, memo, actor, clock),
            group,
        ) == Err::<Seq<int>, ErrorV>(ErrorV::NothingToReverse(trim(group))),
{
    let targets = reverse_group_spec(v, group)->Ok_0;
    let g = trim(group);
    let n = v.entries.len() as int;
    let w = with_reversals(v, targets, memo, actor, clock);
    lemma_group_targets_bounds(v, g, n);
    assert forall|i: int| 0 <= i < w.entries.len() implies !#[trigger] group_target(w, g, i) by {
        if i >= n {
            assert(w.entries[i] == reversal_rows(v, targets, memo, actor, clock)[i - n]);
        } else {
            assert(w.entries[i] == v.entries[i]);
            assert(v.entries.is_prefix_of(w.entries));
            if group_target(v, g, i) {
                lemma_group_targets_contains(v, g, n, i);
                let j = choose|j: int| 0 <= j < targets.len() && targets[j] == i;
                let p = |e: EntryV| e.reverses_id == Some(i + 1);
                assert(w.entries[n + j] == reversal_rows(v, targets, memo, actor, clock)[j]);
                assert(p(w.entries[n + j]));
                super::lemma_first_index(w.entries, p);
            } else if reversed_by(v, i + 1) is Some {
                lemma_reversed_by_extend(v, w, i + 1);
            }
        }
    }
    lemma_group_targets_empty(w, g, w.entries.len() as int);
}

/// An entry is reversed once: after `reverse` of entry `id`, reversing it
/// again is refused naming the reversal just written, and that reversal
/// cannot be reversed itself.
pub proof fn lemma_reverse_entry_once(
    v: LedgerV,
    id: int,
    memo: Option<Seq<char>>,
    actor: Option<Seq<char>>,
    clock: Seq<char>,
)
    requires
        super::ledger_wf(v),
        reverse_entry_spec(v, id) is Ok,
        v.entries.len() + 5 < max_rows(),
    ensures
        ({
            let w = with_reversals(v, reverse_entry_spec(v, id)->Ok_0, memo, actor, clock);
            let n = v.entries.len() as int;
            &&& reverse_entry_spec(w, id) == Err::<Seq<int>, ErrorV>(
                ErrorV::AlreadyReversed(id, n + 1),
            )
            &&& reverse_entry_spec(w, n + 1) == Err::<Seq<int>, ErrorV>(
                ErrorV::CannotReverseReversal(n + 1),
            )
        }),
{
    let targets = reverse_entry_spec(v, id)->Ok_0;
    let n = v.entries.len() as int;
    let w = with_reversals(v, targets, memo, actor, clock);
    let rows = reversal_rows(v, targets, memo, actor, clock);
    assert(targets[0] == id - 1);
    assert(w.entries.len() == n + targets.len());
    assert(w.entries[n] == rows[0]);
    assert(w.entries[id - 1] == v.entries[id - 1]);
    let p = |e: EntryV| e.reverses_id == Some(id);
    super::lemma_first_index(v.entries, p);
    assert forall|j: int| 0 <= j < n implies !p(#[trigger] w.entries[j]) by {
        assert(w.entries[j] == v.entries[j]);
    }
    assert(p(w.entries[n]));
    super::lemma_first_index_is(w.entries, p, n);
    assert(reversed_by(w, id) == Some(n + 1));
}


/// What entry `e` contributes to the balance of `acc_id` as of `at`.
pub open spec fn contribution(e: EntryV, acc_id: int, at: Option<Seq<char>>) -> int {
    if counts_at(e, acc_id, at) {
        e.amount
    } else {
        0
    }
}

/// A transfer that writes moves money between its two legs and nothing
/// else: an outflow on one account and an inflow on another of the same
/// currency, at the same time and in the same group, equal in minor units
/// when the accounts have the same decimals; every balance at every time
/// changes by exactly what the legs contribute.
pub proof fn lemma_transfer_moves(
    v: LedgerV,
    q: TransferRequestV,
    clock: Seq<char>,
    fresh: Seq<char>,
    acc_id: int,
    at: Option<Seq<char>>,
)
    requires
        transfer_spec(v, q, clock, fresh) matches Ok((_, _, _, dup)) && !dup,
    ensures
        ({
            let (nv, i, j, _) = transfer_spec(v, q, clock, fresh)->Ok_0;
            let out_leg = nv.entries[i];
            let in_leg = nv.entries[j];
            let fa = v.accounts[out_leg.account_id - 1];
            let ta = v.accounts[in_leg.account_id - 1];
            &&& out_leg.kind == Kind::Transfer && in_leg.kind == Kind::Transfer
            &&& out_leg.amount < 0 < in_leg.amount
            &&& out_leg.account_id != in_leg.account_id
            &&& fa.currency == ta.currency
            &&& out_leg.ts == in_leg.ts
            &&& out_leg.group_id == in_leg.group_id && out_leg.group_id is Some
            &&& fa.decimals == ta.decimals ==> out_leg.amount + in_leg.amount == 0
            &&& book_sum(nv.entries, acc_id, at) == book_sum(v.entries, acc_id, at) + contribution(
                out_leg,
                acc_id,
                at,
            ) + contribution(in_leg, acc_id, at)
        }),
{
    let (nv, i, j, _) = transfer_spec(v, q, clock, fresh)->Ok_0;
    let n = v.entries.len() as int;
    assert(i == n && j == n + 1);
    assert(nv.entries.drop_last().drop_last() =~= v.entries);
    assert(nv.entries.drop_last().last() == nv.entries[i]);
    assert(nv.entries.last() == nv.entries[j]);
    assert(book_sum(nv.entries.drop_last(), acc_id, at) == book_sum(v.entries, acc_id, at)
        + contribution(nv.entries[i], acc_id, at));
}

/// Replaying a transfer that carries a reference returns the two legs the
/// first call returned, marked as a duplicate, and writes nothing — whatever
/// the clock reads and whatever fresh group id is at hand on the replay.
pub proof fn lemma_transfer_replay(
    v: LedgerV,
    q: TransferRequestV,
    clock: Seq<char>,
    fresh: Seq<char>,
    clock2: Seq<char>,
    fresh2: Seq<char>,
)
    requires
        super::ledger_wf(v),
        transfer_spec(v, q, clock, fresh) is Ok,
        clean_ref_spec(q.reference) is Some,
        transfer_spec(v, q, clock, fresh)->Ok_0.0.entries.len() + 3 < max_rows(),
    ensures
        ({
            let (nv, i, j, _) = transfer_spec(v, q, clock, fresh)->Ok_0;
            transfer_spec(nv, q, clock2, fresh2) == Ok::<(LedgerV, int, int, bool), ErrorV>(
                (nv, i, j, true),
            )
        }),
{
    let (nv, i, j, dup) = transfer_spec(v, q, clock, fresh)->Ok_0;
    let f = account_lookup(v, q.from)->Ok_0;
    let t = account_lookup(v, q.to)->Ok_0;
    let r = clean_ref_spec(q.reference)->0;
    let pf = |e: EntryV| e.account_id == f + 1 && e.reference == Some(r);
    let pt = |e: EntryV| e.account_id == t + 1 && e.reference == Some(r);
    assert(nv.accounts == v.accounts);
    assert(resolve_ts_spec(q.ts, clock2) is Ok);
    if !dup {
        let n = v.entries.len() as int;
        let fa = v.accounts[f];
        let ts = resolve_ts_spec(q.ts, clock)->Ok_0;
        let out = account_amount(q.amount, fa)->Ok_0;
        let inn = account_amount(q.amount, v.accounts[t])->Ok_0;
        let g = group_spec(q.group)->Ok_0;
        let m = meta_spec(q.meta)->Ok_0;
        let gid = match g {
            Some(x) => x,
            None => fresh,
        };
        let out_leg = NewEntryV {
            account: f,
            ts,
            kind: Kind::Transfer,
            amount: -out,
            reference: Some(r),
            memo: q.memo,
            actor: q.actor,
            group_id: Some(gid),
            meta: m,
            reverses_id: None,
        };
        let in_leg = NewEntryV { account: t, amount: inn, ..out_leg };
        let v1 = with_entry(v, new_entry_row(out_leg, v, clock));
        let row1 = new_entry_row(out_leg, v, clock);
        let row2 = new_entry_row(in_leg, v1, clock);
        assert(nv == with_legs(v, out_leg, in_leg, clock));
        assert(nv.entries == v.entries.push(row1).push(row2));
        super::lemma_first_index_push(v.entries, pf, row1);
        super::lemma_first_index_push(v.entries, pt, row1);
        super::lemma_first_index_push(v.entries.push(row1), pf, row2);
        super::lemma_first_index_push(v.entries.push(row1), pt, row2);
        assert(pf(row1) && !pt(row1) && pt(row2));
        assert(ref_index(nv, f + 1, r) == Some(n));
        assert(ref_index(nv, t + 1, r) == Some(n + 1));
        assert(nv.entries[n] == row1);
        assert(nv.entries[n + 1] == row2);
    }
}

} // verus!
