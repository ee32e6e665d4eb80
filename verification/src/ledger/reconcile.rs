//! Reconciliation against observed balances.

use vstd::prelude::*;

use super::accounts::{capacity_error, max_rows_usize, trim_opt};
use super::reports::{balance_post, entry_count, latest_ts, sorted_tail_of};
use super::{
    account_amount, account_lookup, balance_result, book_sum, copy_opt, entry_is, fits_i64,
    ledger_extends, max_rows, new_entry_row, opt_str, ostr, overflow_error,
    parse_account_amount, resolve_ts_at, resolve_ts_spec, with_entry, AccountV, EntryV, Ledger,
    LedgerV, NewEntry, NewEntryV, SnapshotRow, SnapshotV,
};
use crate::error::{ErrorV, LedgerError};
use crate::model::{BalanceAt, Entry, Kind, ReconcileResult, Snapshot, SnapshotList};
use crate::money::{amount_text, format_amount};
use crate::sort::{key_at, key_lt, sorted_tail};
use crate::time::normalize_spec;
use crate::text::{copy_str, from_chars, push_str, seq_lt, str_eq, str_lt, to_chars, trim, trim_str};

verus! {

broadcast use Ledger::lemma_view;

/// An observed balance to compare with the book.
#[derive(Clone, Debug)]
pub struct ReconcileRequest {
    pub account: String,
    pub observed: String,
    pub source: Option<String>,
    pub ts: Option<String>,
    /// Post an `adjustment` for a nonzero diff. Off by default: in a live loop a diff is usually
    /// activity that has not been booked yet, not a discrepancy.
    pub adjust: bool,
    /// Compute observed, book and diff and write nothing.
    pub dry_run: bool,
    /// Why the adjustment is right; appended to its memo. Only used with `adjust`.
    pub memo: Option<String>,
    pub actor: Option<String>,
}

/// A `ReconcileRequest` by its values.
pub struct ReconcileRequestV {
    pub account: Seq<char>,
    pub observed: Seq<char>,
    pub source: Option<Seq<char>>,
    pub ts: Option<Seq<char>>,
    pub adjust: bool,
    pub dry_run: bool,
    pub memo: Option<Seq<char>>,
    pub actor: Option<Seq<char>>,
}

impl ReconcileRequest {
    pub open spec fn view(&self) -> ReconcileRequestV {
        ReconcileRequestV {
            account: self.account@,
            observed: self.observed@,
            source: ostr(self.source),
            ts: ostr(self.ts),
            adjust: self.adjust,
            dry_run: self.dry_run,
            memo: ostr(self.memo),
            actor: ostr(self.actor),
        }
    }
}

/// The time of a reconciliation: the given one, normalized; else the clock
/// reading or the account's latest movement time, whichever is later.
pub open spec fn reconcile_ts(v: LedgerV, a: int, ts: Option<Seq<char>>, clock: Seq<char>) -> Result<
    Seq<char>,
    ErrorV,
> {
    match ts {
        Some(t) => resolve_ts_spec(Some(t), clock),
        None => match latest_ts(v.entries, a + 1) {
            Some(l) => if seq_lt(clock, l) {
                Ok(l)
            } else {
                Ok(clock)
            },
            None => Ok(clock),
        },
    }
}

/// One observation compared with the book as of its time: account index,
/// time, observed, book, and the trimmed source.
pub open spec fn compare_spec(v: LedgerV, q: ReconcileRequestV, clock: Seq<char>) -> Result<
    (int, Seq<char>, int, int, Option<Seq<char>>),
    ErrorV,
> {
    match account_lookup(v, q.account) {
        Err(e) => Err(e),
        Ok(a) => match account_amount(q.observed, v.accounts[a]) {
            Err(e) => Err(e),
            Ok(o) => match reconcile_ts(v, a, q.ts, clock) {
                Err(e) => Err(e),
                Ok(ts) => match balance_result(v, a + 1, Some(ts)) {
                    Err(e) => Err(e),
                    Ok(b) => if fits_i64(o - b) {
                        Ok((a, ts, o, b, trim_opt(q.source)))
                    } else {
                        Err(overflow_error())
                    },
                },
            },
        },
    }
}

/// `s` records this observation: account, time, observed, book and source.
pub open spec fn same_observation(
    s: SnapshotV,
    acc_id: int,
    ts: Seq<char>,
    o: int,
    b: int,
    src: Option<Seq<char>>,
) -> bool {
    s.account_id == acc_id && s.ts == ts && s.observed == o && s.book == b && s.source == src
}

/// The latest snapshot recording this observation, if any.
pub open spec fn existing_snapshot_spec(
    ss: Seq<SnapshotV>,
    acc_id: int,
    ts: Seq<char>,
    o: int,
    b: int,
    src: Option<Seq<char>>,
) -> Option<int>
    decreases ss.len(),
{
    if ss.len() == 0 {
        None
    } else if same_observation(ss.last(), acc_id, ts, o, b, src) {
        Some(ss.len() - 1)
    } else {
        existing_snapshot_spec(ss.drop_last(), acc_id, ts, o, b, src)
    }
}

/// The memo of an adjustment: what was observed and booked, and the caller's
/// reason when one is given.
pub open spec fn adjustment_memo(o: int, b: int, d: nat, memo: Option<Seq<char>>) -> Seq<char> {
    "reconcile: observed "@ + amount_text(o, d) + ", book "@ + amount_text(b, d) + match memo {
        Some(m) => if trim(m).len() > 0 {
            "; "@ + trim(m)
        } else {
            Seq::empty()
        },
        None => Seq::empty(),
    }
}

/// `s` shows snapshot `j` of `v`.
pub open spec fn snapshot_is(s: Snapshot, v: LedgerV, j: int) -> bool {
    let row = v.snapshots[j];
    let acc = v.accounts[row.account_id - 1];
    &&& s.id == Some((j + 1) as i64)
    &&& s.account@ == acc.name
    &&& s.ts@ == row.ts
    &&& s.observed@ == amount_text(row.observed, acc.decimals)
    &&& s.book@ == amount_text(row.book, acc.decimals)
    &&& s.diff@ == amount_text(row.diff, acc.decimals)
    &&& super::oid(s.adjustment_entry_id) == row.adjustment_entry_id
    &&& ostr(s.source) == row.source
}

/// The adjustment that makes the book as of `ts` equal the observed balance.
pub open spec fn adjustment_entry(
    a: int,
    ts: Seq<char>,
    o: int,
    b: int,
    d: nat,
    q: ReconcileRequestV,
) -> NewEntryV {
    NewEntryV {
        account: a,
        ts,
        kind: Kind::Adjustment,
        amount: o - b,
        reference: None,
        memo: Some(adjustment_memo(o, b, d, q.memo)),
        actor: q.actor,
        group_id: None,
        meta: None,
        reverses_id: None,
    }
}

/// The book after recording a new observation: the adjustment first when
/// one is posted, then the snapshot pointing at it.
pub open spec fn recorded(
    v: LedgerV,
    a: int,
    ts: Seq<char>,
    o: int,
    b: int,
    src: Option<Seq<char>>,
    q: ReconcileRequestV,
    clock: Seq<char>,
) -> LedgerV {
    let posts = o - b != 0 && q.adjust;
    let v1 = if posts {
        with_entry(v, new_entry_row(adjustment_entry(a, ts, o, b, v.accounts[a].decimals, q), v, clock))
    } else {
        v
    };
    let snap = SnapshotV {
        id: v.snapshots.len() + 1int,
        account_id: a + 1,
        ts,
        observed: o,
        book: b,
        diff: o - b,
        adjustment_entry_id: if posts {
            Some(v.entries.len() + 1int)
        } else {
            None
        },
        source: src,
    };
    LedgerV { accounts: v.accounts, entries: v1.entries, snapshots: v1.snapshots.push(snap) }
}

/// What `reconcile` does. A dry run writes nothing and shows the
/// comparison; an observation already on record that would post nothing is
/// returned as it was; otherwise the adjustment (with `adjust` and a nonzero
/// diff) and the snapshot are appended.
pub open spec fn reconcile_post(
    old: LedgerV,
    new: LedgerV,
    q: ReconcileRequestV,
    clock: Seq<char>,
    r: Result<ReconcileResult, LedgerError>,
) -> bool {
    match compare_spec(old, q, clock) {
        Err(e) => new == old && (r matches Err(x) && x.view() == e),
        Ok((a, ts, o, b, src)) => {
            let acc = old.accounts[a];
            let d = acc.decimals;
            let posts = o - b != 0 && q.adjust;
            let dup = existing_snapshot_spec(old.snapshots, a + 1, ts, o, b, src);
            if q.dry_run {
                new == old && (r matches Ok(res) && {
                    &&& res.dry_run
                    &&& res.duplicate == dup is Some
                    &&& res.adjustment is None
                    &&& res.snapshot.id is None
                    &&& res.snapshot.account@ == acc.name
                    &&& res.snapshot.ts@ == ts
                    &&& res.snapshot.observed@ == amount_text(o, d)
                    &&& res.snapshot.book@ == amount_text(b, d)
                    &&& res.snapshot.diff@ == amount_text(o - b, d)
                    &&& res.snapshot.adjustment_entry_id is None
                    &&& ostr(res.snapshot.source) == src
                })
            } else if !posts && dup is Some {
                let j = dup->0;
                new == old && (r matches Ok(res) && {
                    &&& !res.dry_run
                    &&& res.duplicate
                    &&& snapshot_is(res.snapshot, old, j)
                    &&& match old.snapshots[j].adjustment_entry_id {
                        Some(id) => res.adjustment matches Some(e) && entry_is(e, old, id - 1),
                        None => res.adjustment is None,
                    }
                })
            } else if old.entries.len() + 2 >= max_rows() || old.snapshots.len() + 2 >= max_rows() {
                new == old && (r matches Err(x) && x.view() == capacity_error())
            } else {
                let nv = recorded(old, a, ts, o, b, src, q, clock);
                new == nv && (r matches Ok(res) && {
                    &&& !res.dry_run
                    &&& !res.duplicate
                    &&& snapshot_is(res.snapshot, nv, old.snapshots.len() as int)
                    &&& posts ==> (res.adjustment matches Some(e) && entry_is(
                        e,
                        nv,
                        old.entries.len() as int,
                    ))
                    &&& !posts ==> res.adjustment is None
                })
            }
        },
    }
}

/// The snapshots `snapshots` selects: the account's.
pub open spec fn snapshot_of(v: LedgerV, acc_id: int) -> spec_fn(int) -> bool {
    |j: int| v.snapshots[j].account_id == acc_id
}

/// The order snapshots are listed in: time, then id.
pub open spec fn snapshot_key(v: LedgerV, j: int) -> (Seq<char>, int) {
    (v.snapshots[j].ts, v.snapshots[j].id)
}

/// The snapshot indices a list shows.
pub open spec fn snapshot_ids(s: Seq<Snapshot>) -> Seq<int> {
    s.map_values(|x: Snapshot| (x.id->0) as int - 1)
}

/// What `snapshots` returns: the account's last `limit` snapshots (all when
/// 0), oldest first.
pub open spec fn snapshots_post(v: LedgerV, name: Seq<char>, limit: nat, r: Result<
    SnapshotList,
    LedgerError,
>) -> bool {
    match account_lookup(v, name) {
        Err(e) => r matches Err(x) && x.view() == e,
        Ok(a) => r matches Ok(list) && {
            &&& list.account@ == v.accounts[a].name
            &&& forall|k: int| 0 <= k < list.snapshots@.len() ==> (#[trigger] list.snapshots@[k]).id is Some
            &&& sorted_tail_of(
                |j: int| snapshot_key(v, j),
                snapshot_of(v, a + 1),
                v.snapshots.len() as int,
                limit as int,
                snapshot_ids(list.snapshots@),
            )
            &&& forall|k: int|
                0 <= k < list.snapshots@.len() ==> snapshot_is(
                    #[trigger] list.snapshots@[k],
                    v,
                    (list.snapshots@[k].id->0) as int - 1,
                )
        },
    }
}


impl Ledger {
    /// One observation compared with the book as of its time.
    fn compare(&self, req: &ReconcileRequest, clock: &str) -> (r: Result<
        (usize, String, i64, i64, Option<String>),
        LedgerError,
    >)
        requires
            self.wf(),
        ensures
            match compare_spec(self@, req.view(), clock@) {
                Err(e) => r matches Err(x) && x.view() == e,
                Ok((a, ts, o, b, src)) => r matches Ok(c) && c.0 == a && c.1@ == ts && c.2 == o
                    && c.3 == b && ostr(c.4) == src,
            },
            r matches Ok(c) ==> c.0 < self@.accounts.len(),
            req.ts is Some ==> (r matches Ok(c) ==> (c.1@.len() == 24 ==> normalize_spec(c.1@)
                == Some(c.1@))),
    {
        let ghost v = self@;
        let a = match self.account_by_name(req.account.as_str()) {
            Ok(a) => a,
            Err(e) => return Err(e),
        };
        assert(v.accounts[a as int] == self.accounts@[a as int].view());
        let observed = match parse_account_amount(req.observed.as_str(), &self.accounts[a]) {
            Ok(x) => x,
            Err(e) => return Err(e),
        };
        let ts = match &req.ts {
            Some(t) => match resolve_ts_at(Some(t.as_str()), clock) {
                Ok(x) => x,
                Err(e) => return Err(e),
            },
            None => {
                let latest = self.latest_entry_ts(a);
                match latest {
                    Some(l) => if str_lt(clock, l.as_str()) {
                        l
                    } else {
                        copy_str(clock)
                    },
                    None => copy_str(clock),
                }
            },
        };
        let book = match self.balance_minor(a, Some(ts.as_str())) {
            Ok(b) => b,
            Err(e) => return Err(e),
        };
        let diff = observed as i128 - book as i128;
        if diff < i64::MIN as i128 || diff > i64::MAX as i128 {
            return Err(LedgerError::Db(copy_str("integer overflow")));
        }
        let source = match &req.source {
            Some(s) => Some(trim_str(s.as_str())),
            None => None,
        };
        Ok((a, ts, observed, book, source))
    }

    /// The latest movement time of account `a`.
    fn latest_entry_ts(&self, a: usize) -> (r: Option<String>)
        requires
            self.wf(),
            a < self@.accounts.len(),
        ensures
            ostr(r) == latest_ts(self@.entries, a + 1),
    {
        let ghost v = self@;
        let mut last: Option<String> = None;
        let mut j: usize = 0;
        while j < self.entries.len()
            invariant
                self.wf(),
                self@ == v,
                a < v.accounts.len(),
                j <= self.entries.len(),
                ostr(last) == latest_ts(v.entries.take(j as int), a + 1),
            decreases self.entries.len() - j,
        {
            let e = &self.entries[j];
            proof {
                assert(v.entries[j as int] == e.view());
                assert(v.entries.take(j + 1).drop_last() =~= v.entries.take(j as int));
                assert(v.entries.take(j + 1).last() == e.view());
            }
            if e.account_id == a as i64 + 1 {
                let later = match &last {
                    None => true,
                    Some(p) => str_lt(p.as_str(), e.ts.as_str()),
                };
                if later {
                    last = Some(copy_str(e.ts.as_str()));
                }
            }
            j = j + 1;
        }
        assert(v.entries.take(v.entries.len() as int) =~= v.entries);
        last
    }

    /// The latest snapshot recording this observation.
    fn existing_snapshot(&self, a: usize, ts: &str, o: i64, b: i64, src: &Option<String>) -> (r:
        Option<usize>)
        requires
            self.wf(),
            a < self@.accounts.len(),
        ensures
            super::reconcile::oidx(r) == existing_snapshot_spec(
                self@.snapshots,
                a + 1,
                ts@,
                o as int,
                b as int,
                ostr(*src),
            ),
            r matches Some(j) ==> j < self@.snapshots.len(),
    {
        let ghost v = self@;
        let mut j: usize = self.snapshots.len();
        assert(v.snapshots.take(j as int) =~= v.snapshots);
        while j > 0
            invariant
                self.wf(),
                self@ == v,
                a < v.accounts.len(),
                j <= self.snapshots.len(),
                existing_snapshot_spec(v.snapshots, a + 1, ts@, o as int, b as int, ostr(*src))
                    == existing_snapshot_spec(
                    v.snapshots.take(j as int),
                    a + 1,
                    ts@,
                    o as int,
                    b as int,
                    ostr(*src),
                ),
            decreases j,
        {
            let s = &self.snapshots[j - 1];
            assert(v.snapshots[j - 1] == s.view());
            assert(v.snapshots.take(j as int).last() == s.view());
            assert(v.snapshots.take(j as int).drop_last() =~= v.snapshots.take(j - 1));
            let same_src = match (&s.source, src) {
                (Some(x), Some(y)) => str_eq(x.as_str(), y.as_str()),
                (None, None) => true,
                _ => false,
            };
            if s.account_id as u64 == a as u64 + 1 && str_eq(s.ts.as_str(), ts) && s.observed == o
                && s.book == b && same_src {
                return Some(j - 1);
            }
            j = j - 1;
        }
        None
    }

    /// Snapshot `j` as shown.
    fn load_snapshot(&self, j: usize) -> (r: Snapshot)
        requires
            self.wf(),
            j < self@.snapshots.len(),
        ensures
            snapshot_is(r, self@, j as int),
    {
        let s = &self.snapshots[j];
        assert(self@.snapshots[j as int] == s.view());
        let acc = &self.accounts[(s.account_id - 1) as usize];
        assert(self@.accounts[s.account_id - 1] == acc.view());
        Snapshot {
            id: Some(s.id),
            account: copy_str(acc.name.as_str()),
            ts: copy_str(s.ts.as_str()),
            observed: format_amount(s.observed, acc.decimals),
            book: format_amount(s.book, acc.decimals),
            diff: format_amount(s.diff, acc.decimals),
            adjustment_entry_id: s.adjustment_entry_id,
            source: copy_opt(&s.source),
        }
    }

    /// Append the observation: the adjustment first when one is posted,
    /// then the snapshot.
    fn record(
        &mut self,
        req: &ReconcileRequest,
        clock: &str,
        a: usize,
        ts: String,
        o: i64,
        b: i64,
        src: Option<String>,
    ) -> (r: ReconcileResult)
        requires
            old(self).wf(),
            a < old(self)@.accounts.len(),
            fits_i64(o - b),
            old(self)@.entries.len() + 2 < max_rows(),
            old(self)@.snapshots.len() + 2 < max_rows(),
        ensures
            final(self).wf(),
            final(self)@ == recorded(old(self)@, a as int, ts@, o as int, b as int, ostr(src), req.view(), clock@),
            !r.dry_run,
            !r.duplicate,
            snapshot_is(r.snapshot, final(self)@, old(self)@.snapshots.len() as int),
            (o - b != 0 && req.adjust) ==> (r.adjustment matches Some(e) && entry_is(
                e,
                final(self)@,
                old(self)@.entries.len() as int,
            )),
            !(o - b != 0 && req.adjust) ==> r.adjustment is None,
    {
        let ghost v = self@;
        assert(v.accounts[a as int] == self.accounts@[a as int].view());
        let d = self.accounts[a].decimals;
        let diff = o - b;
        let posts = diff != 0 && req.adjust;
        let n = self.entries.len();
        if posts {
            let memo = reconcile_memo(o, b, d, &req.memo);
            let ne = NewEntry {
                account: a,
                ts: copy_str(ts.as_str()),
                kind: Kind::Adjustment,
                amount: diff,
                reference: None,
                memo: Some(memo),
                actor: copy_opt(&req.actor),
                group_id: None,
                meta: None,
                reverses_id: None,
            };
            assert(ne.view() == adjustment_entry(a as int, ts@, o as int, b as int, d as nat, req.view()));
            self.append_entry(ne, clock);
        }
        let ghost v1 = self@;
        let m = self.snapshots.len();
        let row = SnapshotRow {
            id: (m + 1) as i64,
            account_id: (a + 1) as i64,
            ts,
            observed: o,
            book: b,
            diff,
            adjustment_entry_id: if posts {
                Some((n + 1) as i64)
            } else {
                None
            },
            source: src,
        };
        self.snapshots.push(row);
        proof {
            assert(self@.snapshots =~= v1.snapshots.push(self.snapshots@[m as int].view()));
            assert(self@ == recorded(v, a as int, ts@, o as int, b as int, ostr(src), req.view(), clock@));
        }
        let snapshot = self.load_snapshot(m);
        let adjustment = if posts {
            Some(self.load_entry(n))
        } else {
            None
        };
        ReconcileResult { snapshot, adjustment, duplicate: false, dry_run: false }
    }

    /// Compare an observed balance with the book as of its time and record
    /// the observation; `clock` is the time of the call.
    pub fn reconcile_at(&mut self, req: &ReconcileRequest, clock: &str) -> (r: Result<
        ReconcileResult,
        LedgerError,
    >)
        requires
            old(self).wf(),
        ensures
            final(self).wf(),
            ledger_extends(old(self)@, final(self)@),
            reconcile_post(old(self)@, final(self)@, req.view(), clock@, r),
            req.ts is Some ==> (r matches Ok(res) ==> (res.snapshot.ts@.len() == 24
                ==> normalize_spec(res.snapshot.ts@) == Some(res.snapshot.ts@))),
    {
        let ghost v = self@;
        let (a, ts, o, b, src) = match self.compare(req, clock) {
            Ok(c) => c,
            Err(e) => return Err(e),
        };
        assert(v.accounts[a as int] == self.accounts@[a as int].view());
        let d = self.accounts[a].decimals;
        let dup = self.existing_snapshot(a, ts.as_str(), o, b, &src);
        proof {
            lemma_existing_snapshot_found(v.snapshots, a + 1, ts@, o as int, b as int, ostr(src));
        }
        if req.dry_run {
            let snapshot = Snapshot {
                id: None,
                account: copy_str(self.accounts[a].name.as_str()),
                ts,
                observed: format_amount(o, d),
                book: format_amount(b, d),
                diff: format_amount(o - b, d),
                adjustment_entry_id: None,
                source: src,
            };
            return Ok(
                ReconcileResult {
                    snapshot,
                    adjustment: None,
                    duplicate: dup.is_some(),
                    dry_run: true,
                },
            );
        }
        let posts = o - b != 0 && req.adjust;
        if !posts {
            if let Some(j) = dup {
                let snapshot = self.load_snapshot(j);
                assert(v.snapshots[j as int] == self.snapshots@[j as int].view());
                let adjustment = match self.snapshots[j].adjustment_entry_id {
                    Some(id) => {
                        assert(1 <= id <= v.entries.len());
                        Some(self.load_entry((id - 1) as usize))
                    },
                    None => None,
                };
                return Ok(
                    ReconcileResult { snapshot, adjustment, duplicate: true, dry_run: false },
                );
            }
        }
        let cap = max_rows_usize();
        if self.entries.len() >= cap - 2 || self.snapshots.len() >= cap - 2 {
            return Err(LedgerError::Db(copy_str("database or disk is full")));
        }
        let r = self.record(req, clock, a, ts, o, b, src);
        Ok(r)
    }

    /// Compare an observed balance with the book and record the observation.
    pub fn reconcile(&mut self, req: &ReconcileRequest) -> (r: Result<ReconcileResult, LedgerError>)
        requires
            old(self).wf(),
        ensures
            final(self).wf(),
            ledger_extends(old(self)@, final(self)@),
            exists|clock: Seq<char>| crate::time::storage_shape(clock) && #[trigger] reconcile_post(
                old(self)@,
                final(self)@,
                req.view(),
                clock,
                r,
            ),
            req.ts is Some ==> (r matches Ok(res) ==> (res.snapshot.ts@.len() == 24
                ==> normalize_spec(res.snapshot.ts@) == Some(res.snapshot.ts@))),
    {
        let clock = crate::time::now();
        self.reconcile_at(req, clock.as_str())
    }
}

impl Ledger {
    /// An account's snapshots, the last `limit` of them (all when 0), oldest
    /// first.
    pub fn snapshots(&self, account: &str, limit: usize) -> (r: Result<SnapshotList, LedgerError>)
        requires
            self.wf(),
        ensures
            snapshots_post(self@, account@, limit as nat, r),
    {
        let ghost v = self@;
        let a = match self.account_by_name(account) {
            Ok(a) => a,
            Err(e) => return Err(e),
        };
        let ghost pred = snapshot_of(v, a + 1);
        let mut sel: Vec<usize> = Vec::new();
        let mut keys: Vec<(Vec<char>, i64)> = Vec::new();
        let mut i: usize = 0;
        while i < self.snapshots.len()
            invariant
                self.wf(),
                self@ == v,
                a < v.accounts.len(),
                pred == snapshot_of(v, a + 1),
                i <= self.snapshots.len(),
                keys@.len() == sel@.len(),
                forall|j: int| 0 <= j < sel@.len() ==> #[trigger] sel@[j] < i && pred(sel@[j] as int),
                forall|j: int, k: int| 0 <= j < k < sel@.len() ==> sel@[j] < sel@[k],
                forall|j: int| 0 <= j < i && pred(j) ==> #[trigger] sel@.contains(j as usize),
                forall|m: int| 0 <= m < sel@.len() ==> key_at(keys@, m) == snapshot_key(v, #[trigger] sel@[m] as int),
            decreases self.snapshots.len() - i,
        {
            let s = &self.snapshots[i];
            assert(v.snapshots[i as int] == s.view());
            let ghost before = sel@;
            if s.account_id as u64 == a as u64 + 1 {
                sel.push(i);
                keys.push((to_chars(s.ts.as_str()), s.id));
                assert(sel@[sel@.len() - 1] == i);
            }
            assert forall|j: int| 0 <= j < i + 1 && pred(j) implies #[trigger] sel@.contains(j as usize) by {
                if j < i {
                    assert(before.contains(j as usize));
                    let m = choose|m: int| 0 <= m < before.len() && before[m] == j as usize;
                    assert(sel@[m] == j as usize);
                }
            }
            i = i + 1;
        }
        proof {
            assert forall|x: int, y: int|
                0 <= x < keys@.len() && 0 <= y < keys@.len() && x != y implies keys@[x].1
                != keys@[y].1 by {
                assert(key_at(keys@, x) == snapshot_key(v, sel@[x] as int));
                assert(key_at(keys@, y) == snapshot_key(v, sel@[y] as int));
                if x < y {
                    assert(sel@[x] < sel@[y]);
                } else {
                    assert(sel@[y] < sel@[x]);
                }
            }
        }
        let order = super::reports::tail_of_keys(&keys, &sel, limit, Ghost(|j: int| snapshot_key(v, j)));
        let mut list: Vec<Snapshot> = Vec::new();
        let mut k: usize = 0;
        while k < order.len()
            invariant
                self.wf(),
                self@ == v,
                k <= order@.len(),
                forall|m: int| 0 <= m < order@.len() ==> sel@.contains(#[trigger] order@[m]),
                forall|j: int| 0 <= j < sel@.len() ==> #[trigger] sel@[j] < v.snapshots.len(),
                list@.len() == k,
                forall|m: int|
                    0 <= m < k ==> snapshot_is(#[trigger] list@[m], v, order@[m] as int),
            decreases order@.len() - k,
        {
            assert(sel@.contains(order@[k as int]));
            let x = self.load_snapshot(order[k]);
            list.push(x);
            k = k + 1;
        }
        proof {
            let l = snapshot_ids(list@);
            assert forall|m: int| 0 <= m < list@.len() implies (#[trigger] list@[m]).id is Some && snapshot_is(
                list@[m],
                v,
                (list@[m].id->0) as int - 1,
            ) by {
                assert(snapshot_is(list@[m], v, order@[m] as int));
                assert(sel@.contains(order@[m]));
            }
            assert(l =~= order@.map_values(|x: usize| x as int)) by {
                assert forall|m: int| 0 <= m < l.len() implies l[m] == order@[m] as int by {
                    assert(snapshot_is(list@[m], v, order@[m] as int));
                    assert(sel@.contains(order@[m]));
                }
            }
            let n = v.snapshots.len() as int;
            assert forall|k: int| 0 <= k < l.len() implies 0 <= #[trigger] l[k] < n && pred(l[k]) by {
                assert(sel@.contains(order@[k]));
                let j = choose|j: int| 0 <= j < sel@.len() && sel@[j] == order@[k];
                assert(l[k] == order@[k] as int);
            }
            assert forall|k: int, m: int| 0 <= k < m < l.len() implies key_lt(
                snapshot_key(v, l[k]),
                snapshot_key(v, l[m]),
            ) by {
                assert(l[k] == order@[k] as int);
                assert(l[m] == order@[m] as int);
            }
            assert forall|i: int| 0 <= i < n && pred(i) && !#[trigger] l.contains(i) implies l.len() > 0
                && key_lt(snapshot_key(v, i), snapshot_key(v, l[0])) by {
                assert(sel@.contains(i as usize));
                if order@.contains(i as usize) {
                    let q = choose|q: int| 0 <= q < order@.len() && order@[q] == i as usize;
                    assert(l[q] == i);
                }
                assert(l[0] == order@[0] as int);
            }
            assert forall|i: int|
                0 <= i < n && pred(i) && (limit == 0 || order@.len() < limit) implies #[trigger] l.contains(i) by {
                assert(sel@.contains(i as usize));
                assert(order@.contains(i as usize));
                let q = choose|q: int| 0 <= q < order@.len() && order@[q] == i as usize;
                assert(l[q] == i);
            }
        }
        assert(v.accounts[a as int] == self.accounts@[a as int].view());
        let r: Result<SnapshotList, LedgerError> = Ok(
            SnapshotList { account: copy_str(self.accounts[a].name.as_str()), snapshots: list },
        );
        r
    }
}

/// An optional index as an integer.
pub open spec fn oidx(o: Option<usize>) -> Option<int> {
    match o {
        Some(i) => Some(i as int),
        None => None,
    }
}

/// The memo of an adjustment.
fn reconcile_memo(o: i64, b: i64, d: u32, memo: &Option<String>) -> (r: String)
    requires
        d <= 18,
    ensures
        r@ == adjustment_memo(o as int, b as int, d as nat, ostr(*memo)),
{
    let mut v: Vec<char> = Vec::new();
    push_str(&mut v, "reconcile: observed ");
    push_str(&mut v, format_amount(o, d).as_str());
    push_str(&mut v, ", book ");
    push_str(&mut v, format_amount(b, d).as_str());
    let ghost head = v@;
    if let Some(m) = memo {
        let t = trim_str(m.as_str());
        if to_chars(t.as_str()).len() > 0 {
            push_str(&mut v, "; ");
            push_str(&mut v, t.as_str());
        }
    }
    proof {
        reveal_strlit("reconcile: observed ");
        reveal_strlit(", book ");
        reveal_strlit("; ");
    }
    assert(v@ =~= adjustment_memo(o as int, b as int, d as nat, ostr(*memo)));
    from_chars(&v)
}

/// A reconciliation with `adjust` that succeeds, not as a dry run, leaves the
/// book as of its time equal to the observed balance: the adjustment it posts
/// closes the difference, and without one the difference was zero already.
pub proof fn lemma_adjust_closes_diff(
    old: LedgerV,
    new: LedgerV,
    q: ReconcileRequestV,
    clock: Seq<char>,
    r: Result<ReconcileResult, LedgerError>,
)
    requires
        reconcile_post(old, new, q, clock, r),
        q.adjust,
        !q.dry_run,
        r is Ok,
    ensures
        compare_spec(old, q, clock) matches Ok((a, ts, o, b, src)) && book_sum(
            new.entries,
            a + 1,
            Some(ts),
        ) == o,
{
    match compare_spec(old, q, clock) {
        Err(e) => {},
        Ok((a, ts, o, b, src)) => {
            assert(balance_result(old, a + 1, Some(ts)) == Ok::<int, ErrorV>(b));
            if o - b != 0 {
                let nv = recorded(old, a, ts, o, b, src, q, clock);
                let adj = new_entry_row(
                    adjustment_entry(a, ts, o, b, old.accounts[a].decimals, q),
                    old,
                    clock,
                );
                assert(new == nv);
                assert(new.entries == old.entries.push(adj));
                assert(new.entries.drop_last() =~= old.entries);
                assert(crate::text::seq_le(ts, ts));
            }
        },
    }
}

/// Recording an observation that posts nothing and recording it again with
/// the same explicit time changes nothing the second time and reports a
/// duplicate: a snapshot is one fact `(ts, observed, book, source)`.
pub proof fn lemma_reconcile_retry_is_duplicate(
    v0: LedgerV,
    v1: LedgerV,
    v2: LedgerV,
    q: ReconcileRequestV,
    c1: Seq<char>,
    c2: Seq<char>,
    r1: Result<ReconcileResult, LedgerError>,
    r2: Result<ReconcileResult, LedgerError>,
)
    requires
        reconcile_post(v0, v1, q, c1, r1),
        reconcile_post(v1, v2, q, c2, r2),
        q.ts is Some,
        !q.dry_run,
        r1 matches Ok(res) && res.adjustment is None,
    ensures
        v2 == v1,
        r2 matches Ok(res) && res.duplicate && res.adjustment is None,
{
    match compare_spec(v0, q, c1) {
        Err(e) => {},
        Ok((a, ts, o, b, src)) => {
            let posts = o - b != 0 && q.adjust;
            assert(!posts);
            assert(v1.accounts == v0.accounts);
            assert(v1.entries == v0.entries);
            assert(compare_spec(v1, q, c2) == compare_spec(v0, q, c1));
            let dup0 = existing_snapshot_spec(v0.snapshots, a + 1, ts, o, b, src);
            if dup0 is Some && !posts {
                assert(v1 == v0);
            } else {
                assert(v1.snapshots.last().account_id == a + 1);
                assert(same_observation(v1.snapshots.last(), a + 1, ts, o, b, src));
            }
            let dup1 = existing_snapshot_spec(v1.snapshots, a + 1, ts, o, b, src);
            assert(dup1 is Some);
            let j = dup1->0;
            if dup0 is None || posts {
                assert(j == v1.snapshots.len() - 1);
                assert(v1.snapshots[j].adjustment_entry_id is None);
            }
        },
    }
}

/// The snapshot `existing_snapshot_spec` names records that observation.
proof fn lemma_existing_snapshot_found(
    ss: Seq<SnapshotV>,
    acc_id: int,
    ts: Seq<char>,
    o: int,
    b: int,
    src: Option<Seq<char>>,
)
    ensures
        existing_snapshot_spec(ss, acc_id, ts, o, b, src) matches Some(j) ==> 0 <= j < ss.len()
            && same_observation(ss[j], acc_id, ts, o, b, src),
    decreases ss.len(),
{
    if ss.len() > 0 && !same_observation(ss.last(), acc_id, ts, o, b, src) {
        lemma_existing_snapshot_found(ss.drop_last(), acc_id, ts, o, b, src);
        if let Some(j) = existing_snapshot_spec(ss.drop_last(), acc_id, ts, o, b, src) {
            assert(ss.drop_last()[j] == ss[j]);
        }
    }
}

/// After a reconciliation with `adjust` that succeeds, not as a dry run,
/// `balance` of that account as of the snapshot's time reports exactly the
/// observed balance the snapshot records. The snapshot's time must read back
/// as itself when normalized; `reconcile` states that it does for a time the
/// caller gave, and `now` for a clock reading, whenever it has 24 characters.
pub proof fn lemma_adjusted_balance_is_observed(
    old: LedgerV,
    new: LedgerV,
    q: ReconcileRequestV,
    clock: Seq<char>,
    r: Result<ReconcileResult, LedgerError>,
    br: Result<BalanceAt, LedgerError>,
)
    requires
        reconcile_post(old, new, q, clock, r),
        q.adjust,
        !q.dry_run,
        r matches Ok(res) && normalize_spec(res.snapshot.ts@) == Some(res.snapshot.ts@)
            && balance_post(new, q.account, Some(res.snapshot.ts@), br),
    ensures
        br matches Ok(x) && x.balance@ == r->Ok_0.snapshot.observed@,
{
    lemma_adjust_closes_diff(old, new, q, clock, r);
    let (a, ts, o, b, src) = compare_spec(old, q, clock)->Ok_0;
    let res = r->Ok_0;
    let posts = o - b != 0 && q.adjust;
    let dup = existing_snapshot_spec(old.snapshots, a + 1, ts, o, b, src);
    lemma_existing_snapshot_found(old.snapshots, a + 1, ts, o, b, src);
    assert(new.accounts == old.accounts);
    assert(account_lookup(new, q.account) == account_lookup(old, q.account));
    if !posts && dup is Some {
        let j = dup->0;
        assert(old.snapshots[j].account_id == a + 1);
    } else {
        let nv = recorded(old, a, ts, o, b, src, q, clock);
        assert(nv.snapshots[old.snapshots.len() as int].ts == ts);
    }
    assert(res.snapshot.ts@ == ts);
    assert(res.snapshot.observed@ == amount_text(o, old.accounts[a].decimals));
    assert(fits_i64(o));
}

} // verus!
