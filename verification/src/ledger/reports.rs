//! Reading the books: balances, history, export, group view.

use vstd::prelude::*;

use super::accounts::account_key;
use super::entries::{
    group_target, group_targets, reversal_entry, reversal_rows, reverse_group_spec, with_reversals,
};
use super::{
    account_lookup, balance_result, book_sum, counts_at, entry_is, fits_i64, group_spec,
    normalize_opt_ts, opt_str, ostr, overflow_error, validate_group, AccountV, EntryV, Ledger,
    LedgerV, SnapshotV,
};
use crate::error::{ErrorV, LedgerError};
use crate::model::{AccountBalance, BalanceAt, Entry, GroupView, History, HistoryEntry, Kind};
use crate::money::{amount_text, format_amount, format_wide, pow10};
use crate::sort::{ids_distinct, key_at, key_lt, sorted_tail};
use crate::text::{chars_eq, chars_lt, copy_str, seq_le, seq_lt, str_eq, str_le, to_chars, trim};
use crate::time::normalize_spec;

verus! {

broadcast use Ledger::lemma_view;

/// Which entries `history` lists; `limit` 0 means all.
#[derive(Clone, Debug, Default)]
pub struct HistoryFilter {
    pub since: Option<String>,
    pub until: Option<String>,
    pub kind: Option<Kind>,
    pub group: Option<String>,
    /// 0 means unlimited.
    pub limit: usize,
}

/// The order entries are listed in: movement time, then id.
pub open spec fn entry_key(v: LedgerV, i: int) -> (Seq<char>, int) {
    (v.entries[i].ts, v.entries[i].id)
}

/// `l` lists, in increasing `key` order, the last `limit` (all when `limit`
/// is 0) of the indices below `n` that satisfy `sel`.
pub open spec fn sorted_tail_of(
    key: spec_fn(int) -> (Seq<char>, int),
    sel: spec_fn(int) -> bool,
    n: int,
    limit: int,
    l: Seq<int>,
) -> bool {
    &&& forall|k: int| 0 <= k < l.len() ==> 0 <= #[trigger] l[k] < n && sel(l[k])
    &&& forall|k: int, m: int| 0 <= k < m < l.len() ==> key_lt(key(l[k]), key(l[m]))
    &&& forall|i: int|
        0 <= i < n && sel(i) && !#[trigger] l.contains(i) ==> l.len() > 0 && key_lt(
            key(i),
            key(l[0]),
        )
    &&& (limit == 0 ==> forall|i: int| 0 <= i < n && sel(i) ==> #[trigger] l.contains(i))
    &&& (limit > 0 ==> l.len() <= limit && (l.len() == limit || forall|i: int|
        0 <= i < n && sel(i) ==> #[trigger] l.contains(i)))
}

/// The balance of `acc_id` right after the entry with key `key`: the sum of
/// its entries whose `(ts, id)` is not after it.
pub open spec fn running_sum(es: Seq<EntryV>, acc_id: int, key: (Seq<char>, int)) -> int
    decreases es.len(),
{
    if es.len() == 0 {
        0
    } else {
        running_sum(es.drop_last(), acc_id, key) + if es.last().account_id == acc_id && !key_lt(
            key,
            (es.last().ts, es.last().id),
        ) {
            es.last().amount
        } else {
            0
        }
    }
}

/// Every running balance of `acc_id` fits in `i64`.
pub open spec fn running_ok(v: LedgerV, acc_id: int) -> bool {
    forall|i: int|
        0 <= i < v.entries.len() && v.entries[i].account_id == acc_id ==> fits_i64(
            #[trigger] running_sum(v.entries, acc_id, entry_key(v, i)),
        )
}

/// Number of entries of `acc_id`.
pub open spec fn entry_count(es: Seq<EntryV>, acc_id: int) -> int
    decreases es.len(),
{
    if es.len() == 0 {
        0
    } else {
        entry_count(es.drop_last(), acc_id) + if es.last().account_id == acc_id {
            1int
        } else {
            0
        }
    }
}

/// Latest movement time among the entries of `acc_id`.
pub open spec fn latest_ts(es: Seq<EntryV>, acc_id: int) -> Option<Seq<char>>
    decreases es.len(),
{
    if es.len() == 0 {
        None
    } else {
        let prev = latest_ts(es.drop_last(), acc_id);
        let e = es.last();
        if e.account_id == acc_id && (prev matches Some(p) ==> seq_lt(p, e.ts)) {
            Some(e.ts)
        } else {
            prev
        }
    }
}

/// Latest time among the snapshots of `acc_id`.
pub open spec fn latest_snapshot_ts(ss: Seq<SnapshotV>, acc_id: int) -> Option<Seq<char>>
    decreases ss.len(),
{
    if ss.len() == 0 {
        None
    } else {
        let prev = latest_snapshot_ts(ss.drop_last(), acc_id);
        let s = ss.last();
        if s.account_id == acc_id && (prev matches Some(p) ==> seq_lt(p, s.ts)) {
            Some(s.ts)
        } else {
            prev
        }
    }
}

/// `b` is the balance row of account `i`.
pub open spec fn balance_row_is(b: AccountBalance, v: LedgerV, i: int) -> bool {
    let acc = v.accounts[i];
    &&& b.account@ == acc.name
    &&& b.currency@ == acc.currency
    &&& b.balance@ == amount_text(book_sum(v.entries, i + 1, None), acc.decimals)
    &&& b.entries == entry_count(v.entries, i + 1)
    &&& ostr(b.last_ts) == latest_ts(v.entries, i + 1)
    &&& ostr(b.last_reconciled_at) == latest_snapshot_ts(v.snapshots, i + 1)
}

/// `list` holds the balance row of account `p[k]` at position `k`, and `p`
/// orders the accounts by name up to ASCII case, then id.
pub open spec fn balances_listed(v: LedgerV, list: Seq<AccountBalance>, p: Seq<int>) -> bool {
    &&& p.len() == v.accounts.len()
    &&& list.len() == p.len()
    &&& forall|k: int|
        0 <= k < p.len() ==> 0 <= #[trigger] p[k] < v.accounts.len() && balance_row_is(
            list[k],
            v,
            p[k],
        )
    &&& forall|k: int, l: int|
        0 <= k < l < p.len() ==> key_lt(account_key(v.accounts[p[k]]), account_key(v.accounts[p[l]]))
}

/// What `balances` returns: one row per account in list order, or the
/// overflow error when some account's balance leaves `i64`.
pub open spec fn balances_post(v: LedgerV, r: Result<Vec<AccountBalance>, LedgerError>) -> bool {
    if exists|i: int| 0 <= i < v.accounts.len() && !fits_i64(#[trigger] book_sum(v.entries, i + 1, None)) {
        r matches Err(x) && x.view() == overflow_error()
    } else {
        r matches Ok(list) && exists|p: Seq<int>| #[trigger] balances_listed(v, list@, p)
    }
}

/// What `balance` returns: the account's balance as of `at`, normalized.
pub open spec fn balance_post(
    v: LedgerV,
    name: Seq<char>,
    at: Option<Seq<char>>,
    r: Result<BalanceAt, LedgerError>,
) -> bool {
    match account_lookup(v, name) {
        Err(e) => r matches Err(x) && x.view() == e,
        Ok(a) => {
            let acc = v.accounts[a];
            match at {
                Some(t) if normalize_spec(t) is None => r matches Err(x) && x.view()
                    == ErrorV::InvalidTimestamp(trim(t)),
                _ => {
                    let at_n = match at {
                        Some(t) => normalize_spec(t),
                        None => None,
                    };
                    match balance_result(v, a + 1, at_n) {
                        Err(e) => r matches Err(x) && x.view() == e,
                        Ok(b) => r matches Ok(x) && x.account@ == acc.name && x.currency@
                            == acc.currency && x.balance@ == amount_text(b, acc.decimals) && ostr(
                            x.at,
                        ) == at_n,
                    }
                },
            }
        },
    }
}

impl Ledger {
    /// Entry positions of `sel` (strictly increasing indices), the last
    /// `limit` of them (all when 0) in `(ts, id)` order.
    pub(crate) fn sort_entry_tail(&self, sel: &Vec<usize>, limit: usize) -> (r: Vec<usize>)
        requires
            self.wf(),
            forall|j: int| 0 <= j < sel@.len() ==> #[trigger] sel@[j] < self@.entries.len(),
            forall|j: int, k: int| 0 <= j < k < sel@.len() ==> sel@[j] < sel@[k],
        ensures
            forall|k: int|
                0 <= k < r@.len() ==> (#[trigger] r@[k]) < self@.entries.len() && sel@.contains(
                    r@[k],
                ),
            forall|k: int, l: int|
                0 <= k < l < r@.len() ==> key_lt(
                    entry_key(self@, r@[k] as int),
                    entry_key(self@, r@[l] as int),
                ),
            forall|x: usize|
                #[trigger] sel@.contains(x) && !r@.contains(x) ==> r@.len() > 0 && key_lt(
                    entry_key(self@, x as int),
                    entry_key(self@, r@[0] as int),
                ),
            limit == 0 ==> forall|x: usize| #[trigger] sel@.contains(x) ==> r@.contains(x),
            limit > 0 ==> r@.len() <= limit && (r@.len() == limit || forall|x: usize|
                #[trigger] sel@.contains(x) ==> r@.contains(x)),
    {
        let mut keys: Vec<(Vec<char>, i64)> = Vec::new();
        let mut j: usize = 0;
        while j < sel.len()
            invariant
                self.wf(),
                j <= sel@.len(),
                keys@.len() == j,
                forall|m: int| 0 <= m < sel@.len() ==> #[trigger] sel@[m] < self@.entries.len(),
                forall|m: int| 0 <= m < j ==> key_at(keys@, m) == entry_key(self@, #[trigger] sel@[m] as int),
            decreases sel@.len() - j,
        {
            let e = &self.entries[sel[j]];
            assert(self@.entries[sel@[j as int] as int] == e.view());
            keys.push((to_chars(e.ts.as_str()), e.id));
            j = j + 1;
        }
        proof {
            assert forall|x: int, y: int|
                0 <= x < keys@.len() && 0 <= y < keys@.len() && x != y implies keys@[x].1
                != keys@[y].1 by {
                assert(key_at(keys@, x) == entry_key(self@, sel@[x] as int));
                assert(key_at(keys@, y) == entry_key(self@, sel@[y] as int));
                assert(self@.entries[sel@[x] as int].id == sel@[x] + 1);
                assert(self@.entries[sel@[y] as int].id == sel@[y] + 1);
                if x < y {
                    assert(sel@[x] < sel@[y]);
                } else {
                    assert(sel@[y] < sel@[x]);
                }
            }
        }
        let r = tail_of_keys(&keys, sel, limit, Ghost(|i: int| entry_key(self@, i)));
        proof {
            assert forall|k: int| 0 <= k < r@.len() implies (#[trigger] r@[k]) < self@.entries.len()
                && sel@.contains(r@[k]) by {
                assert(sel@.contains(r@[k]));
                let j = choose|j: int| 0 <= j < sel@.len() && sel@[j] == r@[k];
            }
        }
        r
    }

    /// The running balance of account `a` (an index) right after entry `i`.
    pub(crate) fn running_sum_at(&self, a: usize, i: usize) -> (r: i128)
        requires
            self.wf(),
            a < self@.accounts.len(),
            i < self@.entries.len(),
        ensures
            r == running_sum(self@.entries, a + 1, entry_key(self@, i as int)),
    {
        let ghost v = self@;
        let key_ts = to_chars(self.entries[i].ts.as_str());
        let key_id = self.entries[i].id;
        assert(self@.entries[i as int] == self.entries@[i as int].view());
        let ghost key = entry_key(v, i as int);
        let mut sum: i128 = 0;
        let mut j: usize = 0;
        while j < self.entries.len()
            invariant
                self.wf(),
                self@ == v,
                j <= self.entries.len(),
                key == (key_ts@, key_id as int),
                a < v.accounts.len(),
                sum == running_sum(v.entries.take(j as int), a + 1, key),
                -(j as int) * 0x8000_0000_0000_0000 <= sum <= (j as int) * 0x8000_0000_0000_0000,
            decreases self.entries.len() - j,
        {
            let e = &self.entries[j];
            assert(v.entries[j as int] == e.view());
            assert(v.entries.take(j + 1).drop_last() =~= v.entries.take(j as int));
            assert(v.entries.take(j + 1).last() == e.view());
            let ets = to_chars(e.ts.as_str());
            let after = chars_lt(&key_ts, &ets) || (chars_eq(&key_ts, &ets) && key_id < e.id);
            if e.account_id == a as i64 + 1 && !after {
                sum = sum + e.amount as i128;
            }
            j = j + 1;
        }
        assert(v.entries.take(v.entries.len() as int) =~= v.entries);
        sum
    }

    /// Number of entries of account `a` and their latest `ts`.
    fn entry_stats(&self, a: usize) -> (r: (i64, Option<String>))
        requires
            self.wf(),
            a < self@.accounts.len(),
        ensures
            r.0 == entry_count(self@.entries, a + 1),
            ostr(r.1) == latest_ts(self@.entries, a + 1),
    {
        let ghost v = self@;
        let mut count: i64 = 0;
        let mut last: Option<String> = None;
        let mut j: usize = 0;
        while j < self.entries.len()
            invariant
                self.wf(),
                self@ == v,
                a < v.accounts.len(),
                j <= self.entries.len(),
                count == entry_count(v.entries.take(j as int), a + 1),
                0 <= count <= j,
                ostr(last) == latest_ts(v.entries.take(j as int), a + 1),
            decreases self.entries.len() - j,
        {
            let e = &self.entries[j];
            proof {
                assert(v.entries[j as int] == e.view());
                assert(v.entries.take(j + 1).drop_last() =~= v.entries.take(j as int));
                assert(v.entries.take(j + 1).last() == e.view());
            }
            if e.account_id == a as i64 + 1 {
                count = count + 1;
                let later = match &last {
                    None => true,
                    Some(p) => crate::text::str_lt(p.as_str(), e.ts.as_str()),
                };
                if later {
                    last = Some(copy_str(e.ts.as_str()));
                }
            }
            j = j + 1;
        }
        assert(v.entries.take(v.entries.len() as int) =~= v.entries);
        (count, last)
    }

    /// The latest snapshot time of account `a`.
    fn snapshot_latest(&self, a: usize) -> (r: Option<String>)
        requires
            self.wf(),
            a < self@.accounts.len(),
        ensures
            ostr(r) == latest_snapshot_ts(self@.snapshots, a + 1),
    {
        let ghost v = self@;
        let mut snap: Option<String> = None;
        let mut j: usize = 0;
        while j < self.snapshots.len()
            invariant
                self.wf(),
                self@ == v,
                a < v.accounts.len(),
                j <= self.snapshots.len(),
                ostr(snap) == latest_snapshot_ts(v.snapshots.take(j as int), a + 1),
            decreases self.snapshots.len() - j,
        {
            let s = &self.snapshots[j];
            proof {
                assert(v.snapshots[j as int] == s.view());
                assert(v.snapshots.take(j + 1).drop_last() =~= v.snapshots.take(j as int));
                assert(v.snapshots.take(j + 1).last() == s.view());
            }
            if s.account_id == a as i64 + 1 {
                let later = match &snap {
                    None => true,
                    Some(p) => crate::text::str_lt(p.as_str(), s.ts.as_str()),
                };
                if later {
                    snap = Some(copy_str(s.ts.as_str()));
                }
            }
            j = j + 1;
        }
        assert(v.snapshots.take(v.snapshots.len() as int) =~= v.snapshots);
        snap
    }

    /// Every account with its balance, entry count, latest movement and
    /// latest reconciliation, in list order.
    pub fn balances(&self) -> (r: Result<Vec<AccountBalance>, LedgerError>)
        requires
            self.wf(),
        ensures
            balances_post(self@, r),
    {
        let ghost v = self@;
        let order = self.account_order();
        let mut list: Vec<AccountBalance> = Vec::new();
        let mut k: usize = 0;
        while k < order.len()
            invariant
                self.wf(),
                self@ == v,
                k <= order@.len(),
                order@.len() == v.accounts.len(),
                forall|j: int| 0 <= j < order@.len() ==> (#[trigger] order@[j]) < v.accounts.len(),
                forall|j: int| 0 <= j < v.accounts.len() ==> #[trigger] order@.contains(j as usize),
                forall|j: int, l: int|
                    0 <= j < l < order@.len() ==> key_lt(
                        account_key(v.accounts[order@[j] as int]),
                        account_key(v.accounts[order@[l] as int]),
                    ),
                list@.len() == k,
                forall|j: int| 0 <= j < k ==> balance_row_is(#[trigger] list@[j], v, order@[j] as int),
                forall|j: int| 0 <= j < k ==> fits_i64(book_sum(v.entries, #[trigger] order@[j] + 1, None)),
            decreases order@.len() - k,
        {
            let a = order[k];
            assert(v.accounts[a as int] == self.accounts@[a as int].view());
            let acc = &self.accounts[a];
            let b = match self.balance_minor(a, None) {
                Ok(b) => b,
                Err(e) => {
                    assert(!fits_i64(book_sum(v.entries, a + 1, None)));
                    return Err(e);
                },
            };
            let (count, last) = self.entry_stats(a);
            let snap = self.snapshot_latest(a);
            list.push(
                AccountBalance {
                    account: copy_str(acc.name.as_str()),
                    currency: copy_str(acc.currency.as_str()),
                    balance: format_amount(b, acc.decimals),
                    entries: count,
                    last_ts: last,
                    last_reconciled_at: snap,
                },
            );
            k = k + 1;
        }
        proof {
            let p = usizes_of(order@);
            assert(p.len() == v.accounts.len());
            assert forall|k: int| 0 <= k < p.len() implies 0 <= #[trigger] p[k] < v.accounts.len()
                && balance_row_is(list@[k], v, p[k]) by {
                assert(p[k] == order@[k] as int);
            }
            assert forall|k: int, l: int| 0 <= k < l < p.len() implies key_lt(
                account_key(v.accounts[p[k]]),
                account_key(v.accounts[p[l]]),
            ) by {
                assert(p[k] == order@[k] as int);
                assert(p[l] == order@[l] as int);
            }
            assert(balances_listed(v, list@, p));
            assert forall|i: int| 0 <= i < v.accounts.len() implies fits_i64(
                #[trigger] book_sum(v.entries, i + 1, None),
            ) by {
                assert(order@.contains(i as usize));
                let k = choose|k: int| 0 <= k < order@.len() && order@[k] == i as usize;
                assert(fits_i64(book_sum(v.entries, order@[k] + 1, None)));
            }
            assert(exists|p: Seq<int>| #[trigger] balances_listed(v, list@, p));
            assert(!exists|i: int| 0 <= i < v.accounts.len() && !fits_i64(#[trigger] book_sum(v.entries, i + 1, None)));
        }
        let r: Result<Vec<AccountBalance>, LedgerError> = Ok(list);
        assert(r matches Ok(l) && l@ == list@);
        assert(balances_post(v, r));
        r
    }

    /// The balance of one account, as of `at` when given.
    pub fn balance(&self, account: &str, at: Option<&str>) -> (r: Result<BalanceAt, LedgerError>)
        requires
            self.wf(),
        ensures
            balance_post(self@, account@, super::oref(at), r),
    {
        let a = match self.account_by_name(account) {
            Ok(a) => a,
            Err(e) => return Err(e),
        };
        let at = match normalize_opt_ts(at) {
            Ok(x) => x,
            Err(e) => return Err(e),
        };
        let acc = &self.accounts[a];
        assert(self@.accounts[a as int] == acc.view());
        let minor = match self.balance_minor(a, opt_str(&at)) {
            Ok(m) => m,
            Err(e) => return Err(e),
        };
        Ok(
            BalanceAt {
                account: copy_str(acc.name.as_str()),
                currency: copy_str(acc.currency.as_str()),
                balance: format_amount(minor, acc.decimals),
                at,
            },
        )
    }
}


/// A `HistoryFilter` by its values.
pub struct HistoryFilterV {
    pub since: Option<Seq<char>>,
    pub until: Option<Seq<char>>,
    pub kind: Option<Kind>,
    pub group: Option<Seq<char>>,
    pub limit: nat,
}

impl HistoryFilter {
    pub open spec fn view(&self) -> HistoryFilterV {
        HistoryFilterV {
            since: ostr(self.since),
            until: ostr(self.until),
            kind: self.kind,
            group: ostr(self.group),
            limit: self.limit as nat,
        }
    }
}

/// An optional timestamp normalized, or the error for one that does not.
pub open spec fn opt_ts_spec(t: Option<Seq<char>>) -> Result<Option<Seq<char>>, ErrorV> {
    match t {
        None => Ok(None),
        Some(x) => match normalize_spec(x) {
            Some(s) => Ok(Some(s)),
            None => Err(ErrorV::InvalidTimestamp(trim(x))),
        },
    }
}

/// The entries `history` selects: the account's, within `[since, until]` by
/// movement time, of the kind and group asked for.
pub open spec fn history_selects(
    v: LedgerV,
    acc_id: int,
    since: Option<Seq<char>>,
    until: Option<Seq<char>>,
    kind: Option<Kind>,
    group: Option<Seq<char>>,
) -> spec_fn(int) -> bool {
    |i: int|
        {
            let e = v.entries[i];
            &&& e.account_id == acc_id
            &&& (since matches Some(s) ==> seq_le(s, e.ts))
            &&& (until matches Some(u) ==> seq_le(e.ts, u))
            &&& (kind matches Some(k) ==> e.kind == k)
            &&& (group matches Some(g) ==> e.group_id == Some(g))
        }
}

/// The filter's parts checked in order: account, since, until, group.
pub open spec fn history_args(v: LedgerV, name: Seq<char>, f: HistoryFilterV) -> Result<
    (int, Option<Seq<char>>, Option<Seq<char>>, Option<Seq<char>>),
    ErrorV,
> {
    match account_lookup(v, name) {
        Err(e) => Err(e),
        Ok(a) => match opt_ts_spec(f.since) {
            Err(e) => Err(e),
            Ok(since) => match opt_ts_spec(f.until) {
                Err(e) => Err(e),
                Ok(until) => match group_spec(f.group) {
                    Err(e) => Err(e),
                    Ok(g) => Ok((a, since, until, g)),
                },
            },
        },
    }
}

/// The entry indices a list of history rows shows.
pub open spec fn history_ids(s: Seq<HistoryEntry>) -> Seq<int> {
    s.map_values(|h: HistoryEntry| h.entry.id - 1)
}

/// What `history` returns: the selected entries of the account, the last
/// `limit` of them in `(ts, id)` order, each with the true balance after it;
/// or the overflow error when some running balance of the account leaves `i64`.
pub open spec fn history_post(
    v: LedgerV,
    name: Seq<char>,
    f: HistoryFilterV,
    r: Result<History, LedgerError>,
) -> bool {
    match history_args(v, name, f) {
        Err(e) => r matches Err(x) && x.view() == e,
        Ok((a, since, until, g)) => {
            let acc = v.accounts[a];
            if !running_ok(v, a + 1) {
                r matches Err(x) && x.view() == overflow_error()
            } else {
                r matches Ok(h) && {
                    &&& h.account@ == acc.name
                    &&& h.currency@ == acc.currency
                    &&& sorted_tail_of(
                        |i: int| entry_key(v, i),
                        history_selects(v, a + 1, since, until, f.kind, g),
                        v.entries.len() as int,
                        f.limit as int,
                        history_ids(h.entries@),
                    )
                    &&& forall|k: int|
                        0 <= k < h.entries@.len() ==> {
                            let x = #[trigger] h.entries@[k];
                            &&& entry_is(x.entry, v, x.entry.id - 1)
                            &&& x.balance_after@ == amount_text(
                                running_sum(v.entries, a + 1, entry_key(v, x.entry.id - 1)),
                                acc.decimals,
                            )
                        }
                }
            }
        },
    }
}

impl Ledger {
    /// Whether every running balance of account `a` fits in `i64`.
    fn running_fits(&self, a: usize) -> (r: bool)
        requires
            self.wf(),
            a < self@.accounts.len(),
        ensures
            r == running_ok(self@, a + 1),
    {
        let ghost v = self@;
        let mut i: usize = 0;
        while i < self.entries.len()
            invariant
                self.wf(),
                self@ == v,
                a < v.accounts.len(),
                i <= self.entries.len(),
                forall|j: int|
                    0 <= j < i && v.entries[j].account_id == a + 1 ==> fits_i64(
                        #[trigger] running_sum(v.entries, a + 1, entry_key(v, j)),
                    ),
            decreases self.entries.len() - i,
        {
            assert(v.entries[i as int] == self.entries@[i as int].view());
            if self.entries[i].account_id == a as i64 + 1 {
                let s = self.running_sum_at(a, i);
                if s < i64::MIN as i128 || s > i64::MAX as i128 {
                    assert(!fits_i64(running_sum(v.entries, a + 1, entry_key(v, i as int))));
                    return false;
                }
            }
            i = i + 1;
        }
        true
    }

    /// Entries of one account with the running balance after each, oldest
    /// first; the running balance counts every entry of the account, not
    /// just those the filter keeps.
    pub fn history(&self, account: &str, filter: &HistoryFilter) -> (r: Result<History, LedgerError>)
        requires
            self.wf(),
        ensures
            history_post(self@, account@, filter.view(), r),
    {
        let ghost v = self@;
        let a = match self.account_by_name(account) {
            Ok(a) => a,
            Err(e) => return Err(e),
        };
        let since = match normalize_opt_ts(opt_str(&filter.since)) {
            Ok(x) => x,
            Err(e) => return Err(e),
        };
        let until = match normalize_opt_ts(opt_str(&filter.until)) {
            Ok(x) => x,
            Err(e) => return Err(e),
        };
        let group = match validate_group(opt_str(&filter.group)) {
            Ok(g) => g,
            Err(e) => return Err(e),
        };
        assert(history_args(v, account@, filter.view()) == Ok::<
            (int, Option<Seq<char>>, Option<Seq<char>>, Option<Seq<char>>),
            ErrorV,
        >((a as int, ostr(since), ostr(until), ostr(group))));
        if !self.running_fits(a) {
            return Err(LedgerError::Db(copy_str("integer overflow")));
        }
        let ghost sel_fn = history_selects(v, a + 1, ostr(since), ostr(until), filter.kind, ostr(group));
        let mut sel: Vec<usize> = Vec::new();
        let mut i: usize = 0;
        while i < self.entries.len()
            invariant
                self.wf(),
                self@ == v,
                a < v.accounts.len(),
                i <= self.entries.len(),
                sel_fn == history_selects(v, a + 1, ostr(since), ostr(until), filter.kind, ostr(group)),
                forall|j: int| 0 <= j < sel@.len() ==> #[trigger] sel@[j] < i && sel_fn(sel@[j] as int),
                forall|j: int, k: int| 0 <= j < k < sel@.len() ==> sel@[j] < sel@[k],
                forall|j: int| 0 <= j < i && sel_fn(j) ==> #[trigger] sel@.contains(j as usize),
            decreases self.entries.len() - i,
        {
            let e = &self.entries[i];
            assert(v.entries[i as int] == e.view());
            let keep = e.account_id == a as i64 + 1 && match &since {
                Some(s) => str_le(s.as_str(), e.ts.as_str()),
                None => true,
            } && match &until {
                Some(u) => str_le(e.ts.as_str(), u.as_str()),
                None => true,
            } && match filter.kind {
                Some(k) => e.kind == k,
                None => true,
            } && match &group {
                Some(g) => match &e.group_id {
                    Some(x) => str_eq(x.as_str(), g.as_str()),
                    None => false,
                },
                None => true,
            };
            assert(keep == sel_fn(i as int));
            let ghost before = sel@;
            if keep {
                sel.push(i);
                assert(sel@[sel@.len() - 1] == i);
            }
            assert forall|j: int| 0 <= j < i + 1 && sel_fn(j) implies #[trigger] sel@.contains(
                j as usize,
            ) by {
                if j < i {
                    assert(before.contains(j as usize));
                    let m = choose|m: int| 0 <= m < before.len() && before[m] == j as usize;
                    assert(sel@[m] == j as usize);
                }
            }
            i = i + 1;
        }
        let order = self.sort_entry_tail(&sel, filter.limit);
        let ghost l = usizes_of(order@);
        proof {
            assert forall|m: int| 0 <= m < order@.len() implies sel_fn(#[trigger] order@[m] as int) by {
                assert(sel@.contains(order@[m]));
                let j = choose|j: int| 0 <= j < sel@.len() && sel@[j] == order@[m];
                assert(sel_fn(sel@[j] as int));
            }
            let n = v.entries.len() as int;
            assert forall|k: int| 0 <= k < l.len() implies 0 <= #[trigger] l[k] < n && sel_fn(l[k]) by {
                assert(l[k] == order@[k] as int);
            }
            assert forall|k: int, m: int| 0 <= k < m < l.len() implies key_lt(
                entry_key(v, l[k]),
                entry_key(v, l[m]),
            ) by {
                assert(l[k] == order@[k] as int);
                assert(l[m] == order@[m] as int);
            }
            assert forall|i: int| 0 <= i < n && sel_fn(i) && !#[trigger] l.contains(i) implies l.len()
                > 0 && key_lt(entry_key(v, i), entry_key(v, l[0])) by {
                assert(sel@.contains(i as usize));
                if order@.contains(i as usize) {
                    let q = choose|q: int| 0 <= q < order@.len() && order@[q] == i as usize;
                    assert(l[q] == i);
                }
                assert(l[0] == order@[0] as int);
            }
            assert forall|i: int| 0 <= i < n && sel_fn(i) && (filter.limit == 0 || order@.len() < filter.limit) implies #[trigger] l.contains(i) by {
                assert(sel@.contains(i as usize));
                assert(order@.contains(i as usize));
                let q = choose|q: int| 0 <= q < order@.len() && order@[q] == i as usize;
                assert(l[q] == i);
            }
            assert(sorted_tail_of(
                |i: int| entry_key(v, i),
                sel_fn,
                n,
                filter.limit as int,
                l,
            ));
        }
        let acc = &self.accounts[a];
        assert(v.accounts[a as int] == acc.view());
        let mut rows: Vec<HistoryEntry> = Vec::new();
        let mut k: usize = 0;
        while k < order.len()
            invariant
                self.wf(),
                self@ == v,
                a < v.accounts.len(),
                acc.view() == v.accounts[a as int],
                k <= order@.len(),
                forall|m: int| 0 <= m < order@.len() ==> (#[trigger] order@[m]) < v.entries.len(),
                rows@.len() == k,
                forall|m: int|
                    0 <= m < k ==> {
                        let x = #[trigger] rows@[m];
                        &&& x.entry.id - 1 == order@[m]
                        &&& entry_is(x.entry, v, x.entry.id - 1)
                        &&& x.balance_after@ == amount_text(
                            running_sum(v.entries, a + 1, entry_key(v, x.entry.id - 1)),
                            acc.decimals as nat,
                        )
                    },
                running_ok(v, a + 1),
                forall|m: int| 0 <= m < order@.len() ==> sel_fn(#[trigger] order@[m] as int),
                sel_fn == history_selects(v, a + 1, ostr(since), ostr(until), filter.kind, ostr(group)),
            decreases order@.len() - k,
        {
            let idx = order[k];
            let entry = self.load_entry(idx);
            let s = self.running_sum_at(a, idx);
            assert(fits_i64(running_sum(v.entries, a + 1, entry_key(v, idx as int))));
            let balance_after = format_amount(s as i64, acc.decimals);
            rows.push(HistoryEntry { entry, balance_after });
            k = k + 1;
        }
        proof {
            assert(history_ids(rows@) =~= l);
        }
        Ok(
            History {
                account: copy_str(acc.name.as_str()),
                currency: copy_str(acc.currency.as_str()),
                entries: rows,
            },
        )
    }

    /// Every entry of one account with the running balance after each.
    pub fn export(&self, account: &str) -> (r: Result<History, LedgerError>)
        requires
            self.wf(),
        ensures
            history_post(
                self@,
                account@,
                HistoryFilterV { since: None, until: None, kind: None, group: None, limit: 0 },
                r,
            ),
    {
        let filter = HistoryFilter { since: None, until: None, kind: None, group: None, limit: 0 };
        assert(filter.view() == HistoryFilterV {
            since: None,
            until: None,
            kind: None,
            group: None,
            limit: 0,
        });
        self.history(account, &filter)
    }
}


/// The entries of group `g`.
pub open spec fn in_group(v: LedgerV, g: Seq<char>) -> spec_fn(int) -> bool {
    |i: int| v.entries[i].group_id == Some(g)
}

/// The currency of the account of entry `i`.
pub open spec fn currency_of(v: LedgerV, i: int) -> Seq<char> {
    v.accounts[v.entries[i].account_id - 1].currency
}

/// The decimals of the account of entry `i`.
pub open spec fn decimals_of(v: LedgerV, i: int) -> nat {
    v.accounts[v.entries[i].account_id - 1].decimals
}

/// The most decimals among the entries of group `g` in currency `c` below `k`.
pub open spec fn net_decimals(v: LedgerV, g: Seq<char>, c: Seq<char>, k: int) -> nat
    decreases k,
{
    if k <= 0 {
        0
    } else {
        let d = net_decimals(v, g, c, k - 1);
        if v.entries[k - 1].group_id == Some(g) && currency_of(v, k - 1) == c && decimals_of(
            v,
            k - 1,
        ) > d {
            decimals_of(v, k - 1)
        } else {
            d
        }
    }
}

/// The entries of group `g` in currency `c` below `k`, summed at `d`
/// decimals; `abs` sums magnitudes instead.
pub open spec fn net_sum(v: LedgerV, g: Seq<char>, c: Seq<char>, d: nat, k: int, abs: bool) -> int
    decreases k,
{
    if k <= 0 {
        0
    } else {
        let e = v.entries[k - 1];
        let x = if abs && e.amount < 0 {
            -e.amount
        } else {
            e.amount
        };
        net_sum(v, g, c, d, k - 1, abs) + if e.group_id == Some(g) && currency_of(v, k - 1) == c {
            x * pow10((d - decimals_of(v, k - 1)) as nat)
        } else {
            0
        }
    }
}

/// The net of group `g` in currency `c`: its entries in that currency summed
/// at the most decimals any of them has.
pub open spec fn group_net(v: LedgerV, g: Seq<char>, c: Seq<char>) -> int {
    net_sum(v, g, c, net_decimals(v, g, c, v.entries.len() as int), v.entries.len() as int, false)
}

/// Every per-currency net of group `g` can be summed in `i128`: the sum of
/// magnitudes fits.
pub open spec fn group_fits(v: LedgerV, g: Seq<char>) -> bool {
    forall|i: int|
        0 <= i < v.entries.len() && v.entries[i].group_id == Some(g) ==> #[trigger] net_sum(
            v,
            g,
            currency_of(v, i),
            net_decimals(v, g, currency_of(v, i), v.entries.len() as int),
            v.entries.len() as int,
            true,
        ) <= i128::MAX
}

/// `net` names currency `c`.
pub open spec fn net_has(net: Seq<(String, String)>, c: Seq<char>) -> bool {
    exists|k: int| 0 <= k < net.len() && (#[trigger] net[k]).0@ == c
}

/// Some entry of group `g` is in currency `c`.
pub open spec fn group_has(v: LedgerV, g: Seq<char>, c: Seq<char>) -> bool {
    exists|i: int|
        0 <= i < v.entries.len() && v.entries[i].group_id == Some(g) && #[trigger] currency_of(v, i)
            == c
}

/// `net` is the per-currency net of group `g`: one row per currency of its
/// entries, currencies in increasing order.
pub open spec fn net_is(v: LedgerV, g: Seq<char>, net: Seq<(String, String)>) -> bool {
    &&& forall|k: int, l: int| 0 <= k < l < net.len() ==> seq_lt(net[k].0@, net[l].0@)
    &&& forall|k: int| 0 <= k < net.len() ==> group_has(v, g, (#[trigger] net[k]).0@)
    &&& forall|k: int|
        0 <= k < net.len() ==> (#[trigger] net[k]).1@ == amount_text(
            group_net(v, g, net[k].0@),
            net_decimals(v, g, net[k].0@, v.entries.len() as int),
        )
    &&& forall|i: int|
        0 <= i < v.entries.len() && v.entries[i].group_id == Some(g) ==> net_has(
            net,
            #[trigger] currency_of(v, i),
        )
}

/// The entry indices a list of entries shows.
pub open spec fn entry_ids(s: Seq<Entry>) -> Seq<int> {
    s.map_values(|e: Entry| e.id - 1)
}

/// What `group` returns: every entry of the group in `(ts, id)` order with
/// its net per currency; `GroupNotFound` when it has none.
pub open spec fn group_post(v: LedgerV, id: Seq<char>, r: Result<GroupView, LedgerError>) -> bool {
    match group_spec(Some(id)) {
        Err(e) => r matches Err(x) && x.view() == e,
        Ok(g) => {
            let gg = g->0;
            if !exists|i: int| 0 <= i < v.entries.len() && #[trigger] v.entries[i].group_id == Some(gg) {
                r matches Err(x) && x.view() == ErrorV::GroupNotFound(gg)
            } else {
                r matches Ok(gv) && {
                    &&& gv.group@ == gg
                    &&& sorted_tail_of(
                        |i: int| entry_key(v, i),
                        in_group(v, gg),
                        v.entries.len() as int,
                        0,
                        entry_ids(gv.entries@),
                    )
                    &&& forall|k: int|
                        0 <= k < gv.entries@.len() ==> entry_is(
                            #[trigger] gv.entries@[k],
                            v,
                            gv.entries@[k].id - 1,
                        )
                    &&& net_is(v, gg, gv.net@)
                }
            }
        },
    }
}

/// `curs` holds currency `c`.
pub open spec fn has_cur(curs: Seq<Vec<char>>, c: Seq<char>) -> bool {
    crate::sort::has_text(curs, c)
}

/// Some entry at `sel` is in currency `c`.
pub open spec fn sel_has_currency(v: LedgerV, sel: Seq<usize>, c: Seq<char>) -> bool {
    exists|j: int| 0 <= j < sel.len() && #[trigger] currency_of(v, sel[j] as int) == c
}

/// Every currency in `curs` is that of some entry at `sel`.
pub open spec fn curs_from(v: LedgerV, sel: Seq<usize>, curs: Seq<Vec<char>>) -> bool {
    forall|m: int| 0 <= m < curs.len() ==> sel_has_currency(v, sel, (#[trigger] curs[m])@)
}

/// The currency of every entry at `sel` is in `curs`.
pub open spec fn curs_cover(v: LedgerV, sel: Seq<usize>, curs: Seq<Vec<char>>) -> bool {
    forall|j: int| 0 <= j < sel.len() ==> has_cur(curs, currency_of(v, #[trigger] sel[j] as int))
}

impl Ledger {
    /// The distinct currencies of the entries at `sel`, in increasing order.
    fn currencies_of(&self, sel: &Vec<usize>) -> (r: Vec<Vec<char>>)
        requires
            self.wf(),
            forall|j: int| 0 <= j < sel@.len() ==> #[trigger] sel@[j] < self@.entries.len(),
            forall|j: int, k: int| 0 <= j < k < sel@.len() ==> sel@[j] < sel@[k],
        ensures
            forall|k: int, l: int| 0 <= k < l < r@.len() ==> seq_lt(r@[k]@, r@[l]@),
            curs_from(self@, sel@, r@),
            curs_cover(self@, sel@, r@),
    {
        let ghost v = self@;
        let mut keys: Vec<(Vec<char>, i64)> = Vec::new();
        let mut j: usize = 0;
        while j < sel.len()
            invariant
                self.wf(),
                self@ == v,
                j <= sel@.len(),
                keys@.len() == j,
                forall|m: int| 0 <= m < sel@.len() ==> #[trigger] sel@[m] < v.entries.len(),
                forall|m: int|
                    0 <= m < j ==> key_at(keys@, m) == (currency_of(v, #[trigger] sel@[m] as int), sel@[m] + 1),
            decreases sel@.len() - j,
        {
            let e = &self.entries[sel[j]];
            assert(v.entries[sel@[j as int] as int] == e.view());
            let acc = &self.accounts[(e.account_id - 1) as usize];
            assert(v.accounts[e.account_id - 1] == acc.view());
            keys.push((to_chars(acc.currency.as_str()), (sel[j] + 1) as i64));
            j = j + 1;
        }
        proof {
            assert forall|x: int, y: int|
                0 <= x < keys@.len() && 0 <= y < keys@.len() && x != y implies keys@[x].1
                != keys@[y].1 by {
                assert(key_at(keys@, x).1 == sel@[x] + 1);
                assert(key_at(keys@, y).1 == sel@[y] + 1);
                if x < y {
                    assert(sel@[x] < sel@[y]);
                } else {
                    assert(sel@[y] < sel@[x]);
                }
            }
        }
        let curs = crate::sort::distinct_texts(&keys);
        proof {
            assert forall|m: int| 0 <= m < curs@.len() implies sel_has_currency(v, sel@, (#[trigger] curs@[m])@) by {
                assert(crate::sort::text_from_keys(keys@, curs@[m]@));
                let j = choose|j: int| 0 <= j < keys@.len() && (#[trigger] keys@[j]).0@ == curs@[m]@;
                assert(key_at(keys@, j).0 == currency_of(v, sel@[j] as int));
                assert(currency_of(v, sel@[j] as int) == curs@[m]@);
            }
            assert forall|j: int| 0 <= j < sel@.len() implies has_cur(curs@, currency_of(v, #[trigger] sel@[j] as int)) by {
                assert(crate::sort::has_text(curs@, keys@[j].0@));
                assert(key_at(keys@, j).0 == currency_of(v, sel@[j] as int));
            }
            assert(curs_from(v, sel@, curs@));
            assert(curs_cover(v, sel@, curs@));
        }
        curs
    }
}


proof fn lemma_net_decimals(v: LedgerV, g: Seq<char>, c: Seq<char>, k: int)
    requires
        super::ledger_wf(v),
        k <= v.entries.len(),
    ensures
        net_decimals(v, g, c, k) <= 18,
        forall|i: int|
            0 <= i < k && v.entries[i].group_id == Some(g) && currency_of(v, i) == c ==> decimals_of(
                v,
                i,
            ) <= #[trigger] net_decimals(v, g, c, k),
    decreases k,
{
    if k > 0 {
        lemma_net_decimals(v, g, c, k - 1);
        assert(v.accounts[v.entries[k - 1].account_id - 1].decimals <= 18);
    }
}

proof fn lemma_net_sum_bounds(v: LedgerV, g: Seq<char>, c: Seq<char>, d: nat, k: int)
    ensures
        0 <= net_sum(v, g, c, d, k, true),
        -net_sum(v, g, c, d, k, true) <= net_sum(v, g, c, d, k, false) <= net_sum(v, g, c, d, k, true),
        k > 0 ==> net_sum(v, g, c, d, k - 1, true) <= net_sum(v, g, c, d, k, true),
    decreases k,
{
    if k > 0 {
        lemma_net_sum_bounds(v, g, c, d, k - 1);
        let e = v.entries[k - 1];
        let p = pow10((d - decimals_of(v, k - 1)) as nat);
        crate::money::lemma_pow10_positive((d - decimals_of(v, k - 1)) as nat);
        let x = if e.amount < 0 {
            -e.amount
        } else {
            e.amount
        };
        assert(x * p >= 0) by (nonlinear_arith)
            requires
                x >= 0,
                p >= 1,
        ;
        assert(-(x * p) <= e.amount * p <= x * p) by (nonlinear_arith)
            requires
                x >= 0,
                p >= 1,
                x == e.amount || x == -e.amount,
        ;
    }
}

impl Ledger {
    /// The most decimals, and the sum at that many decimals (of magnitudes
    /// when `abs`), of the entries of group `g` in currency `c`; `None` when
    /// the sum of magnitudes leaves `i128`.
    fn currency_net(&self, g: &str, c: &Vec<char>, abs: bool) -> (r: Option<(u32, i128)>)
        requires
            self.wf(),
        ensures
            match r {
                Some((d, x)) => d == net_decimals(self@, g@, c@, self@.entries.len() as int)
                    && x == net_sum(self@, g@, c@, d as nat, self@.entries.len() as int, abs),
                None => net_sum(
                    self@,
                    g@,
                    c@,
                    net_decimals(self@, g@, c@, self@.entries.len() as int),
                    self@.entries.len() as int,
                    true,
                ) > i128::MAX,
            },
            r matches Some((d, _)) ==> d <= 18,
    {
        let ghost v = self@;
        let n = self.entries.len();
        let mut d: u32 = 0;
        let mut i: usize = 0;
        while i < n
            invariant
                self.wf(),
                self@ == v,
                n == v.entries.len(),
                i <= n,
                d == net_decimals(v, g@, c@, i as int),
            decreases n - i,
        {
            let e = &self.entries[i];
            assert(v.entries[i as int] == e.view());
            let acc = &self.accounts[(e.account_id - 1) as usize];
            assert(v.accounts[e.account_id - 1] == acc.view());
            let in_g = match &e.group_id {
                Some(x) => str_eq(x.as_str(), g),
                None => false,
            };
            if in_g && chars_eq(&to_chars(acc.currency.as_str()), c) && acc.decimals > d {
                d = acc.decimals;
            }
            i = i + 1;
        }
        proof {
            lemma_net_decimals(v, g@, c@, n as int);
            crate::money::lemma_pow10_38();
        }
        let mut sum: i128 = 0;
        let mut i: usize = 0;
        while i < n
            invariant
                self.wf(),
                self@ == v,
                n == v.entries.len(),
                i <= n,
                d == net_decimals(v, g@, c@, n as int),
                d <= 18,
                forall|j: int|
                    0 <= j < n && v.entries[j].group_id == Some(g@) && currency_of(v, j) == c@
                        ==> decimals_of(v, j) <= #[trigger] net_decimals(v, g@, c@, n as int),
                sum == net_sum(v, g@, c@, d as nat, i as int, abs),
            decreases n - i,
        {
            let e = &self.entries[i];
            assert(v.entries[i as int] == e.view());
            let acc = &self.accounts[(e.account_id - 1) as usize];
            assert(v.accounts[e.account_id - 1] == acc.view());
            let in_g = match &e.group_id {
                Some(x) => str_eq(x.as_str(), g),
                None => false,
            };
            if in_g && chars_eq(&to_chars(acc.currency.as_str()), c) {
                assert(v.entries[i as int].group_id == Some(g@));
                assert(currency_of(v, i as int) == c@);
                assert(decimals_of(v, i as int) <= net_decimals(v, g@, c@, n as int));
                let p = crate::money::pow10_u128(d - acc.decimals);
                proof {
                    crate::money::lemma_pow10_monotone((d - acc.decimals) as nat, 18);
                    crate::money::lemma_pow10_38();
                }
                let x: i128 = if abs && e.amount < 0 {
                    -(e.amount as i128)
                } else {
                    e.amount as i128
                };
                assert(-0x8000_0000_0000_0000 <= x <= 0x8000_0000_0000_0000);
                assert(x * (p as int) <= 0x8000_0000_0000_0000 * 1000000000000000000) by (nonlinear_arith)
                    requires
                        -0x8000_0000_0000_0000 <= x <= 0x8000_0000_0000_0000,
                        0 <= p <= 1000000000000000000,
                ;
                assert(x * (p as int) >= -0x8000_0000_0000_0000 * 1000000000000000000) by (nonlinear_arith)
                    requires
                        -0x8000_0000_0000_0000 <= x <= 0x8000_0000_0000_0000,
                        0 <= p <= 1000000000000000000,
                ;
                let term = x * (p as i128);
                proof {
                    lemma_net_sum_bounds(v, g@, c@, d as nat, i + 1);
                }
                match sum.checked_add(term) {
                    Some(t) => {
                        sum = t;
                    },
                    None => {
                        proof {
                            lemma_net_sum_bounds(v, g@, c@, d as nat, n as int);
                            lemma_net_sum_prefix(v, g@, c@, d as nat, i + 1, n as int);
                        }
                        return None;
                    },
                }
            }
            i = i + 1;
        }
        Some((d, sum))
    }
}

proof fn lemma_net_sum_prefix(v: LedgerV, g: Seq<char>, c: Seq<char>, d: nat, k: int, n: int)
    requires
        k <= n,
    ensures
        net_sum(v, g, c, d, k, true) <= net_sum(v, g, c, d, n, true),
    decreases n - k,
{
    if k < n {
        lemma_net_sum_prefix(v, g, c, d, k, n - 1);
        lemma_net_sum_bounds(v, g, c, d, n);
    }
}


/// What `sort_entry_tail` returns, read as `sorted_tail_of` over a predicate
/// that `sel` lists exactly.
proof fn lemma_tail_of(
    v: LedgerV,
    sel: Seq<usize>,
    order: Seq<usize>,
    pred: spec_fn(int) -> bool,
    limit: int,
)
    requires
        super::ledger_wf(v),
        limit >= 0,
        forall|j: int| 0 <= j < sel.len() ==> #[trigger] sel[j] < v.entries.len() && pred(sel[j] as int),
        forall|i: int| 0 <= i < v.entries.len() && pred(i) ==> #[trigger] sel.contains(i as usize),
        forall|k: int|
            0 <= k < order.len() ==> (#[trigger] order[k]) < v.entries.len() && sel.contains(order[k]),
        forall|k: int, l: int|
            0 <= k < l < order.len() ==> key_lt(entry_key(v, order[k] as int), entry_key(v, order[l] as int)),
        forall|x: usize|
            #[trigger] sel.contains(x) && !order.contains(x) ==> order.len() > 0 && key_lt(
                entry_key(v, x as int),
                entry_key(v, order[0] as int),
            ),
        limit == 0 ==> forall|x: usize| #[trigger] sel.contains(x) ==> order.contains(x),
        limit > 0 ==> order.len() <= limit && (order.len() == limit || forall|x: usize|
            #[trigger] sel.contains(x) ==> order.contains(x)),
    ensures
        sorted_tail_of(|i: int| entry_key(v, i), pred, v.entries.len() as int, limit, usizes_of(order)),
{
    let l = usizes_of(order);
    let n = v.entries.len() as int;
    assert forall|k: int| 0 <= k < l.len() implies 0 <= #[trigger] l[k] < n && pred(l[k]) by {
        assert(l[k] == order[k] as int);
        assert(sel.contains(order[k]));
        let j = choose|j: int| 0 <= j < sel.len() && sel[j] == order[k];
        assert(pred(sel[j] as int));
    }
    assert forall|k: int, m: int| 0 <= k < m < l.len() implies key_lt(
        entry_key(v, l[k]),
        entry_key(v, l[m]),
    ) by {
        assert(l[k] == order[k] as int);
        assert(l[m] == order[m] as int);
    }
    assert forall|i: int| 0 <= i < n && pred(i) && !#[trigger] l.contains(i) implies l.len() > 0
        && key_lt(entry_key(v, i), entry_key(v, l[0])) by {
        assert(sel.contains(i as usize));
        if order.contains(i as usize) {
            let q = choose|q: int| 0 <= q < order.len() && order[q] == i as usize;
            assert(l[q] == i);
        }
        assert(l[0] == order[0] as int);
    }
    assert forall|i: int|
        0 <= i < n && pred(i) && (limit == 0 || order.len() < limit) implies #[trigger] l.contains(
        i,
    ) by {
        assert(sel.contains(i as usize));
        assert(order.contains(i as usize));
        let q = choose|q: int| 0 <= q < order.len() && order[q] == i as usize;
        assert(l[q] == i);
    }
}

impl Ledger {
    /// Indices of the entries of group `g`, in id order.
    fn group_indices(&self, g: &str) -> (sel: Vec<usize>)
        requires
            self.wf(),
        ensures
            forall|j: int|
                0 <= j < sel@.len() ==> #[trigger] sel@[j] < self@.entries.len() && in_group(self@, g@)(
                    sel@[j] as int,
                ),
            forall|j: int, k: int| 0 <= j < k < sel@.len() ==> sel@[j] < sel@[k],
            forall|i: int|
                0 <= i < self@.entries.len() && in_group(self@, g@)(i) ==> #[trigger] sel@.contains(
                    i as usize,
                ),
    {
        let ghost v = self@;
        let mut sel: Vec<usize> = Vec::new();
        let mut i: usize = 0;
        while i < self.entries.len()
            invariant
                self.wf(),
                self@ == v,
                i <= self.entries.len(),
                forall|j: int| 0 <= j < sel@.len() ==> #[trigger] sel@[j] < i && in_group(v, g@)(sel@[j] as int),
                forall|j: int, k: int| 0 <= j < k < sel@.len() ==> sel@[j] < sel@[k],
                forall|j: int| 0 <= j < i && in_group(v, g@)(j) ==> #[trigger] sel@.contains(j as usize),
            decreases self.entries.len() - i,
        {
            let e = &self.entries[i];
            assert(v.entries[i as int] == e.view());
            let keep = match &e.group_id {
                Some(x) => str_eq(x.as_str(), g),
                None => false,
            };
            let ghost before = sel@;
            if keep {
                sel.push(i);
                assert(sel@[sel@.len() - 1] == i);
            }
            assert forall|j: int| 0 <= j < i + 1 && in_group(v, g@)(j) implies #[trigger] sel@.contains(
                j as usize,
            ) by {
                if j < i {
                    assert(before.contains(j as usize));
                    let m = choose|m: int| 0 <= m < before.len() && before[m] == j as usize;
                    assert(sel@[m] == j as usize);
                }
            }
            i = i + 1;
        }
        sel
    }

    /// Whether the nets of group `id` (trimmed) can be summed in `i128`,
    /// which `group` requires.
    pub fn group_sums_fit(&self, id: &str) -> (r: bool)
        requires
            self.wf(),
        ensures
            r == group_fits(self@, trim(id@)),
    {
        let ghost v = self@;
        let g = crate::text::trim_str(id);
        let sel = self.group_indices(g.as_str());
        let curs = self.currencies_of(&sel);
        let mut k: usize = 0;
        while k < curs.len()
            invariant
                self.wf(),
                self@ == v,
                g@ == trim(id@),
                k <= curs@.len(),
                curs_from(v, sel@, curs@),
                forall|j: int|
                    0 <= j < sel@.len() ==> #[trigger] sel@[j] < v.entries.len() && in_group(v, g@)(
                        sel@[j] as int,
                    ),
                forall|i: int|
                    0 <= i < v.entries.len() && in_group(v, g@)(i) ==> #[trigger] sel@.contains(
                        i as usize,
                    ),
                curs_cover(v, sel@, curs@),
                forall|m: int|
                    0 <= m < k ==> net_sum(
                        v,
                        g@,
                        (#[trigger] curs@[m])@,
                        net_decimals(v, g@, curs@[m]@, v.entries.len() as int),
                        v.entries.len() as int,
                        true,
                    ) <= i128::MAX,
            decreases curs@.len() - k,
        {
            if self.currency_net(g.as_str(), &curs[k], true).is_none() {
                proof {
                    let c = curs@[k as int]@;
                    assert(sel_has_currency(v, sel@, c));
                    let j = choose|j: int|
                        0 <= j < sel@.len() && #[trigger] currency_of(v, sel@[j] as int) == c;
                    assert(in_group(v, g@)(sel@[j] as int));
                    assert(!group_fits(v, g@)) by {
                        let i = sel@[j] as int;
                        assert(v.entries[i].group_id == Some(g@));
                        assert(net_sum(
                            v,
                            g@,
                            currency_of(v, i),
                            net_decimals(v, g@, currency_of(v, i), v.entries.len() as int),
                            v.entries.len() as int,
                            true,
                        ) > i128::MAX);
                    }
                }
                return false;
            }
            k = k + 1;
        }
        proof {
            assert forall|i: int|
                0 <= i < v.entries.len() && v.entries[i].group_id == Some(g@) implies #[trigger] net_sum(
                v,
                g@,
                currency_of(v, i),
                net_decimals(v, g@, currency_of(v, i), v.entries.len() as int),
                v.entries.len() as int,
                true,
            ) <= i128::MAX by {
                assert(in_group(v, g@)(i));
                assert(sel@.contains(i as usize));
                let j = choose|j: int| 0 <= j < sel@.len() && sel@[j] == i as usize;
                assert(has_cur(curs@, currency_of(v, sel@[j] as int)));
                let m = choose|m: int| 0 <= m < curs@.len() && (#[trigger] curs@[m])@ == currency_of(v, i);
                assert(net_sum(
                    v,
                    g@,
                    curs@[m]@,
                    net_decimals(v, g@, curs@[m]@, v.entries.len() as int),
                    v.entries.len() as int,
                    true,
                ) <= i128::MAX);
            }
        }
        true
    }

    /// Every entry of a group across accounts, with the group's net per
    /// currency; nets are never summed across currencies.
    pub fn group(&self, id: &str) -> (r: Result<GroupView, LedgerError>)
        requires
            self.wf(),
            group_fits(self@, trim(id@)),
        ensures
            group_post(self@, id@, r),
    {
        let ghost v = self@;
        let g = match validate_group(Some(id)) {
            Ok(Some(g)) => g,
            Ok(None) => {
                assert(false);
                return Err(LedgerError::InvalidGroup);
            },
            Err(e) => return Err(e),
        };
        let sel = self.group_indices(g.as_str());
        if sel.len() == 0 {
            proof {
                assert forall|i: int| 0 <= i < v.entries.len() implies !(#[trigger] v.entries[i].group_id
                    == Some(g@)) by {
                    if v.entries[i].group_id == Some(g@) {
                        assert(in_group(v, g@)(i));
                        assert(sel@.contains(i as usize));
                    }
                }
            }
            return Err(LedgerError::GroupNotFound(g));
        }
        assert(in_group(v, g@)(sel@[0] as int));
        let order = self.sort_entry_tail(&sel, 0);
        proof {
            lemma_tail_of(v, sel@, order@, in_group(v, g@), 0);
        }
        let mut entries: Vec<Entry> = Vec::new();
        let mut k: usize = 0;
        while k < order.len()
            invariant
                self.wf(),
                self@ == v,
                k <= order@.len(),
                forall|m: int| 0 <= m < order@.len() ==> (#[trigger] order@[m]) < v.entries.len(),
                entries@.len() == k,
                forall|m: int|
                    0 <= m < k ==> (#[trigger] entries@[m]).id - 1 == order@[m] && entry_is(
                        entries@[m],
                        v,
                        entries@[m].id - 1,
                    ),
            decreases order@.len() - k,
        {
            let e = self.load_entry(order[k]);
            entries.push(e);
            k = k + 1;
        }
        assert(entry_ids(entries@) =~= usizes_of(order@));
        let curs = self.currencies_of(&sel);
        let mut net: Vec<(String, String)> = Vec::new();
        let mut k: usize = 0;
        while k < curs.len()
            invariant
                self.wf(),
                self@ == v,
                group_fits(v, g@),
                k <= curs@.len(),
                net@.len() == k,
                forall|a: int, b: int| 0 <= a < b < curs@.len() ==> seq_lt(curs@[a]@, curs@[b]@),
                curs_from(v, sel@, curs@),
                forall|j: int|
                    0 <= j < sel@.len() ==> #[trigger] sel@[j] < v.entries.len() && in_group(v, g@)(
                        sel@[j] as int,
                    ),
                forall|m: int|
                    0 <= m < k ==> (#[trigger] net@[m]).0@ == curs@[m]@ && net@[m].1@ == amount_text(
                        group_net(v, g@, curs@[m]@),
                        net_decimals(v, g@, curs@[m]@, v.entries.len() as int),
                    ),
            decreases curs@.len() - k,
        {
            let c = &curs[k];
            match self.currency_net(g.as_str(), c, false) {
                Some((d, x)) => {
                    net.push((crate::text::from_chars(c), format_wide(x, d)));
                },
                None => {
                    proof {
                        assert(sel_has_currency(v, sel@, c@));
                        let j = choose|j: int|
                            0 <= j < sel@.len() && #[trigger] currency_of(v, sel@[j] as int) == c@;
                        let i = sel@[j] as int;
                        assert(in_group(v, g@)(i));
                        assert(v.entries[i].group_id == Some(g@));
                        assert(net_sum(
                            v,
                            g@,
                            currency_of(v, i),
                            net_decimals(v, g@, currency_of(v, i), v.entries.len() as int),
                            v.entries.len() as int,
                            true,
                        ) <= i128::MAX);
                    }
                    return Err(LedgerError::Db(copy_str("integer overflow")));
                },
            }
            k = k + 1;
        }
        proof {
            assert forall|a: int, b: int| 0 <= a < b < net@.len() implies seq_lt(net@[a].0@, net@[b].0@) by {
                assert(net@[a].0@ == curs@[a]@);
                assert(net@[b].0@ == curs@[b]@);
            }
            assert forall|m: int| 0 <= m < net@.len() implies group_has(v, g@, (#[trigger] net@[m]).0@) by {
                assert(net@[m].0@ == curs@[m]@);
                assert(sel_has_currency(v, sel@, curs@[m]@));
                let j = choose|j: int|
                    0 <= j < sel@.len() && #[trigger] currency_of(v, sel@[j] as int) == curs@[m]@;
                assert(in_group(v, g@)(sel@[j] as int));
                assert(currency_of(v, sel@[j] as int) == net@[m].0@);
            }
            assert forall|i: int| 0 <= i < v.entries.len() && v.entries[i].group_id == Some(g@) implies net_has(
                net@,
                #[trigger] currency_of(v, i),
            ) by {
                assert(in_group(v, g@)(i));
                assert(sel@.contains(i as usize));
                let j = choose|j: int| 0 <= j < sel@.len() && sel@[j] == i as usize;
                assert(has_cur(curs@, currency_of(v, sel@[j] as int)));
                let m = choose|m: int| 0 <= m < curs@.len() && (#[trigger] curs@[m])@ == currency_of(v, i);
                assert(net@[m].0@ == currency_of(v, i));
            }
            assert(net_is(v, g@, net@));
        }
        let r: Result<GroupView, LedgerError> = Ok(GroupView { group: g, entries, net });
        r
    }
}


/// Positions `sel` ordered by their keys (`keys[m]` is the key of `sel[m]`),
/// the last `limit` of them (all when 0).
pub(crate) fn tail_of_keys(
    keys: &Vec<(Vec<char>, i64)>,
    sel: &Vec<usize>,
    limit: usize,
    key: Ghost<spec_fn(int) -> (Seq<char>, int)>,
) -> (r: Vec<usize>)
    requires
        keys@.len() == sel@.len(),
        ids_distinct(keys@),
        forall|m: int| 0 <= m < sel@.len() ==> key_at(keys@, m) == key@(#[trigger] sel@[m] as int),
    ensures
        forall|k: int| 0 <= k < r@.len() ==> sel@.contains(#[trigger] r@[k]),
        forall|k: int, l: int|
            0 <= k < l < r@.len() ==> key_lt(key@(r@[k] as int), key@(r@[l] as int)),
        forall|x: usize|
            #[trigger] sel@.contains(x) && !r@.contains(x) ==> r@.len() > 0 && key_lt(
                key@(x as int),
                key@(r@[0] as int),
            ),
        limit == 0 ==> forall|x: usize| #[trigger] sel@.contains(x) ==> r@.contains(x),
        limit > 0 ==> r@.len() <= limit && (r@.len() == limit || forall|x: usize|
            #[trigger] sel@.contains(x) ==> r@.contains(x)),
{
        let t = sorted_tail(&keys, limit);
        let mut r: Vec<usize> = Vec::new();
        let mut k: usize = 0;
        while k < t.len()
            invariant
                k <= t@.len(),
                r@.len() == k,
                forall|m: int| 0 <= m < t@.len() ==> (#[trigger] t@[m]) < sel@.len(),
                forall|m: int| 0 <= m < k ==> #[trigger] r@[m] == sel@[t@[m] as int],
            decreases t@.len() - k,
        {
            r.push(sel[t[k]]);
            k = k + 1;
        }
        let sl = sel.len();
        assert(sel@.len() == sl);
        proof {
            assert forall|k: int| 0 <= k < r@.len() implies sel@.contains(#[trigger] r@[k]) by {
                assert(r@[k] == sel@[t@[k] as int]);
            }
            assert forall|k: int, l: int| 0 <= k < l < r@.len() implies key_lt(
                key@(r@[k] as int),
                key@(r@[l] as int),
            ) by {
                assert(key_at(keys@, t@[k] as int) == key@(sel@[t@[k] as int] as int));
                assert(key_at(keys@, t@[l] as int) == key@(sel@[t@[l] as int] as int));
            }
            assert forall|x: usize| #[trigger] sel@.contains(x) && !r@.contains(x) implies r@.len()
                > 0 && key_lt(key@(x as int), key@(r@[0] as int)) by {
                let m = choose|m: int| 0 <= m < sel@.len() && sel@[m] == x;
                if t@.contains(m as usize) {
                    let q = choose|q: int| 0 <= q < t@.len() && t@[q] == m as usize;
                    assert(r@[q] == x);
                }
                assert(key_at(keys@, m) == key@(sel@[m] as int));
                assert(key_at(keys@, t@[0] as int) == key@(sel@[t@[0] as int] as int));
            }
            if limit == 0 || sel@.len() <= limit {
                assert forall|x: usize| #[trigger] sel@.contains(x) implies r@.contains(x) by {
                    let m = choose|m: int| 0 <= m < sel@.len() && sel@[m] == x;
                    assert(t@.contains(m as usize));
                    let q = choose|q: int| 0 <= q < t@.len() && t@[q] == m as usize;
                    assert(r@[q] == sel@[t@[q] as int]);
                    assert(t@[q] as int == m);
                    assert(r@[q] == x);
                }
            }
        }
        r
    }


/// Indices as integers.
pub open spec fn usizes_of(s: Seq<usize>) -> Seq<int> {
    s.map_values(|x: usize| x as int)
}

/// With a key no entry of the account comes after, the running sum counts
/// every entry of the account.
proof fn lemma_running_sum_all(es: Seq<EntryV>, acc_id: int, key: (Seq<char>, int))
    requires
        forall|j: int|
            0 <= j < es.len() && (#[trigger] es[j]).account_id == acc_id ==> !key_lt(
                key,
                (es[j].ts, es[j].id),
            ),
    ensures
        running_sum(es, acc_id, key) == book_sum(es, acc_id, None),
    decreases es.len(),
{
    if es.len() > 0 {
        let init = es.drop_last();
        assert forall|j: int|
            0 <= j < init.len() && (#[trigger] init[j]).account_id == acc_id implies !key_lt(
            key,
            (init[j].ts, init[j].id),
        ) by {
            assert(init[j] == es[j]);
        }
        lemma_running_sum_all(init, acc_id, key);
        if es.last().account_id == acc_id {
            assert(es[es.len() - 1] == es.last());
        }
    }
}

/// The running balance after an account's latest entry, by time then id, is
/// the account's balance: history's last `balance_after` agrees with
/// `balance`.
pub proof fn lemma_last_running_balance(v: LedgerV, acc_id: int, i: int)
    requires
        0 <= i < v.entries.len(),
        v.entries[i].account_id == acc_id,
        forall|j: int|
            0 <= j < v.entries.len() && (#[trigger] v.entries[j]).account_id == acc_id ==> !key_lt(
                entry_key(v, i),
                entry_key(v, j),
            ),
    ensures
        running_sum(v.entries, acc_id, entry_key(v, i)) == book_sum(v.entries, acc_id, None),
{
    assert forall|j: int|
        0 <= j < v.entries.len() && (#[trigger] v.entries[j]).account_id == acc_id implies !key_lt(
        entry_key(v, i),
        (v.entries[j].ts, v.entries[j].id),
    ) by {
        assert(entry_key(v, j) == (v.entries[j].ts, v.entries[j].id));
    }
    lemma_running_sum_all(v.entries, acc_id, entry_key(v, i));
}

/// What the entries at `targets` contribute to the net of group `g` in
/// currency `c` at `d` decimals.
pub open spec fn targets_net(v: LedgerV, targets: Seq<int>, g: Seq<char>, c: Seq<char>, d: nat) -> int
    decreases targets.len(),
{
    if targets.len() == 0 {
        0
    } else {
        let t = targets.last();
        targets_net(v, targets.drop_last(), g, c, d) + if v.entries[t].group_id == Some(g)
            && currency_of(v, t) == c {
            v.entries[t].amount * pow10((d - decimals_of(v, t)) as nat)
        } else {
            0
        }
    }
}

proof fn lemma_net_same_prefix(v: LedgerV, w: LedgerV, g: Seq<char>, c: Seq<char>, d: nat, k: int)
    requires
        0 <= k <= v.entries.len() <= w.entries.len(),
        w.accounts == v.accounts,
        forall|i: int| 0 <= i < v.entries.len() ==> #[trigger] w.entries[i] == v.entries[i],
    ensures
        net_sum(w, g, c, d, k, false) == net_sum(v, g, c, d, k, false),
        net_decimals(w, g, c, k) == net_decimals(v, g, c, k),
    decreases k,
{
    if k > 0 {
        lemma_net_same_prefix(v, w, g, c, d, k - 1);
        assert(w.entries[k - 1] == v.entries[k - 1]);
    }
}

proof fn lemma_net_decimals_bound(v: LedgerV, g: Seq<char>, c: Seq<char>, k: int, i: int)
    requires
        0 <= i < k,
        v.entries[i].group_id == Some(g),
        currency_of(v, i) == c,
    ensures
        decimals_of(v, i) <= net_decimals(v, g, c, k),
    decreases k,
{
    if i < k - 1 {
        lemma_net_decimals_bound(v, g, c, k - 1, i);
    }
}

/// Appending the reversals of `targets` takes exactly what they contributed
/// off every net, and, when none of them has more decimals than the net is
/// summed at, leaves those decimals unchanged.
proof fn lemma_reversals_net(
    v: LedgerV,
    targets: Seq<int>,
    memo: Option<Seq<char>>,
    actor: Option<Seq<char>>,
    clock: Seq<char>,
    g: Seq<char>,
    c: Seq<char>,
    d: nat,
)
    requires
        forall|j: int| 0 <= j < targets.len() ==> 0 <= #[trigger] targets[j] < v.entries.len(),
    ensures
        net_sum(
            with_reversals(v, targets, memo, actor, clock),
            g,
            c,
            d,
            (v.entries.len() + targets.len()) as int,
            false,
        ) == net_sum(v, g, c, d, v.entries.len() as int, false) - targets_net(v, targets, g, c, d),
        (forall|j: int|
            0 <= j < targets.len() && v.entries[#[trigger] targets[j]].group_id == Some(g)
                && currency_of(v, targets[j]) == c ==> decimals_of(v, targets[j]) <= net_decimals(
                v,
                g,
                c,
                v.entries.len() as int,
            )) ==> net_decimals(
            with_reversals(v, targets, memo, actor, clock),
            g,
            c,
            (v.entries.len() + targets.len()) as int,
        ) == net_decimals(v, g, c, v.entries.len() as int),
    decreases targets.len(),
{
    let w = with_reversals(v, targets, memo, actor, clock);
    let n = v.entries.len() as int;
    if targets.len() == 0 {
        assert(w.entries =~= v.entries);
        lemma_net_same_prefix(v, w, g, c, d, n);
    } else {
        let t2 = targets.drop_last();
        assert forall|j: int| 0 <= j < t2.len() implies 0 <= #[trigger] t2[j] < v.entries.len() by {
            assert(t2[j] == targets[j]);
        }
        lemma_reversals_net(v, t2, memo, actor, clock, g, c, d);
        let w2 = with_reversals(v, t2, memo, actor, clock);
        let m = n + t2.len();
        let t = targets.last();
        assert(targets[targets.len() - 1] == t);
        let row = reversal_entry(v, t, m + 1, memo, actor, clock);
        assert(reversal_rows(v, targets, memo, actor, clock) =~= reversal_rows(
            v,
            t2,
            memo,
            actor,
            clock,
        ).push(row));
        assert(w.entries =~= w2.entries.push(row));
        assert(forall|i: int| 0 <= i < m ==> #[trigger] w.entries[i] == w2.entries[i]);
        lemma_net_same_prefix(w2, w, g, c, d, m);
        assert(w.entries[m] == row);
        assert(currency_of(w, m) == currency_of(v, t));
        assert(decimals_of(w, m) == decimals_of(v, t));
        let a = v.entries[t].amount;
        let q = pow10((d - decimals_of(v, t)) as nat) as int;
        assert((-a) * q == -(a * q)) by (nonlinear_arith);
        if forall|j: int|
            0 <= j < targets.len() && v.entries[#[trigger] targets[j]].group_id == Some(g)
                && currency_of(v, targets[j]) == c ==> decimals_of(v, targets[j]) <= net_decimals(
                v,
                g,
                c,
                n,
            ) {
            assert forall|j: int|
                0 <= j < t2.len() && v.entries[#[trigger] t2[j]].group_id == Some(g) && currency_of(
                    v,
                    t2[j],
                ) == c implies decimals_of(v, t2[j]) <= net_decimals(v, g, c, n) by {
                assert(t2[j] == targets[j]);
            }
            assert(net_decimals(w2, g, c, m) == net_decimals(v, g, c, n));
            assert(net_decimals(w, g, c, m) == net_decimals(w2, g, c, m));
            if w.entries[m].group_id == Some(g) && currency_of(w, m) == c {
                assert(v.entries[targets[targets.len() - 1]].group_id == Some(g));
            }
        }
    }
}

/// Reversing every entry of a group none of whose entries is reversed or a
/// reversal yet, as `reverse --group` does, leaves every per-currency net of
/// the group at zero.
pub proof fn lemma_reversed_group_nets_zero(
    v: LedgerV,
    group: Seq<char>,
    memo: Option<Seq<char>>,
    actor: Option<Seq<char>>,
    clock: Seq<char>,
    c: Seq<char>,
)
    requires
        reverse_group_spec(v, group) is Ok,
        forall|i: int|
            0 <= i < v.entries.len() && v.entries[i].group_id == Some(trim(group)) ==> group_target(
                v,
                trim(group),
                i,
            ),
    ensures
        group_net(
            with_reversals(v, reverse_group_spec(v, group)->Ok_0, memo, actor, clock),
            trim(group),
            c,
        ) == 0,
{
    let g = trim(group);
    let n = v.entries.len() as int;
    let targets = group_targets(v, g, n);
    assert(reverse_group_spec(v, group)->Ok_0 == targets);
    let d = net_decimals(v, g, c, n);
    lemma_group_targets_net(v, g, c, d, n);
    assert forall|j: int| 0 <= j < targets.len() && v.entries[#[trigger] targets[j]].group_id == Some(
        g,
    ) && currency_of(v, targets[j]) == c implies decimals_of(v, targets[j]) <= d by {
        lemma_net_decimals_bound(v, g, c, n, targets[j]);
    }
    lemma_reversals_net(v, targets, memo, actor, clock, g, c, d);
    let w = with_reversals(v, targets, memo, actor, clock);
    assert(w.entries.len() == n + targets.len());
}

/// The targets of `reverse --group` below `k`, when they are every entry of
/// the group, contribute exactly the group's net; and they lie below `k`.
proof fn lemma_group_targets_net(v: LedgerV, g: Seq<char>, c: Seq<char>, d: nat, k: int)
    requires
        0 <= k <= v.entries.len(),
        forall|i: int|
            0 <= i < v.entries.len() && v.entries[i].group_id == Some(g) ==> group_target(v, g, i),
    ensures
        targets_net(v, group_targets(v, g, k), g, c, d) == net_sum(v, g, c, d, k, false),
        forall|j: int|
            0 <= j < group_targets(v, g, k).len() ==> 0 <= #[trigger] group_targets(v, g, k)[j] < k,
    decreases k,
{
    if k > 0 {
        lemma_group_targets_net(v, g, c, d, k - 1);
        let prev = group_targets(v, g, k - 1);
        let cur = group_targets(v, g, k);
        if group_target(v, g, k - 1) {
            assert(cur =~= prev.push(k - 1));
            assert(cur.drop_last() =~= prev);
        } else {
            assert(cur =~= prev);
            assert(v.entries[k - 1].group_id != Some(g));
        }
        assert forall|j: int| 0 <= j < cur.len() implies 0 <= #[trigger] cur[j] < k by {
            if j < prev.len() {
                assert(cur[j] == prev[j]);
            }
        }
    }
}

/// What a `latest_snapshot_ts` value is: none when the account has no
/// snapshot, else the time of one of its snapshots, with none later.
proof fn lemma_latest_snapshot_is_max(ss: Seq<SnapshotV>, acc: int)
    ensures
        match latest_snapshot_ts(ss, acc) {
            None => forall|j: int| 0 <= j < ss.len() ==> (#[trigger] ss[j]).account_id != acc,
            Some(t) => (exists|j: int| 0 <= j < ss.len() && (#[trigger] ss[j]).account_id == acc
                && ss[j].ts == t) && forall|j: int|
                0 <= j < ss.len() && (#[trigger] ss[j]).account_id == acc ==> seq_le(ss[j].ts, t),
        },
    decreases ss.len(),
{
    if ss.len() > 0 {
        let pre = ss.drop_last();
        lemma_latest_snapshot_is_max(pre, acc);
        let s = ss.last();
        let n = ss.len() - 1;
        assert forall|j: int| 0 <= j < n implies ss[j] == #[trigger] pre[j] by {}
        assert(ss[n] == s);
        match latest_snapshot_ts(pre, acc) {
            None => {
                if s.account_id == acc {
                    assert(ss[n].account_id == acc && ss[n].ts == s.ts);
                    assert forall|j: int|
                        0 <= j < ss.len() && (#[trigger] ss[j]).account_id == acc implies seq_le(
                        ss[j].ts,
                        s.ts,
                    ) by {
                        if j < n {
                            assert(pre[j].account_id != acc);
                        }
                    }
                } else {
                    assert forall|j: int| 0 <= j < ss.len() implies (#[trigger] ss[j]).account_id
                        != acc by {
                        if j < n {
                            assert(pre[j].account_id != acc);
                        }
                    }
                }
            },
            Some(p) => {
                let w = choose|j: int| 0 <= j < pre.len() && (#[trigger] pre[j]).account_id == acc
                    && pre[j].ts == p;
                assert(ss[w] == pre[w]);
                if s.account_id == acc && seq_lt(p, s.ts) {
                    assert(ss[n].account_id == acc && ss[n].ts == s.ts);
                    assert forall|j: int|
                        0 <= j < ss.len() && (#[trigger] ss[j]).account_id == acc implies seq_le(
                        ss[j].ts,
                        s.ts,
                    ) by {
                        if j < n {
                            assert(pre[j].account_id == acc);
                            assert(seq_le(pre[j].ts, p));
                            if ss[j].ts != p {
                                crate::sort::lemma_seq_lt_transitive(ss[j].ts, p, s.ts);
                            }
                        }
                    }
                } else {
                    assert(ss[w].account_id == acc && ss[w].ts == p);
                    if s.account_id == acc {
                        crate::sort::lemma_seq_lt_total(p, s.ts);
                    }
                    assert forall|j: int|
                        0 <= j < ss.len() && (#[trigger] ss[j]).account_id == acc implies seq_le(
                        ss[j].ts,
                        p,
                    ) by {
                        if j < n {
                            assert(pre[j].account_id == acc);
                        }
                    }
                }
            },
        }
    }
}

/// What a `latest_ts` value is: none when the account has no entry, else
/// the movement time of one of its entries, with none later.
proof fn lemma_latest_ts_is_max(es: Seq<EntryV>, acc: int)
    ensures
        match latest_ts(es, acc) {
            None => forall|j: int| 0 <= j < es.len() ==> (#[trigger] es[j]).account_id != acc,
            Some(t) => (exists|j: int| 0 <= j < es.len() && (#[trigger] es[j]).account_id == acc
                && es[j].ts == t) && forall|j: int|
                0 <= j < es.len() && (#[trigger] es[j]).account_id == acc ==> seq_le(es[j].ts, t),
        },
    decreases es.len(),
{
    if es.len() > 0 {
        let pre = es.drop_last();
        lemma_latest_ts_is_max(pre, acc);
        let s = es.last();
        let n = es.len() - 1;
        assert forall|j: int| 0 <= j < n implies es[j] == #[trigger] pre[j] by {}
        assert(es[n] == s);
        match latest_ts(pre, acc) {
            None => {
                if s.account_id == acc {
                    assert(es[n].account_id == acc && es[n].ts == s.ts);
                    assert forall|j: int|
                        0 <= j < es.len() && (#[trigger] es[j]).account_id == acc implies seq_le(
                        es[j].ts,
                        s.ts,
                    ) by {
                        if j < n {
                            assert(pre[j].account_id != acc);
                        }
                    }
                } else {
                    assert forall|j: int| 0 <= j < es.len() implies (#[trigger] es[j]).account_id
                        != acc by {
                        if j < n {
                            assert(pre[j].account_id != acc);
                        }
                    }
                }
            },
            Some(p) => {
                let w = choose|j: int| 0 <= j < pre.len() && (#[trigger] pre[j]).account_id == acc
                    && pre[j].ts == p;
                assert(es[w] == pre[w]);
                if s.account_id == acc && seq_lt(p, s.ts) {
                    assert(es[n].account_id == acc && es[n].ts == s.ts);
                    assert forall|j: int|
                        0 <= j < es.len() && (#[trigger] es[j]).account_id == acc implies seq_le(
                        es[j].ts,
                        s.ts,
                    ) by {
                        if j < n {
                            assert(pre[j].account_id == acc);
                            assert(seq_le(pre[j].ts, p));
                            if es[j].ts != p {
                                crate::sort::lemma_seq_lt_transitive(es[j].ts, p, s.ts);
                            }
                        }
                    }
                } else {
                    assert(es[w].account_id == acc && es[w].ts == p);
                    if s.account_id == acc {
                        crate::sort::lemma_seq_lt_total(p, s.ts);
                    }
                    assert forall|j: int|
                        0 <= j < es.len() && (#[trigger] es[j]).account_id == acc implies seq_le(
                        es[j].ts,
                        p,
                    ) by {
                        if j < n {
                            assert(pre[j].account_id == acc);
                        }
                    }
                }
            },
        }
    }
}

/// In `balances`, each row belongs to one account of the book, and its
/// `last_reconciled_at` is the latest time among that account's snapshots
/// (none when it has none), and its `last_ts` the latest movement time
/// among its entries (none when it has none): times compared as text, which
/// is chronological for stored timestamps.
pub proof fn lemma_balances_report_latest_times(
    v: LedgerV,
    r: Result<Vec<AccountBalance>, LedgerError>,
    k: int,
)
    requires
        balances_post(v, r),
        r matches Ok(list) && 0 <= k < list@.len(),
    ensures
        exists|a: int|
            #![trigger v.accounts[a]]
            0 <= a < v.accounts.len() && r->Ok_0@[k].account@ == v.accounts[a].name && match ostr(
                r->Ok_0@[k].last_reconciled_at,
            ) {
                None => forall|j: int|
                    0 <= j < v.snapshots.len() ==> (#[trigger] v.snapshots[j]).account_id != a + 1,
                Some(t) => (exists|j: int|
                    0 <= j < v.snapshots.len() && (#[trigger] v.snapshots[j]).account_id == a + 1
                        && v.snapshots[j].ts == t) && forall|j: int|
                    0 <= j < v.snapshots.len() && (#[trigger] v.snapshots[j]).account_id == a + 1
                        ==> seq_le(v.snapshots[j].ts, t),
            } && match ostr(r->Ok_0@[k].last_ts) {
                None => forall|j: int|
                    0 <= j < v.entries.len() ==> (#[trigger] v.entries[j]).account_id != a + 1,
                Some(t) => (exists|j: int|
                    0 <= j < v.entries.len() && (#[trigger] v.entries[j]).account_id == a + 1
                        && v.entries[j].ts == t) && forall|j: int|
                    0 <= j < v.entries.len() && (#[trigger] v.entries[j]).account_id == a + 1
                        ==> seq_le(v.entries[j].ts, t),
            },
{
    let list = r->Ok_0@;
    let p = choose|p: Seq<int>| #[trigger] balances_listed(v, list, p);
    let a = p[k];
    assert(balance_row_is(list[k], v, a));
    lemma_latest_snapshot_is_max(v.snapshots, a + 1);
    lemma_latest_ts_is_max(v.entries, a + 1);
    assert(v.accounts[a] == v.accounts[a]);
}

/// In `history`, every listed entry is on the named account, of the kind
/// asked for, in the group asked for and within the period asked for (when
/// asked); entries are listed by movement time, then id; and with no limit
/// and no period, every entry of the account of that kind and group is
/// listed.
pub proof fn lemma_history_honours_filters(
    v: LedgerV,
    name: Seq<char>,
    f: HistoryFilterV,
    r: Result<History, LedgerError>,
)
    requires
        super::ledger_wf(v),
        history_post(v, name, f, r),
        r is Ok,
    ensures
        forall|k: int|
            0 <= k < r->Ok_0.entries@.len() ==> {
                let e = (#[trigger] r->Ok_0.entries@[k]).entry;
                &&& e.account@ == r->Ok_0.account@
                &&& (f.kind matches Some(kd) ==> e.kind == kd)
                &&& (f.group matches Some(g) ==> ostr(e.group_id) == Some(trim(g)))
                &&& (opt_ts_spec(f.since) matches Ok(Some(t)) ==> seq_le(t, e.ts@))
                &&& (opt_ts_spec(f.until) matches Ok(Some(t)) ==> seq_le(e.ts@, t))
            },
        forall|k: int, m: int|
            0 <= k < m < r->Ok_0.entries@.len() ==> key_lt(
                (r->Ok_0.entries@[k].entry.ts@, r->Ok_0.entries@[k].entry.id as int),
                (r->Ok_0.entries@[m].entry.ts@, r->Ok_0.entries@[m].entry.id as int),
            ),
        f.limit == 0 && f.since is None && f.until is None ==> forall|i: int|
            0 <= i < v.entries.len() && v.entries[i].account_id == account_lookup(v, name)->Ok_0 + 1
                && (f.kind matches Some(kd) ==> v.entries[i].kind == kd) && (f.group matches Some(g)
                ==> v.entries[i].group_id == Some(trim(g))) ==> exists|k: int|
                0 <= k < r->Ok_0.entries@.len() && (#[trigger] r->Ok_0.entries@[k]).entry.id
                    == i + 1,
{
    let (a, since, until, g) = history_args(v, name, f)->Ok_0;
    let h = r->Ok_0;
    let sel = history_selects(v, a + 1, since, until, f.kind, g);
    let l = history_ids(h.entries@);
    assert forall|k: int| 0 <= k < h.entries@.len() implies {
        let e = (#[trigger] h.entries@[k]).entry;
        &&& e.account@ == h.account@
        &&& (f.kind matches Some(kd) ==> e.kind == kd)
        &&& (f.group matches Some(gg) ==> ostr(e.group_id) == Some(trim(gg)))
        &&& (opt_ts_spec(f.since) matches Ok(Some(t)) ==> seq_le(t, e.ts@))
        &&& (opt_ts_spec(f.until) matches Ok(Some(t)) ==> seq_le(e.ts@, t))
    } by {
        assert(l[k] == h.entries@[k].entry.id - 1);
        assert(sel(l[k]));
    }
    assert forall|k: int, m: int| 0 <= k < m < h.entries@.len() implies key_lt(
        (h.entries@[k].entry.ts@, h.entries@[k].entry.id as int),
        (h.entries@[m].entry.ts@, h.entries@[m].entry.id as int),
    ) by {
        assert(l[k] == h.entries@[k].entry.id - 1);
        assert(l[m] == h.entries@[m].entry.id - 1);
        assert(entry_is(h.entries@[k].entry, v, l[k]));
        assert(entry_is(h.entries@[m].entry, v, l[m]));
        assert(key_lt(entry_key(v, l[k]), entry_key(v, l[m])));
        assert(v.entries[l[k]].id == l[k] + 1);
        assert(v.entries[l[m]].id == l[m] + 1);
    }
    if f.limit == 0 && f.since is None && f.until is None {
        assert forall|i: int|
            0 <= i < v.entries.len() && v.entries[i].account_id == a + 1 && (f.kind matches Some(kd)
                ==> v.entries[i].kind == kd) && (f.group matches Some(gg) ==> v.entries[i].group_id
                == Some(trim(gg))) implies exists|k: int|
            0 <= k < h.entries@.len() && (#[trigger] h.entries@[k]).entry.id == i + 1 by {
            assert(sel(i));
            assert(l.contains(i));
            let k = choose|k: int| 0 <= k < l.len() && l[k] == i;
            assert(h.entries@[k].entry.id - 1 == l[k]);
        }
    }
}

} // verus!
