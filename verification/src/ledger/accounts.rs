//! Accounts: creating them idempotently and listing them.

use vstd::prelude::*;

use super::{
    account_index, copy_opt, ledger_extends, ledger_wf, lemma_first_index,
    lemma_first_index_push, max_rows, oref, ostr, AccountRow, AccountV, Ledger, LedgerV,
};
use crate::error::{ErrorV, LedgerError};
use crate::model::{Account, AccountAddResult};
use crate::sort::{key_lt, sort_by_key, ids_distinct, key_at, lemma_sorted_perm_distinct};
use crate::text::{
    copy_str, lemma_trim_idempotent, lower_chars, lower_seq, nocase_eq, to_chars, trim,
    trim_str,
};

verus! {

broadcast use Ledger::lemma_view;

/// `str::to_uppercase` of a text (Unicode upper-case mapping).
pub uninterp spec fn uppercase_of(s: Seq<char>) -> Seq<char>;

/// `str::to_uppercase`. The result is named; stated besides: it is empty
/// exactly when the input is, as every character maps to one or more.
#[verifier::external_body]
fn to_uppercase(s: &str) -> (r: String)
    ensures
        r@ == uppercase_of(s@),
        (r@.len() == 0) == (s@.len() == 0),
{
    s.to_uppercase()
}

/// What SQLite reports when a table can take no more rows.
pub open spec fn capacity_error() -> ErrorV {
    ErrorV::Db("database or disk is full"@)
}

/// What the schema reports for an account with more than 18 fraction digits.
pub open spec fn decimals_error() -> ErrorV {
    ErrorV::Db("CHECK constraint failed: decimals BETWEEN 0 AND 18"@)
}

/// An optional text trimmed.
pub open spec fn trim_opt(o: Option<Seq<char>>) -> Option<Seq<char>> {
    match o {
        Some(t) => Some(trim(t)),
        None => None,
    }
}

/// What `add_account` does: the name is trimmed and must not be empty; the
/// currency is trimmed and upper-cased and must not be empty; an existing
/// account of that name (up to ASCII case) is the result when its currency
/// and decimals match and an error otherwise; else a new account is appended.
pub open spec fn add_account_spec(
    v: LedgerV,
    name: Seq<char>,
    currency: Seq<char>,
    decimals: nat,
    note: Option<Seq<char>>,
    clock: Seq<char>,
) -> Result<(LedgerV, int, bool), ErrorV> {
    let n = trim(name);
    let c = uppercase_of(trim(currency));
    if n.len() == 0 {
        Err(ErrorV::InvalidAccountName)
    } else if c.len() == 0 {
        Err(ErrorV::InvalidCurrency)
    } else {
        match account_index(v, n) {
            Some(i) => if v.accounts[i].currency == c && v.accounts[i].decimals == decimals {
                Ok((v, i, true))
            } else {
                Err(ErrorV::AccountExists(n))
            },
            None => if decimals > 18 {
                Err(decimals_error())
            } else if v.accounts.len() + 1 >= max_rows() {
                Err(capacity_error())
            } else {
                let row = AccountV {
                    id: v.accounts.len() + 1int,
                    name: n,
                    currency: c,
                    decimals,
                    note: trim_opt(note),
                    created_at: clock,
                };
                Ok(
                    (
                        LedgerV {
                            accounts: v.accounts.push(row),
                            entries: v.entries,
                            snapshots: v.snapshots,
                        },
                        v.accounts.len() as int,
                        false,
                    ),
                )
            },
        }
    }
}

/// `a` shows account `i` of `v`.
pub open spec fn account_is(a: Account, v: LedgerV, i: int) -> bool {
    let row = v.accounts[i];
    &&& a.id == row.id
    &&& a.name@ == row.name
    &&& a.currency@ == row.currency
    &&& a.decimals == row.decimals
    &&& ostr(a.note) == row.note
    &&& a.created_at@ == row.created_at
}

/// `r` and the book after the call are what `add_account_spec` says.
pub open spec fn add_account_post(
    old: LedgerV,
    new: LedgerV,
    name: Seq<char>,
    currency: Seq<char>,
    decimals: nat,
    note: Option<Seq<char>>,
    clock: Seq<char>,
    r: Result<AccountAddResult, LedgerError>,
) -> bool {
    match add_account_spec(old, name, currency, decimals, note, clock) {
        Err(e) => r matches Err(x) && x.view() == e && new == old,
        Ok((nv, i, dup)) => new == nv && (r matches Ok(res) && res.duplicate == dup
            && account_is(res.account, nv, i)),
    }
}

/// The `NOCASE` sort key of an account: lower-cased name, then id.
pub open spec fn account_key(a: AccountV) -> (Seq<char>, int) {
    (lower_seq(a.name), a.id)
}

/// `list` is every account once, ordered by name up to ASCII case, then by id.
pub open spec fn accounts_listed(v: LedgerV, list: Seq<Account>) -> bool {
    &&& list.len() == v.accounts.len()
    &&& forall|k: int|
        0 <= k < list.len() ==> 1 <= (#[trigger] list[k]).id <= v.accounts.len() && account_is(
            list[k],
            v,
            list[k].id - 1,
        )
    &&& forall|k: int, l: int|
        0 <= k < l < list.len() ==> key_lt(
            account_key(v.accounts[list[k].id - 1]),
            account_key(v.accounts[list[l].id - 1]),
        )
}

impl Ledger {
    /// Account `i` (an index) as listed.
    fn load_account(&self, i: usize) -> (r: Account)
        requires
            i < self@.accounts.len(),
        ensures
            account_is(r, self@, i as int),
    {
        let a = &self.accounts[i];
        assert(self@.accounts[i as int] == a.view());
        Account {
            id: a.id,
            name: copy_str(a.name.as_str()),
            currency: copy_str(a.currency.as_str()),
            decimals: a.decimals,
            note: copy_opt(&a.note),
            created_at: copy_str(a.created_at.as_str()),
        }
    }

    /// Create an account, or return the existing one of that name when its
    /// currency and decimals match; `clock` is the creation time.
    pub fn add_account_at(
        &mut self,
        name: &str,
        currency: &str,
        decimals: u32,
        note: Option<&str>,
        clock: &str,
    ) -> (r: Result<AccountAddResult, LedgerError>)
        requires
            old(self).wf(),
        ensures
            final(self).wf(),
            ledger_extends(old(self)@, final(self)@),
            add_account_post(
                old(self)@,
                final(self)@,
                name@,
                currency@,
                decimals as nat,
                oref(note),
                clock@,
                r,
            ),
    {
        let n = trim_str(name);
        let c = to_uppercase(trim_str(currency).as_str());
        if to_chars(n.as_str()).len() == 0 {
            return Err(LedgerError::InvalidAccountName);
        }
        if to_chars(c.as_str()).len() == 0 {
            return Err(LedgerError::InvalidCurrency);
        }
        proof {
            lemma_trim_idempotent(name@);
        }
        match self.account_by_name(n.as_str()) {
            Ok(i) => {
                let a = &self.accounts[i];
                assert(self@.accounts[i as int] == a.view());
                if crate::text::str_eq(a.currency.as_str(), c.as_str()) && a.decimals == decimals {
                    let account = self.load_account(i);
                    return Ok(AccountAddResult { account, duplicate: true });
                }
                return Err(LedgerError::AccountExists(n));
            },
            Err(_) => {},
        }
        if decimals > 18 {
            return Err(
                LedgerError::Db(copy_str("CHECK constraint failed: decimals BETWEEN 0 AND 18")),
            );
        }
        if self.accounts.len() + 1 >= max_rows_usize() {
            return Err(LedgerError::Db(copy_str("database or disk is full")));
        }
        let id = (self.accounts.len() + 1) as i64;
        let row = AccountRow {
            id,
            name: n,
            currency: c,
            decimals,
            note: match note {
                Some(t) => Some(trim_str(t)),
                None => None,
            },
            created_at: copy_str(clock),
        };
        let ghost old_v = self@;
        let i = self.accounts.len();
        self.accounts.push(row);
        proof {
            assert(self@.accounts =~= old_v.accounts.push(self.accounts@[i as int].view()));
            assert(self@.entries == old_v.entries);
            assert(self@.snapshots == old_v.snapshots);
            assert(ledger_wf(self@));
        }
        let account = self.load_account(i);
        Ok(AccountAddResult { account, duplicate: false })
    }

    /// Create an account, or return the existing one of that name when its
    /// currency and decimals match.
    pub fn add_account(&mut self, name: &str, currency: &str, decimals: u32, note: Option<&str>) -> (r:
        Result<AccountAddResult, LedgerError>)
        requires
            old(self).wf(),
        ensures
            final(self).wf(),
            ledger_extends(old(self)@, final(self)@),
            exists|clock: Seq<char>|
                crate::time::storage_shape(clock) && #[trigger] add_account_post(
                    old(self)@,
                    final(self)@,
                    name@,
                    currency@,
                    decimals as nat,
                    oref(note),
                    clock,
                    r,
                ),
    {
        let clock = crate::time::now();
        self.add_account_at(name, currency, decimals, note, clock.as_str())
    }

    /// Every account, ordered by name up to ASCII case (then by id).
    pub fn list_accounts(&self) -> (r: Result<Vec<Account>, LedgerError>)
        requires
            self.wf(),
        ensures
            r matches Ok(list) && accounts_listed(self@, list@),
    {
        let order = self.account_order();
        let mut list: Vec<Account> = Vec::new();
        let mut k: usize = 0;
        while k < order.len()
            invariant
                self.wf(),
                k <= order.len(),
                order@.len() == self@.accounts.len(),
                forall|j: int| 0 <= j < order@.len() ==> (#[trigger] order@[j]) < self@.accounts.len(),
                list@.len() == k,
                forall|j: int|
                    0 <= j < k ==> (#[trigger] list@[j]).id == order@[j] + 1 && account_is(
                        list@[j],
                        self@,
                        order@[j] as int,
                    ),
            decreases order.len() - k,
        {
            let a = self.load_account(order[k]);
            proof {
                assert(self@.accounts[order@[k as int] as int].id == order@[k as int] + 1);
            }
            list.push(a);
            k = k + 1;
        }
        proof {
            assert forall|k: int, l: int| 0 <= k < l < list@.len() implies key_lt(
                account_key(self@.accounts[list@[k].id - 1]),
                account_key(self@.accounts[list@[l].id - 1]),
            ) by {
                assert(list@[k].id - 1 == order@[k]);
                assert(list@[l].id - 1 == order@[l]);
            }
        }
        Ok(list)
    }

    /// Account indices in list order.
    pub(crate) fn account_order(&self) -> (order: Vec<usize>)
        requires
            self.wf(),
        ensures
            order@.len() == self@.accounts.len(),
            forall|j: int| 0 <= j < order@.len() ==> (#[trigger] order@[j]) < self@.accounts.len(),
            forall|k: int, l: int|
                0 <= k < l < order@.len() ==> key_lt(
                    account_key(self@.accounts[order@[k] as int]),
                    account_key(self@.accounts[order@[l] as int]),
                ),
            forall|j: int| 0 <= j < self@.accounts.len() ==> #[trigger] order@.contains(j as usize),
    {
        let mut keys: Vec<(Vec<char>, i64)> = Vec::new();
        let mut i: usize = 0;
        while i < self.accounts.len()
            invariant
                self.wf(),
                i <= self.accounts.len(),
                keys@.len() == i,
                forall|j: int|
                    0 <= j < i ==> key_at(keys@, j) == account_key(#[trigger] self@.accounts[j]),
            decreases self.accounts.len() - i,
        {
            let a = &self.accounts[i];
            assert(self@.accounts[i as int] == a.view());
            let lowered = lower_chars(&to_chars(a.name.as_str()));
            keys.push((lowered, a.id));
            i = i + 1;
        }
        proof {
            assert forall|x: int, y: int|
                0 <= x < keys@.len() && 0 <= y < keys@.len() && x != y implies keys@[x].1
                != keys@[y].1 by {
                assert(key_at(keys@, x) == account_key(self@.accounts[x]));
                assert(key_at(keys@, y) == account_key(self@.accounts[y]));
            }
        }
        let p = sort_by_key(&keys);
        proof {
            assert forall|k: int, l: int| 0 <= k < l < p@.len() implies key_lt(
                account_key(self@.accounts[p@[k] as int]),
                account_key(self@.accounts[p@[l] as int]),
            ) by {
                assert(key_at(keys@, p@[k] as int) == account_key(self@.accounts[p@[k] as int]));
                assert(key_at(keys@, p@[l] as int) == account_key(self@.accounts[p@[l] as int]));
            }
        }
        p
    }
}

/// `max_rows()` as a `usize`.
pub(crate) fn max_rows_usize() -> (r: usize)
    ensures
        r as int == max_rows(),
{
    if (usize::MAX as u64) < 0x3fff_ffff_ffff_ffffu64 {
        usize::MAX
    } else {
        0x3fff_ffff_ffff_ffffu64 as usize
    }
}

/// Adding an account again with the same name (in any case and padding),
/// currency and decimals returns the account the first call returned and
/// changes nothing, whatever the note.
pub proof fn lemma_add_account_idempotent(
    v: LedgerV,
    name: Seq<char>,
    currency: Seq<char>,
    decimals: nat,
    note: Option<Seq<char>>,
    note2: Option<Seq<char>>,
    clock: Seq<char>,
    clock2: Seq<char>,
)
    requires
        ledger_wf(v),
        add_account_spec(v, name, currency, decimals, note, clock) is Ok,
    ensures
        ({
            let (nv, i, _) = add_account_spec(v, name, currency, decimals, note, clock)->Ok_0;
            add_account_spec(nv, name, currency, decimals, note2, clock2) == Ok::<
                (LedgerV, int, bool),
                ErrorV,
            >((nv, i, true))
        }),
{
    let n = trim(name);
    lemma_trim_idempotent(name);
    let p = |a: AccountV| nocase_eq(a.name, trim(n));
    lemma_first_index(v.accounts, p);
    let (nv, i, dup) = add_account_spec(v, name, currency, decimals, note, clock)->Ok_0;
    if !dup {
        let row = nv.accounts.last();
        lemma_first_index_push(v.accounts, p, row);
        assert(nv.accounts == v.accounts.push(row));
        assert(p(row));
    }
}

/// Adding an account again under the same name (in any case and padding)
/// with another currency or another precision is refused as an existing
/// account, and changes nothing.
pub proof fn lemma_add_account_conflict(
    v: LedgerV,
    name: Seq<char>,
    currency: Seq<char>,
    decimals: nat,
    note: Option<Seq<char>>,
    clock: Seq<char>,
    name2: Seq<char>,
    currency2: Seq<char>,
    decimals2: nat,
    note2: Option<Seq<char>>,
    clock2: Seq<char>,
)
    requires
        ledger_wf(v),
        add_account_spec(v, name, currency, decimals, note, clock) is Ok,
        nocase_eq(trim(name2), trim(name)),
        uppercase_of(trim(currency2)).len() > 0,
        uppercase_of(trim(currency2)) != uppercase_of(trim(currency)) || decimals2 != decimals,
    ensures
        ({
            let (nv, _, _) = add_account_spec(v, name, currency, decimals, note, clock)->Ok_0;
            add_account_spec(nv, name2, currency2, decimals2, note2, clock2) == Err::<
                (LedgerV, int, bool),
                ErrorV,
            >(ErrorV::AccountExists(trim(name2)))
        }),
{
    let n = trim(name);
    let n2 = trim(name2);
    lemma_trim_idempotent(name);
    lemma_trim_idempotent(name2);
    let p = |a: AccountV| nocase_eq(a.name, trim(n));
    let p2 = |a: AccountV| nocase_eq(a.name, trim(n2));
    assert forall|a: AccountV| #[trigger] p(a) == p2(a) by {
        if p(a) {
            assert forall|k: int| 0 <= k < a.name.len() implies crate::text::ascii_lower(
                #[trigger] a.name[k],
            ) == crate::text::ascii_lower(n2[k]) by {
                assert(crate::text::ascii_lower(n2[k]) == crate::text::ascii_lower(n[k]));
            }
        }
        if p2(a) {
            assert forall|k: int| 0 <= k < a.name.len() implies crate::text::ascii_lower(
                #[trigger] a.name[k],
            ) == crate::text::ascii_lower(n[k]) by {
                assert(crate::text::ascii_lower(n2[k]) == crate::text::ascii_lower(n[k]));
            }
        }
    }
    assert(p =~= p2);
    lemma_first_index(v.accounts, p);
    let (nv, i, dup) = add_account_spec(v, name, currency, decimals, note, clock)->Ok_0;
    if !dup {
        let row = nv.accounts.last();
        lemma_first_index_push(v.accounts, p, row);
        assert(nv.accounts == v.accounts.push(row));
        assert(p(row));
    }
    assert(account_index(nv, n2) == Some(i));
    assert(n2.len() > 0);
}

} // verus!
