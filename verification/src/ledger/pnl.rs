//! Realized cash PnL, excluding capital movements.

use vstd::prelude::*;

use super::accounts::account_key;
use super::{
    account_lookup, fits_i64, ledger_wf, normalize_opt_ts, opt_str, ostr, overflow_error,
    with_entry, AccountV, EntryV, Ledger, LedgerV,
};
use super::entries::{reversal_entry, reversal_rows, usizes, with_reversals};
use super::reports::opt_ts_spec;
use crate::error::{ErrorV, LedgerError};
use crate::json::{field_index, find_field, json_parse_of, parse_json, JsonKind, JsonKindV, JsonValueV};
use crate::model::{AccountPnl, Kind, PnlRow};
use crate::money::{amount_text, format_amount};
use crate::sort::{has_text, key_at, key_lt, ids_distinct};
use crate::text::{
    chars_eq, chars_range, chars_skip, copy_str, from_chars, seq_le, seq_lt, str_eq, str_le,
    to_chars, trim, trim_chars,
};
use crate::time::{week_label, week_label_of};

verus! {

broadcast use Ledger::lemma_view;

/// How `pnl` buckets its rows.
#[derive(Clone, Debug, PartialEq, Eq)]
pub enum PnlBucket {
    Total,
    Day,
    Week,
    Month,
    Group,
    Meta(String),
}

/// A `PnlBucket` by its values.
pub enum PnlBucketV {
    Total,
    Day,
    Week,
    Month,
    Group,
    Meta(Seq<char>),
}

impl PnlBucket {
    pub open spec fn view(&self) -> PnlBucketV {
        match self {
            PnlBucket::Total => PnlBucketV::Total,
            PnlBucket::Day => PnlBucketV::Day,
            PnlBucket::Week => PnlBucketV::Week,
            PnlBucket::Month => PnlBucketV::Month,
            PnlBucket::Group => PnlBucketV::Group,
            PnlBucket::Meta(k) => PnlBucketV::Meta(k@),
        }
    }
}

/// A character of a meta key: ASCII letter or digit, or `_`.
pub open spec fn is_key_char(c: char) -> bool {
    ('a' <= c && c <= 'z') || ('A' <= c && c <= 'Z') || ('0' <= c && c <= '9') || c == '_'
}

/// What `PnlBucket::parse` accepts: one of the five names, or `meta:` and a
/// non-empty key of key characters, after trimming.
pub open spec fn parse_bucket_spec(text: Seq<char>) -> Result<PnlBucketV, ErrorV> {
    let t = trim(text);
    if t == "total"@ {
        Ok(PnlBucketV::Total)
    } else if t == "day"@ {
        Ok(PnlBucketV::Day)
    } else if t == "week"@ {
        Ok(PnlBucketV::Week)
    } else if t == "month"@ {
        Ok(PnlBucketV::Month)
    } else if t == "group"@ {
        Ok(PnlBucketV::Group)
    } else if t.len() > 5 && t.take(5) == "meta:"@ && forall|i: int|
        5 <= i < t.len() ==> is_key_char(#[trigger] t[i]) {
        Ok(PnlBucketV::Meta(t.skip(5)))
    } else {
        Err(ErrorV::InvalidBucket(t))
    }
}

/// The first `n` characters of `s`, or all of it when shorter.
pub open spec fn prefix_text(s: Seq<char>, n: nat) -> Seq<char> {
    if s.len() <= n {
        s
    } else {
        s.take(n as int)
    }
}

/// A JSON member read as text: a string is its contents, `true` and `false`
/// are `1` and `0`, `null` is nothing, anything else its compact rendering.
pub open spec fn json_text_value(v: JsonValueV) -> Option<Seq<char>> {
    match v.kind {
        JsonKindV::Null => None,
        JsonKindV::Str(s) => Some(s),
        JsonKindV::Bool(b) => Some(
            if b {
                "1"@
            } else {
                "0"@
            },
        ),
        _ => Some(v.text),
    }
}

/// The value of member `key` of a stored meta object, as text.
pub open spec fn meta_bucket(meta: Option<Seq<char>>, key: Seq<char>) -> Option<Seq<char>> {
    match meta {
        None => None,
        Some(m) => match json_parse_of(m) {
            Err(_) => None,
            Ok(doc) => match field_index(doc.fields, key) {
                None => None,
                Some(i) => json_text_value(doc.fields[i].1),
            },
        },
    }
}

/// The bucket of an entry: none for `total`, the date, week or month of its
/// movement time, its group, or the value of a meta key.
pub open spec fn bucket_spec(by: PnlBucketV, e: EntryV) -> Option<Seq<char>> {
    match by {
        PnlBucketV::Total => None,
        PnlBucketV::Day => Some(prefix_text(e.ts, 10)),
        PnlBucketV::Week => week_label_of(e.ts),
        PnlBucketV::Month => Some(prefix_text(e.ts, 7)),
        PnlBucketV::Group => e.group_id,
        PnlBucketV::Meta(k) => meta_bucket(e.meta, k),
    }
}

/// The kind an entry counts under: a reversal counts as what it reverses.
pub open spec fn pnl_kind(v: LedgerV, i: int) -> Kind {
    match v.entries[i].reverses_id {
        Some(r) => if 1 <= r <= v.entries.len() {
            v.entries[r - 1].kind
        } else {
            v.entries[i].kind
        },
        None => v.entries[i].kind,
    }
}

/// Capital movements, which PnL leaves out.
pub open spec fn is_capital(k: Kind) -> bool {
    k == Kind::Deposit || k == Kind::Withdrawal || k == Kind::Transfer
}

/// Entry `i` counts toward the PnL of `acc_id` within `[since, until]`.
pub open spec fn counted(
    v: LedgerV,
    acc_id: int,
    since: Option<Seq<char>>,
    until: Option<Seq<char>>,
    i: int,
) -> bool {
    let e = v.entries[i];
    &&& e.account_id == acc_id
    &&& !is_capital(pnl_kind(v, i))
    &&& (since matches Some(s) ==> seq_le(s, e.ts))
    &&& (until matches Some(u) ==> seq_le(e.ts, u))
}

/// The sum of the counted entries below `k` in bucket `b`, of kind `cat`
/// when given.
pub open spec fn pnl_sum(
    v: LedgerV,
    acc_id: int,
    since: Option<Seq<char>>,
    until: Option<Seq<char>>,
    by: PnlBucketV,
    b: Option<Seq<char>>,
    cat: Option<Kind>,
    k: int,
) -> int
    decreases k,
{
    if k <= 0 {
        0
    } else {
        pnl_sum(v, acc_id, since, until, by, b, cat, k - 1) + if counted(
            v,
            acc_id,
            since,
            until,
            k - 1,
        ) && bucket_spec(by, v.entries[k - 1]) == b && (cat matches Some(c) ==> pnl_kind(v, k - 1)
            == c) {
            v.entries[k - 1].amount
        } else {
            0
        }
    }
}

/// The sums a row shows: trades, settlements, fees, adjustments, other, net.
pub open spec fn categories() -> Seq<Option<Kind>> {
    seq![
        Some(Kind::Trade),
        Some(Kind::Settlement),
        Some(Kind::Fee),
        Some(Kind::Adjustment),
        Some(Kind::Other),
        None,
    ]
}

/// Every sum of bucket `b` fits in `i64`.
pub open spec fn bucket_fits(
    v: LedgerV,
    acc_id: int,
    since: Option<Seq<char>>,
    until: Option<Seq<char>>,
    by: PnlBucketV,
    b: Option<Seq<char>>,
) -> bool {
    forall|c: int|
        0 <= c < 6 ==> fits_i64(
            #[trigger] pnl_sum(
                v,
                acc_id,
                since,
                until,
                by,
                b,
                categories()[c],
                v.entries.len() as int,
            ),
        )
}

/// Every bucket of the account's counted entries has sums within `i64`.
pub open spec fn pnl_fits(
    v: LedgerV,
    acc_id: int,
    since: Option<Seq<char>>,
    until: Option<Seq<char>>,
    by: PnlBucketV,
) -> bool {
    &&& bucket_fits(v, acc_id, since, until, by, None)
    &&& forall|i: int|
        0 <= i < v.entries.len() && counted(v, acc_id, since, until, i) ==> bucket_fits(
            v,
            acc_id,
            since,
            until,
            by,
            #[trigger] bucket_spec(by, v.entries[i]),
        )
}

/// `r` is the row of bucket `b` at `d` decimals.
pub open spec fn row_is(
    r: PnlRow,
    v: LedgerV,
    acc_id: int,
    since: Option<Seq<char>>,
    until: Option<Seq<char>>,
    by: PnlBucketV,
    b: Option<Seq<char>>,
    d: nat,
) -> bool {
    let n = v.entries.len() as int;
    &&& ostr(r.bucket) == b
    &&& r.trades@ == amount_text(pnl_sum(v, acc_id, since, until, by, b, Some(Kind::Trade), n), d)
    &&& r.settlements@ == amount_text(
        pnl_sum(v, acc_id, since, until, by, b, Some(Kind::Settlement), n),
        d,
    )
    &&& r.fees@ == amount_text(pnl_sum(v, acc_id, since, until, by, b, Some(Kind::Fee), n), d)
    &&& r.adjustments@ == amount_text(
        pnl_sum(v, acc_id, since, until, by, b, Some(Kind::Adjustment), n),
        d,
    )
    &&& r.other@ == amount_text(pnl_sum(v, acc_id, since, until, by, b, Some(Kind::Other), n), d)
    &&& r.net@ == amount_text(pnl_sum(v, acc_id, since, until, by, b, None, n), d)
    &&& r.open_value is None
    &&& r.mtm@ == r.net@
}

/// Buckets in row order: no bucket first, then by text.
pub open spec fn bucket_lt(a: Option<Seq<char>>, b: Option<Seq<char>>) -> bool {
    match (a, b) {
        (None, Some(_)) => true,
        (Some(x), Some(y)) => seq_lt(x, y),
        _ => false,
    }
}

/// Some counted entry falls in bucket `b`.
pub open spec fn bucket_used(
    v: LedgerV,
    acc_id: int,
    since: Option<Seq<char>>,
    until: Option<Seq<char>>,
    by: PnlBucketV,
    b: Option<Seq<char>>,
) -> bool {
    exists|i: int|
        0 <= i < v.entries.len() && counted(v, acc_id, since, until, i) && #[trigger] bucket_spec(
            by,
            v.entries[i],
        ) == b
}

/// Some row shows bucket `b`.
pub open spec fn bucket_listed(rows: Seq<PnlRow>, b: Option<Seq<char>>) -> bool {
    exists|k: int| 0 <= k < rows.len() && ostr((#[trigger] rows[k]).bucket) == b
}

/// The rows of one account: with `total`, the one row of everything; else one
/// row per bucket of its counted entries, in bucket order.
pub open spec fn rows_are(
    v: LedgerV,
    acc_id: int,
    since: Option<Seq<char>>,
    until: Option<Seq<char>>,
    by: PnlBucketV,
    d: nat,
    rows: Seq<PnlRow>,
) -> bool {
    if by is Total {
        rows.len() == 1 && row_is(rows[0], v, acc_id, since, until, by, None, d)
    } else {
        &&& forall|k: int, l: int|
            0 <= k < l < rows.len() ==> bucket_lt(ostr(rows[k].bucket), ostr(rows[l].bucket))
        &&& forall|k: int|
            0 <= k < rows.len() ==> row_is(
                #[trigger] rows[k],
                v,
                acc_id,
                since,
                until,
                by,
                ostr(rows[k].bucket),
                d,
            ) && bucket_used(v, acc_id, since, until, by, ostr(rows[k].bucket))
        &&& forall|i: int|
            0 <= i < v.entries.len() && counted(v, acc_id, since, until, i) ==> bucket_listed(
                rows,
                #[trigger] bucket_spec(by, v.entries[i]),
            )
    }
}

/// `p` is `pnl`'s PnL of account `a`.
pub open spec fn account_pnl_is(
    x: AccountPnl,
    v: LedgerV,
    a: int,
    since: Option<Seq<char>>,
    until: Option<Seq<char>>,
    by: PnlBucketV,
) -> bool {
    let acc = v.accounts[a];
    &&& x.account@ == acc.name
    &&& x.currency@ == acc.currency
    &&& rows_are(v, a + 1, since, until, by, acc.decimals, x.rows@)
}

/// The accounts `pnl` reports on, at positions of `p`: the named one, or
/// every account in list order.
pub open spec fn pnl_accounts(v: LedgerV, a: Option<int>, p: Seq<int>) -> bool {
    match a {
        Some(i) => p == seq![i],
        None => {
            &&& p.len() == v.accounts.len()
            &&& forall|k: int| 0 <= k < p.len() ==> 0 <= #[trigger] p[k] < v.accounts.len()
            &&& forall|k: int, l: int|
                0 <= k < l < p.len() ==> key_lt(
                    account_key(v.accounts[p[k]]),
                    account_key(v.accounts[p[l]]),
                )
        },
    }
}

/// `list` is the PnL of the accounts at `p`, in that order.
pub open spec fn pnl_listed(
    v: LedgerV,
    a: Option<int>,
    since: Option<Seq<char>>,
    until: Option<Seq<char>>,
    by: PnlBucketV,
    list: Seq<AccountPnl>,
    p: Seq<int>,
) -> bool {
    &&& pnl_accounts(v, a, p)
    &&& list.len() == p.len()
    &&& forall|k: int| 0 <= k < p.len() ==> account_pnl_is(#[trigger] list[k], v, p[k], since, until, by)
}

/// A `PnlFilter` by its values.
pub struct PnlFilterV {
    pub since: Option<Seq<char>>,
    pub until: Option<Seq<char>>,
    pub by: PnlBucketV,
}

/// The arguments of `pnl` checked in order: the account when named, since, until.
pub open spec fn pnl_args(v: LedgerV, account: Option<Seq<char>>, f: PnlFilterV) -> Result<
    (Option<int>, Option<Seq<char>>, Option<Seq<char>>),
    ErrorV,
> {
    let chosen: Result<Option<int>, ErrorV> = match account {
        Some(n) => match account_lookup(v, n) {
            Ok(a) => Ok(Some(a)),
            Err(e) => Err(e),
        },
        None => Ok(None),
    };
    match chosen {
        Err(e) => Err(e),
        Ok(a) => match opt_ts_spec(f.since) {
            Err(e) => Err(e),
            Ok(since) => match opt_ts_spec(f.until) {
                Err(e) => Err(e),
                Ok(until) => Ok((a, since, until)),
            },
        },
    }
}

/// Some account `pnl` reports on has a sum that leaves `i64`.
pub open spec fn pnl_overflows(
    v: LedgerV,
    a: Option<int>,
    since: Option<Seq<char>>,
    until: Option<Seq<char>>,
    by: PnlBucketV,
) -> bool {
    exists|i: int|
        0 <= i < v.accounts.len() && (a matches Some(j) ==> i == j) && !#[trigger] pnl_fits(
            v,
            i + 1,
            since,
            until,
            by,
        )
}

/// What `pnl` returns.
pub open spec fn pnl_post(
    v: LedgerV,
    account: Option<Seq<char>>,
    f: PnlFilterV,
    r: Result<Vec<AccountPnl>, LedgerError>,
) -> bool {
    match pnl_args(v, account, f) {
        Err(e) => r matches Err(x) && x.view() == e,
        Ok((a, since, until)) => if pnl_overflows(v, a, since, until, f.by) {
            r matches Err(x) && x.view() == overflow_error()
        } else {
            r matches Ok(list) && exists|p: Seq<int>|
                #[trigger] pnl_listed(v, a, since, until, f.by, list@, p)
        },
    }
}

/// What the reporting part of `pnl` returns: the PnL of the accounts at
/// `chosen`, in that order, and the normalized period.
pub open spec fn pnl_parts_post(
    v: LedgerV,
    account: Option<Seq<char>>,
    f: PnlFilterV,
    r: Result<(Vec<AccountPnl>, Vec<usize>, Option<String>, Option<String>), LedgerError>,
) -> bool {
    match pnl_args(v, account, f) {
        Err(e) => r matches Err(x) && x.view() == e,
        Ok((a, since, until)) => if pnl_overflows(v, a, since, until, f.by) {
            r matches Err(x) && x.view() == overflow_error()
        } else {
            r matches Ok((list, chosen, s, u)) && ostr(s) == since && ostr(u) == until && pnl_listed(
                v,
                a,
                since,
                until,
                f.by,
                list@,
                usizes(chosen@),
            ) && (a is None ==> forall|j: int|
                0 <= j < v.accounts.len() ==> #[trigger] chosen@.contains(j as usize)) && (forall|
                j: int,
            | 0 <= j < chosen@.len() ==> (#[trigger] chosen@[j]) < v.accounts.len())
        },
    }
}

/// Which entries `pnl` reports on and how it buckets them.
#[derive(Clone, Debug)]
pub struct PnlFilter {
    pub since: Option<String>,
    pub until: Option<String>,
    pub by: PnlBucket,
}

impl PnlFilter {
    pub open spec fn view(&self) -> PnlFilterV {
        PnlFilterV { since: ostr(self.since), until: ostr(self.until), by: self.by.view() }
    }
}


/// The sort key of a bucket: none before every text, texts in their order.
pub open spec fn bucket_key(b: Option<Seq<char>>) -> Seq<char> {
    match b {
        None => Seq::empty(),
        Some(s) => seq!['b'] + s,
    }
}

proof fn lemma_bucket_key(a: Option<Seq<char>>, b: Option<Seq<char>>)
    ensures
        bucket_lt(a, b) == seq_lt(bucket_key(a), bucket_key(b)),
        (bucket_key(a) == bucket_key(b)) == (a == b),
{
    match (a, b) {
        (Some(x), Some(y)) => {
            assert((seq!['b'] + x).drop_first() =~= x);
            assert((seq!['b'] + y).drop_first() =~= y);
            assert((seq!['b'] + x)[0] == 'b');
            assert((seq!['b'] + y)[0] == 'b');
            if bucket_key(a) == bucket_key(b) {
                assert(x == y);
            }
        },
        (None, Some(y)) => {
            assert((seq!['b'] + y).len() > 0);
        },
        (Some(x), None) => {
            assert((seq!['b'] + x).len() > 0);
        },
        (None, None) => {},
    }
}

proof fn lemma_pnl_sum_unused(
    v: LedgerV,
    acc_id: int,
    since: Option<Seq<char>>,
    until: Option<Seq<char>>,
    by: PnlBucketV,
    b: Option<Seq<char>>,
    cat: Option<Kind>,
    k: int,
)
    requires
        k <= v.entries.len(),
        forall|i: int|
            0 <= i < k && counted(v, acc_id, since, until, i) ==> #[trigger] bucket_spec(
                by,
                v.entries[i],
            ) != b,
    ensures
        pnl_sum(v, acc_id, since, until, by, b, cat, k) == 0,
    decreases k,
{
    if k > 0 {
        lemma_pnl_sum_unused(v, acc_id, since, until, by, b, cat, k - 1);
    }
}

/// The text form of an optional bucket as its sort key.
fn bucket_key_of(b: &Option<String>) -> (r: Vec<char>)
    ensures
        r@ == bucket_key(ostr(*b)),
{
    match b {
        None => Vec::new(),
        Some(s) => {
            let mut r: Vec<char> = Vec::new();
            r.push('b');
            crate::text::push_str(&mut r, s.as_str());
            assert(r@ =~= seq!['b'] + s@);
            r
        },
    }
}

/// The bucket a sort key stands for.
fn bucket_from_key(k: &Vec<char>, b: Ghost<Option<Seq<char>>>) -> (r: Option<String>)
    requires
        k@ == bucket_key(b@),
    ensures
        ostr(r) == b@,
{
    if k.len() == 0 {
        proof {
            if let Some(s) = b@ {
                assert(bucket_key(b@).len() > 0);
            }
        }
        None
    } else {
        let rest = chars_skip(k, 1);
        proof {
            if let Some(s) = b@ {
                assert(k@.skip(1) =~= s);
            }
        }
        Some(from_chars(&rest))
    }
}

/// Two optional texts are equal.
pub(crate) fn opt_text_eq(a: &Option<String>, b: &Option<String>) -> (r: bool)
    ensures
        r == (ostr(*a) == ostr(*b)),
{
    match (a, b) {
        (Some(x), Some(y)) => str_eq(x.as_str(), y.as_str()),
        (None, None) => true,
        _ => false,
    }
}

impl PnlBucket {
    /// A bucket name: `total`, `day`, `week`, `month`, `group` or `meta:<key>`.
    pub fn parse(text: &str) -> (r: Result<PnlBucket, LedgerError>)
        ensures
            match parse_bucket_spec(text@) {
                Ok(b) => r matches Ok(x) && x.view() == b,
                Err(e) => r matches Err(x) && x.view() == e,
            },
    {
        let tc = trim_chars(&to_chars(text));
        let t = from_chars(&tc);
        proof {
            reveal_strlit("total");
            reveal_strlit("day");
            reveal_strlit("week");
            reveal_strlit("month");
            reveal_strlit("group");
            reveal_strlit("meta:");
        }
        if str_eq(t.as_str(), "total") {
            return Ok(PnlBucket::Total);
        }
        if str_eq(t.as_str(), "day") {
            return Ok(PnlBucket::Day);
        }
        if str_eq(t.as_str(), "week") {
            return Ok(PnlBucket::Week);
        }
        if str_eq(t.as_str(), "month") {
            return Ok(PnlBucket::Month);
        }
        if str_eq(t.as_str(), "group") {
            return Ok(PnlBucket::Group);
        }
        if tc.len() > 5 {
            let head = chars_range(&tc, 0, 5);
            if chars_eq(&head, &to_chars("meta:")) {
                assert(head@ =~= tc@.take(5));
                let mut ok = true;
                let mut i: usize = 5;
                while i < tc.len()
                    invariant
                        5 <= i <= tc@.len(),
                        ok == forall|j: int| 5 <= j < i ==> is_key_char(#[trigger] tc@[j]),
                    decreases tc@.len() - i,
                {
                    let c = tc[i];
                    let good = ('a' <= c && c <= 'z') || ('A' <= c && c <= 'Z') || ('0' <= c && c
                        <= '9') || c == '_';
                    proof {
                        if !good {
                            assert(!is_key_char(tc@[i as int]));
                        }
                    }
                    ok = ok && good;
                    i = i + 1;
                }
                if ok {
                    let key = chars_skip(&tc, 5);
                    return Ok(PnlBucket::Meta(from_chars(&key)));
                }
            } else {
                assert(head@ == tc@.take(5));
            }
        }
        Err(LedgerError::InvalidBucket(t))
    }

    /// The bucket of a stored entry.
    pub(crate) fn bucket_of(&self, e: &super::EntryRow) -> (r: Option<String>)
        ensures
            ostr(r) == bucket_spec(self.view(), e.view()),
    {
        match self {
            PnlBucket::Total => None,
            PnlBucket::Day => Some(prefix_of(e.ts.as_str(), 10)),
            PnlBucket::Week => week_label(e.ts.as_str()),
            PnlBucket::Month => Some(prefix_of(e.ts.as_str(), 7)),
            PnlBucket::Group => super::copy_opt(&e.group_id),
            PnlBucket::Meta(key) => match &e.meta {
                None => None,
                Some(m) => match parse_json(m.as_str()) {
                    Err(_) => None,
                    Ok(doc) => match find_field(&doc, key.as_str()) {
                        None => None,
                        Some(x) => {
                            proof {
                                reveal_strlit("1");
                                reveal_strlit("0");
                            }
                            match x.kind {
                                JsonKind::Null => None,
                                JsonKind::Str(s) => Some(s),
                                JsonKind::Bool(b) => Some(
                                    if b {
                                        copy_str("1")
                                    } else {
                                        copy_str("0")
                                    },
                                ),
                                _ => Some(x.text),
                            }
                        },
                    },
                },
            },
        }
    }
}

/// The first `n` characters of `s`, or all of it.
fn prefix_of(s: &str, n: usize) -> (r: String)
    ensures
        r@ == prefix_text(s@, n as nat),
{
    let c = to_chars(s);
    if c.len() <= n {
        from_chars(&c)
    } else {
        from_chars(&chars_range(&c, 0, n))
    }
}

impl Ledger {
    /// The kind entry `i` counts under.
    fn pnl_kind_at(&self, i: usize) -> (r: Kind)
        requires
            self.wf(),
            i < self@.entries.len(),
        ensures
            r == pnl_kind(self@, i as int),
    {
        let e = &self.entries[i];
        assert(self@.entries[i as int] == e.view());
        match e.reverses_id {
            Some(r) => if 1 <= r && r as u64 <= self.entries.len() as u64 {
                assert(self@.entries[r - 1] == self.entries@[r - 1].view());
                self.entries[(r - 1) as usize].kind
            } else {
                e.kind
            },
            None => e.kind,
        }
    }

    /// Whether entry `i` counts toward the PnL of account `a`.
    pub(crate) fn counted_at(&self, a: usize, since: &Option<String>, until: &Option<String>, i: usize) -> (r:
        bool)
        requires
            self.wf(),
            a < self@.accounts.len(),
            i < self@.entries.len(),
        ensures
            r == counted(self@, a + 1, ostr(*since), ostr(*until), i as int),
    {
        let e = &self.entries[i];
        assert(self@.entries[i as int] == e.view());
        let k = self.pnl_kind_at(i);
        let capital = match k {
            Kind::Deposit | Kind::Withdrawal | Kind::Transfer => true,
            _ => false,
        };
        e.account_id == a as i64 + 1 && !capital && match since {
            Some(s) => str_le(s.as_str(), e.ts.as_str()),
            None => true,
        } && match until {
            Some(u) => str_le(e.ts.as_str(), u.as_str()),
            None => true,
        }
    }

    /// One sum of a bucket: the counted entries in bucket `b`, of kind `cat`
    /// when given.
    fn bucket_sum(
        &self,
        a: usize,
        since: &Option<String>,
        until: &Option<String>,
        by: &PnlBucket,
        cnt: &Vec<bool>,
        buckets: &Vec<Option<String>>,
        b: &Option<String>,
        cat: Option<Kind>,
    ) -> (r: i128)
        requires
            self.wf(),
            a < self@.accounts.len(),
            cnt@.len() == self@.entries.len(),
            buckets@.len() == self@.entries.len(),
            forall|i: int|
                0 <= i < cnt@.len() ==> #[trigger] cnt@[i] == counted(
                    self@,
                    a + 1,
                    ostr(*since),
                    ostr(*until),
                    i,
                ),
            forall|i: int|
                0 <= i < buckets@.len() ==> ostr(#[trigger] buckets@[i]) == bucket_spec(
                    by.view(),
                    self@.entries[i],
                ),
        ensures
            r == pnl_sum(
                self@,
                a + 1,
                ostr(*since),
                ostr(*until),
                by.view(),
                ostr(*b),
                cat,
                self@.entries.len() as int,
            ),
    {
        let ghost v = self@;
        let mut sum: i128 = 0;
        let mut i: usize = 0;
        while i < self.entries.len()
            invariant
                self.wf(),
                self@ == v,
                a < v.accounts.len(),
                i <= self.entries.len(),
                cnt@.len() == v.entries.len(),
                buckets@.len() == v.entries.len(),
                forall|j: int|
                    0 <= j < cnt@.len() ==> #[trigger] cnt@[j] == counted(
                        v,
                        a + 1,
                        ostr(*since),
                        ostr(*until),
                        j,
                    ),
                forall|j: int|
                    0 <= j < buckets@.len() ==> ostr(#[trigger] buckets@[j]) == bucket_spec(
                        by.view(),
                        v.entries[j],
                    ),
                sum == pnl_sum(v, a + 1, ostr(*since), ostr(*until), by.view(), ostr(*b), cat, i as int),
                -(i as int) * 0x8000_0000_0000_0000 <= sum <= (i as int) * 0x8000_0000_0000_0000,
            decreases self.entries.len() - i,
        {
            assert(v.entries[i as int] == self.entries@[i as int].view());
            let in_cat = match cat {
                Some(c) => self.pnl_kind_at(i) == c,
                None => true,
            };
            if cnt[i] && opt_text_eq(&buckets[i], b) && in_cat {
                sum = sum + self.entries[i].amount as i128;
            }
            i = i + 1;
        }
        sum
    }

    /// The row of bucket `b` of account `a`, or the overflow error.
    fn pnl_row(
        &self,
        a: usize,
        since: &Option<String>,
        until: &Option<String>,
        by: &PnlBucket,
        cnt: &Vec<bool>,
        buckets: &Vec<Option<String>>,
        b: Option<String>,
    ) -> (r: Result<PnlRow, LedgerError>)
        requires
            self.wf(),
            a < self@.accounts.len(),
            cnt@.len() == self@.entries.len(),
            buckets@.len() == self@.entries.len(),
            forall|i: int|
                0 <= i < cnt@.len() ==> #[trigger] cnt@[i] == counted(
                    self@,
                    a + 1,
                    ostr(*since),
                    ostr(*until),
                    i,
                ),
            forall|i: int|
                0 <= i < buckets@.len() ==> ostr(#[trigger] buckets@[i]) == bucket_spec(
                    by.view(),
                    self@.entries[i],
                ),
        ensures
            bucket_fits(self@, a + 1, ostr(*since), ostr(*until), by.view(), ostr(b)) ==> (r matches Ok(
                row,
            ) && row_is(
                row,
                self@,
                a + 1,
                ostr(*since),
                ostr(*until),
                by.view(),
                ostr(b),
                self@.accounts[a as int].decimals,
            )),
            !bucket_fits(self@, a + 1, ostr(*since), ostr(*until), by.view(), ostr(b)) ==> (r matches Err(
                x,
            ) && x.view() == overflow_error()),
    {
        let ghost v = self@;
        let ghost sp = (v, a + 1, ostr(*since), ostr(*until), by.view(), ostr(b));
        let d = self.accounts[a].decimals;
        assert(v.accounts[a as int] == self.accounts@[a as int].view());
        let mut vals: Vec<i64> = Vec::new();
        let mut c: usize = 0;
        while c < 6
            invariant
                self.wf(),
                self@ == v,
                a < v.accounts.len(),
                c <= 6,
                vals@.len() == c,
                cnt@.len() == v.entries.len(),
                buckets@.len() == v.entries.len(),
                forall|i: int|
                    0 <= i < cnt@.len() ==> #[trigger] cnt@[i] == counted(
                        v,
                        a + 1,
                        ostr(*since),
                        ostr(*until),
                        i,
                    ),
                forall|i: int|
                    0 <= i < buckets@.len() ==> ostr(#[trigger] buckets@[i]) == bucket_spec(
                        by.view(),
                        v.entries[i],
                    ),
                forall|j: int|
                    0 <= j < c ==> #[trigger] vals@[j] == pnl_sum(
                        v,
                        a + 1,
                        ostr(*since),
                        ostr(*until),
                        by.view(),
                        ostr(b),
                        categories()[j],
                        v.entries.len() as int,
                    ),
            decreases 6 - c,
        {
            let cat = if c == 0 {
                Some(Kind::Trade)
            } else if c == 1 {
                Some(Kind::Settlement)
            } else if c == 2 {
                Some(Kind::Fee)
            } else if c == 3 {
                Some(Kind::Adjustment)
            } else if c == 4 {
                Some(Kind::Other)
            } else {
                None
            };
            assert(cat == categories()[c as int]);
            let x = self.bucket_sum(a, since, until, by, cnt, buckets, &b, cat);
            if x < i64::MIN as i128 || x > i64::MAX as i128 {
                assert(!fits_i64(
                    pnl_sum(
                        v,
                        a + 1,
                        ostr(*since),
                        ostr(*until),
                        by.view(),
                        ostr(b),
                        categories()[c as int],
                        v.entries.len() as int,
                    ),
                ));
                return Err(LedgerError::Db(copy_str("integer overflow")));
            }
            vals.push(x as i64);
            c = c + 1;
        }
        let net = format_amount(vals[5], d);
        let mtm = copy_str(net.as_str());
        Ok(
            PnlRow {
                bucket: b,
                trades: format_amount(vals[0], d),
                settlements: format_amount(vals[1], d),
                fees: format_amount(vals[2], d),
                adjustments: format_amount(vals[3], d),
                other: format_amount(vals[4], d),
                net,
                open_value: None,
                mtm,
            },
        )
    }
}


impl Ledger {
    /// The PnL of account `a`, or the overflow error.
    fn account_pnl(&self, a: usize, since: &Option<String>, until: &Option<String>, by: &PnlBucket) -> (r:
        Result<AccountPnl, LedgerError>)
        requires
            self.wf(),
            a < self@.accounts.len(),
        ensures
            pnl_fits(self@, a + 1, ostr(*since), ostr(*until), by.view()) ==> (r matches Ok(x)
                && account_pnl_is(x, self@, a as int, ostr(*since), ostr(*until), by.view())),
            !pnl_fits(self@, a + 1, ostr(*since), ostr(*until), by.view()) ==> (r matches Err(x)
                && x.view() == overflow_error()),
    {
        let ghost v = self@;
        let ghost sn = ostr(*since);
        let ghost un = ostr(*until);
        let ghost bv = by.view();
        let n = self.entries.len();
        let mut cnt: Vec<bool> = Vec::new();
        let mut buckets: Vec<Option<String>> = Vec::new();
        let mut i: usize = 0;
        while i < n
            invariant
                self.wf(),
                self@ == v,
                sn == ostr(*since),
                un == ostr(*until),
                bv == by.view(),
                n == v.entries.len(),
                a < v.accounts.len(),
                i <= n,
                cnt@.len() == i,
                buckets@.len() == i,
                forall|j: int| 0 <= j < i ==> #[trigger] cnt@[j] == counted(v, a + 1, sn, un, j),
                forall|j: int| 0 <= j < i ==> ostr(#[trigger] buckets@[j]) == bucket_spec(bv, v.entries[j]),
            decreases n - i,
        {
            let c = self.counted_at(a, since, until, i);
            assert(c == counted(v, a + 1, sn, un, i as int));
            cnt.push(c);
            assert(v.entries[i as int] == self.entries@[i as int].view());
            let bk = by.bucket_of(&self.entries[i]);
            assert(ostr(bk) == bucket_spec(bv, v.entries[i as int]));
            buckets.push(bk);
            assert(cnt@[i as int] == counted(v, a + 1, sn, un, i as int));
            assert(ostr(buckets@[i as int]) == bucket_spec(bv, v.entries[i as int]));
            i = i + 1;
        }
        let acc = &self.accounts[a];
        assert(v.accounts[a as int] == acc.view());
        let mut rows: Vec<PnlRow> = Vec::new();
        if matches!(by, PnlBucket::Total) {
            proof {
                assert forall|j: int| 0 <= j < n && counted(v, a + 1, sn, un, j) implies bucket_fits(
                    v,
                    a + 1,
                    sn,
                    un,
                    bv,
                    #[trigger] bucket_spec(bv, v.entries[j]),
                ) == bucket_fits(v, a + 1, sn, un, bv, None) by {}
            }
            match self.pnl_row(a, since, until, by, &cnt, &buckets, None) {
                Ok(row) => rows.push(row),
                Err(e) => return Err(e),
            }
            let x = AccountPnl {
                account: copy_str(acc.name.as_str()),
                currency: copy_str(acc.currency.as_str()),
                rows,
            };
            return Ok(x);
        }
        let mut keys: Vec<(Vec<char>, i64)> = Vec::new();
        let ghost mut src: Seq<int> = Seq::empty();
        let mut i: usize = 0;
        while i < n
            invariant
                self.wf(),
                self@ == v,
                sn == ostr(*since),
                un == ostr(*until),
                bv == by.view(),
                n == v.entries.len(),
                i <= n,
                cnt@.len() == n,
                buckets@.len() == n,
                keys@.len() == src.len(),
                forall|j: int| 0 <= j < n ==> #[trigger] cnt@[j] == counted(v, a + 1, sn, un, j),
                forall|j: int| 0 <= j < n ==> ostr(#[trigger] buckets@[j]) == bucket_spec(bv, v.entries[j]),
                forall|m: int|
                    0 <= m < src.len() ==> 0 <= #[trigger] src[m] < i && counted(v, a + 1, sn, un, src[m])
                        && keys@[m].0@ == bucket_key(bucket_spec(bv, v.entries[src[m]])) && keys@[m].1
                        == src[m] + 1,
                forall|m: int, l: int| 0 <= m < l < src.len() ==> src[m] < src[l],
                forall|j: int|
                    0 <= j < i && #[trigger] counted(v, a + 1, sn, un, j) ==> exists|m: int|
                        0 <= m < src.len() && #[trigger] src[m] == j,
            decreases n - i,
        {
            let ghost before = src;
            if cnt[i] {
                let k = bucket_key_of(&buckets[i]);
                keys.push((k, (i + 1) as i64));
                proof {
                    src = src.push(i as int);
                    assert(src[src.len() - 1] == i);
                }
            }
            proof {
                assert forall|j: int|
                    0 <= j < i + 1 && #[trigger] counted(v, a + 1, sn, un, j) implies exists|m: int|
                        0 <= m < src.len() && #[trigger] src[m] == j by {
                    if j < i {
                        let m = choose|m: int| 0 <= m < before.len() && #[trigger] before[m] == j;
                        assert(src[m] == j);
                    } else {
                        assert(src[src.len() - 1] == j);
                    }
                }
            }
            i = i + 1;
        }
        proof {
            assert forall|x: int, y: int|
                0 <= x < keys@.len() && 0 <= y < keys@.len() && x != y implies keys@[x].1
                != keys@[y].1 by {
                if x < y {
                    assert(src[x] < src[y]);
                } else {
                    assert(src[y] < src[x]);
                }
            }
        }
        let texts = crate::sort::distinct_texts(&keys);
        let mut k: usize = 0;
        while k < texts.len()
            invariant
                self.wf(),
                self@ == v,
                sn == ostr(*since),
                un == ostr(*until),
                bv == by.view(),
                n == v.entries.len(),
                a < v.accounts.len(),
                acc.view() == v.accounts[a as int],
                !(bv is Total),
                k <= texts@.len(),
                rows@.len() == k,
                cnt@.len() == n,
                buckets@.len() == n,
                keys@.len() == src.len(),
                forall|j: int| 0 <= j < n ==> #[trigger] cnt@[j] == counted(v, a + 1, sn, un, j),
                forall|j: int| 0 <= j < n ==> ostr(#[trigger] buckets@[j]) == bucket_spec(bv, v.entries[j]),
                forall|m: int|
                    0 <= m < src.len() ==> 0 <= #[trigger] src[m] < n && counted(v, a + 1, sn, un, src[m])
                        && keys@[m].0@ == bucket_key(bucket_spec(bv, v.entries[src[m]])),
                forall|x: int, y: int| 0 <= x < y < texts@.len() ==> seq_lt(texts@[x]@, texts@[y]@),
                forall|x: int| 0 <= x < texts@.len() ==> crate::sort::text_from_keys(keys@, (#[trigger] texts@[x])@),
                forall|m: int|
                    0 <= m < k ==> bucket_key(ostr((#[trigger] rows@[m]).bucket)) == texts@[m]@ && row_is(
                        rows@[m],
                        v,
                        a + 1,
                        sn,
                        un,
                        bv,
                        ostr(rows@[m].bucket),
                        v.accounts[a as int].decimals,
                    ) && bucket_used(v, a + 1, sn, un, bv, ostr(rows@[m].bucket)) && bucket_fits(
                        v,
                        a + 1,
                        sn,
                        un,
                        bv,
                        ostr(rows@[m].bucket),
                    ),
            decreases texts@.len() - k,
        {
            assert(crate::sort::text_from_keys(keys@, texts@[k as int]@));
            let ghost j = choose|j: int| 0 <= j < keys@.len() && (#[trigger] keys@[j]).0@ == texts@[k as int]@;
            let ghost b = bucket_spec(bv, v.entries[src[j]]);
            let bk = bucket_from_key(&texts[k], Ghost(b));
            proof {
                assert(bucket_used(v, a + 1, sn, un, bv, b)) by {
                    assert(bucket_spec(bv, v.entries[src[j]]) == b);
                }
            }
            match self.pnl_row(a, since, until, by, &cnt, &buckets, bk) {
                Ok(row) => rows.push(row),
                Err(e) => {
                    proof {
                        let i = src[j];
                        assert(counted(v, a + 1, sn, un, i));
                        assert(!bucket_fits(v, a + 1, sn, un, bv, bucket_spec(bv, v.entries[i])));
                    }
                    return Err(e);
                },
            }
            k = k + 1;
        }
        proof {
            assert forall|x: int, y: int| 0 <= x < y < rows@.len() implies bucket_lt(
                ostr(rows@[x].bucket),
                ostr(rows@[y].bucket),
            ) by {
                lemma_bucket_key(ostr(rows@[x].bucket), ostr(rows@[y].bucket));
            }
            assert forall|i: int| 0 <= i < n && counted(v, a + 1, sn, un, i) implies bucket_listed(
                rows@,
                #[trigger] bucket_spec(bv, v.entries[i]),
            ) by {
                let m = choose|m: int| 0 <= m < src.len() && #[trigger] src[m] == i;
                assert(has_text(texts@, keys@[m].0@));
                let x = choose|x: int| 0 <= x < texts@.len() && (#[trigger] texts@[x])@ == keys@[m].0@;
                lemma_bucket_key(ostr(rows@[x].bucket), bucket_spec(bv, v.entries[i]));
            }
            assert(rows_are(v, a + 1, sn, un, bv, acc.decimals as nat, rows@));
            // every bucket fits: the used ones were computed, the unused sum to zero
            assert forall|i: int| 0 <= i < n && counted(v, a + 1, sn, un, i) implies bucket_fits(
                v,
                a + 1,
                sn,
                un,
                bv,
                #[trigger] bucket_spec(bv, v.entries[i]),
            ) by {
                assert(bucket_listed(rows@, bucket_spec(bv, v.entries[i])));
                let x = choose|x: int| 0 <= x < rows@.len() && ostr((#[trigger] rows@[x]).bucket) == bucket_spec(bv, v.entries[i]);
                assert(row_is(rows@[x], v, a + 1, sn, un, bv, ostr(rows@[x].bucket), acc.decimals as nat));
            }
            if !bucket_fits(v, a + 1, sn, un, bv, None) {
                if bucket_used(v, a + 1, sn, un, bv, None) {
                    let i = choose|i: int| 0 <= i < n && counted(v, a + 1, sn, un, i) && #[trigger] bucket_spec(bv, v.entries[i]) == None::<Seq<char>>;
                    assert(bucket_fits(v, a + 1, sn, un, bv, bucket_spec(bv, v.entries[i])));
                } else {
                    assert forall|c: int| 0 <= c < 6 implies fits_i64(#[trigger] pnl_sum(v, a + 1, sn, un, bv, None, categories()[c], n as int)) by {
                        lemma_pnl_sum_unused(v, a + 1, sn, un, bv, None, categories()[c], n as int);
                    }
                }
            }
        }
        Ok(
            AccountPnl {
                account: copy_str(acc.name.as_str()),
                currency: copy_str(acc.currency.as_str()),
                rows,
            },
        )
    }
}


impl Ledger {
    /// Realized cash PnL of one account or of every account, bucketed as
    /// `filter.by` says; deposits, withdrawals and transfers, and reversals
    /// of them, are left out.
    pub fn pnl(&self, account: Option<&str>, filter: &PnlFilter) -> (r: Result<Vec<AccountPnl>, LedgerError>)
        requires
            self.wf(),
        ensures
            pnl_post(self@, super::oref(account), filter.view(), r),
    {
        let ghost args = pnl_args(self@, super::oref(account), filter.view());
        match self.pnl_parts(account, filter) {
            Ok((list, chosen, since, until)) => {
                let r: Result<Vec<AccountPnl>, LedgerError> = Ok(list);
                proof {
                    let (a, sn, un) = args->Ok_0;
                    assert(pnl_listed(self@, a, sn, un, filter.view().by, list@, usizes(chosen@)));
                    assert(r matches Ok(l) && l@ == list@);
                }
                r
            },
            Err(e) => Err(e),
        }
    }

    /// The accounts `pnl` reports on, in order, their PnL and the normalized
    /// period.
    pub(crate) fn pnl_parts(&self, account: Option<&str>, filter: &PnlFilter) -> (r: Result<
        (Vec<AccountPnl>, Vec<usize>, Option<String>, Option<String>),
        LedgerError,
    >)
        requires
            self.wf(),
        ensures
            pnl_parts_post(self@, super::oref(account), filter.view(), r),
    {
        let ghost v = self@;
        let chosen: Vec<usize> = match account {
            Some(name) => match self.account_by_name(name) {
                Ok(a) => vec![a],
                Err(e) => return Err(e),
            },
            None => self.account_order(),
        };
        let ghost a_opt: Option<int> = match account {
            Some(name) => Some(chosen@[0] as int),
            None => None,
        };
        let since = match normalize_opt_ts(opt_str(&filter.since)) {
            Ok(x) => x,
            Err(e) => return Err(e),
        };
        let until = match normalize_opt_ts(opt_str(&filter.until)) {
            Ok(x) => x,
            Err(e) => return Err(e),
        };
        let ghost sn = ostr(since);
        let ghost un = ostr(until);
        let ghost bv = filter.by.view();
        let ghost p = chosen@.map_values(|x: usize| x as int);
        proof {
            if account is Some {
                assert(p =~= seq![chosen@[0] as int]);
            }
            assert(pnl_accounts(v, a_opt, p));
            assert(opt_ts_spec(filter.view().since) == Ok::<Option<Seq<char>>, ErrorV>(sn));
            assert(opt_ts_spec(filter.view().until) == Ok::<Option<Seq<char>>, ErrorV>(un));
        }
        let mut out: Vec<AccountPnl> = Vec::new();
        let mut k: usize = 0;
        while k < chosen.len()
            invariant
                self.wf(),
                self@ == v,
                sn == ostr(since),
                un == ostr(until),
                bv == filter.by.view(),
                p == chosen@.map_values(|x: usize| x as int),
                pnl_accounts(v, a_opt, p),
                (match super::oref(account) {
                    Some(n) => match account_lookup(v, n) {
                        Ok(a) => Ok(Some(a)),
                        Err(e) => Err(e),
                    },
                    None => Ok(None),
                }) == Ok::<Option<int>, ErrorV>(a_opt),
                opt_ts_spec(filter.view().since) == Ok::<Option<Seq<char>>, ErrorV>(sn),
                opt_ts_spec(filter.view().until) == Ok::<Option<Seq<char>>, ErrorV>(un),
                a_opt is None ==> forall|j: int| 0 <= j < v.accounts.len() ==> #[trigger] chosen@.contains(j as usize),
                forall|j: int| 0 <= j < chosen@.len() ==> (#[trigger] chosen@[j]) < v.accounts.len(),
                k <= chosen@.len(),
                out@.len() == k,
                forall|j: int| 0 <= j < k ==> account_pnl_is(#[trigger] out@[j], v, p[j], sn, un, bv),
                forall|j: int| 0 <= j < k ==> pnl_fits(v, #[trigger] p[j] + 1, sn, un, bv),
            decreases chosen@.len() - k,
        {
            let a = chosen[k];
            match self.account_pnl(a, &since, &until, &filter.by) {
                Ok(x) => {
                    proof {
                        if !pnl_fits(v, a + 1, sn, un, bv) {
                            assert(false);
                        }
                    }
                    out.push(x);
                },
                Err(e) => {
                    proof {
                        assert(p[k as int] == a as int);
                        assert(!pnl_fits(v, p[k as int] + 1, sn, un, bv));
                        assert(p.len() == chosen@.len());
                        if let Some(j) = a_opt {
                            assert(p =~= seq![j]);
                            assert(p[k as int] == j);
                        }
                        assert(0 <= p[k as int] < v.accounts.len());
                    }
                    let r: Result<
                        (Vec<AccountPnl>, Vec<usize>, Option<String>, Option<String>),
                        LedgerError,
                    > = Err(e);
                    assert(pnl_args(v, super::oref(account), filter.view()) == Ok::<
                        (Option<int>, Option<Seq<char>>, Option<Seq<char>>),
                        ErrorV,
                    >((a_opt, sn, un)));
                    assert(pnl_overflows(v, a_opt, sn, un, bv));
                    assert(pnl_parts_post(v, super::oref(account), filter.view(), r));
                    return r;
                },
            }
            k = k + 1;
        }
        proof {
            assert forall|i: int|
                0 <= i < v.accounts.len() && (a_opt matches Some(j) ==> i == j) implies #[trigger] pnl_fits(
                v,
                i + 1,
                sn,
                un,
                bv,
            ) by {
                if a_opt is None {
                    assert(chosen@.contains(i as usize));
                    let k = choose|k: int| 0 <= k < chosen@.len() && chosen@[k] == i as usize;
                    assert(p[k] == i);
                } else {
                    assert(p[0] == i);
                }
            }
            assert(pnl_listed(v, a_opt, sn, un, bv, out@, p));
        }
        assert(usizes(chosen@) == p);
        let r: Result<(Vec<AccountPnl>, Vec<usize>, Option<String>, Option<String>), LedgerError> = Ok(
            (out, chosen, since, until),
        );
        assert(pnl_args(v, super::oref(account), filter.view()) == Ok::<
            (Option<int>, Option<Seq<char>>, Option<Seq<char>>),
            ErrorV,
        >((a_opt, sn, un)));
        assert(!pnl_overflows(v, a_opt, sn, un, bv));
        assert(filter.view().by == bv);
        assert(pnl_parts_post(v, super::oref(account), filter.view(), r));
        r
    }
}

/// PnL sums over the first `k` entries agree between two books whose first
/// entries agree, kinds as counted included.
proof fn lemma_pnl_sum_same_prefix(
    v: LedgerV,
    w: LedgerV,
    acc_id: int,
    since: Option<Seq<char>>,
    until: Option<Seq<char>>,
    by: PnlBucketV,
    b: Option<Seq<char>>,
    cat: Option<Kind>,
    k: int,
)
    requires
        0 <= k <= v.entries.len() <= w.entries.len(),
        forall|i: int|
            0 <= i < v.entries.len() ==> #[trigger] w.entries[i] == v.entries[i] && pnl_kind(w, i)
                == pnl_kind(v, i),
    ensures
        pnl_sum(w, acc_id, since, until, by, b, cat, k) == pnl_sum(v, acc_id, since, until, by, b, cat, k),
    decreases k,
{
    if k > 0 {
        lemma_pnl_sum_same_prefix(v, w, acc_id, since, until, by, b, cat, k - 1);
        assert(w.entries[k - 1] == v.entries[k - 1]);
    }
}

/// An entry that counts as a capital movement (a deposit, withdrawal or
/// transfer, or the reversal of one) changes no PnL figure: every sum of
/// every account, period, bucket and category is what it was before.
pub proof fn lemma_capital_leaves_pnl(
    v: LedgerV,
    e: EntryV,
    acc_id: int,
    since: Option<Seq<char>>,
    until: Option<Seq<char>>,
    by: PnlBucketV,
    b: Option<Seq<char>>,
    cat: Option<Kind>,
)
    requires
        ledger_wf(v),
        is_capital(pnl_kind(with_entry(v, e), v.entries.len() as int)),
    ensures
        pnl_sum(with_entry(v, e), acc_id, since, until, by, b, cat, v.entries.len() + 1int) == pnl_sum(
            v,
            acc_id,
            since,
            until,
            by,
            b,
            cat,
            v.entries.len() as int,
        ),
{
    let w = with_entry(v, e);
    let n = v.entries.len() as int;
    assert forall|i: int| 0 <= i < n implies #[trigger] w.entries[i] == v.entries[i] && pnl_kind(w, i)
        == pnl_kind(v, i) by {
        assert(w.entries[i] == v.entries[i]);
        assert(v.entries[i].id == i + 1);
    }
    lemma_pnl_sum_same_prefix(v, w, acc_id, since, until, by, b, cat, n);
    assert(!counted(w, acc_id, since, until, n));
}

/// Entry `i` counts toward the sum of bucket `b` and category `cat`.
pub open spec fn pnl_counts(
    v: LedgerV,
    acc_id: int,
    since: Option<Seq<char>>,
    until: Option<Seq<char>>,
    by: PnlBucketV,
    b: Option<Seq<char>>,
    cat: Option<Kind>,
    i: int,
) -> bool {
    &&& counted(v, acc_id, since, until, i)
    &&& bucket_spec(by, v.entries[i]) == b
    &&& (cat matches Some(c) ==> pnl_kind(v, i) == c)
}

/// What the entries at `targets` contribute to the sum of bucket `b` and
/// category `cat`.
pub open spec fn pnl_targets_sum(
    v: LedgerV,
    targets: Seq<int>,
    acc_id: int,
    since: Option<Seq<char>>,
    until: Option<Seq<char>>,
    by: PnlBucketV,
    b: Option<Seq<char>>,
    cat: Option<Kind>,
) -> int
    decreases targets.len(),
{
    if targets.len() == 0 {
        0
    } else {
        pnl_targets_sum(v, targets.drop_last(), acc_id, since, until, by, b, cat) + if pnl_counts(
            v,
            acc_id,
            since,
            until,
            by,
            b,
            cat,
            targets.last(),
        ) {
            v.entries[targets.last()].amount
        } else {
            0
        }
    }
}

/// Reversals fold into what they reverse: after the reversals of `targets`
/// (entries that are not reversals themselves) are appended, every PnL sum
/// is what it was, less what the reversed entries contributed to that same
/// bucket and category. An entry and its reversal thus net to zero in every
/// day, week, month, group and meta row, under the kind of the entry it reverses.
#[verifier::spinoff_prover]
#[verifier::rlimit(50)]
pub proof fn lemma_reversal_folds(
    v: LedgerV,
    targets: Seq<int>,
    memo: Option<Seq<char>>,
    actor: Option<Seq<char>>,
    clock: Seq<char>,
    acc_id: int,
    since: Option<Seq<char>>,
    until: Option<Seq<char>>,
    by: PnlBucketV,
    b: Option<Seq<char>>,
    cat: Option<Kind>,
)
    requires
        ledger_wf(v),
        forall|j: int|
            0 <= j < targets.len() ==> 0 <= #[trigger] targets[j] < v.entries.len()
                && v.entries[targets[j]].reverses_id is None,
    ensures
        pnl_sum(
            with_reversals(v, targets, memo, actor, clock),
            acc_id,
            since,
            until,
            by,
            b,
            cat,
            (v.entries.len() + targets.len()) as int,
        ) == pnl_sum(v, acc_id, since, until, by, b, cat, v.entries.len() as int) - pnl_targets_sum(
            v,
            targets,
            acc_id,
            since,
            until,
            by,
            b,
            cat,
        ),
    decreases targets.len(),
{
    let n = v.entries.len() as int;
    if targets.len() == 0 {
        let w = with_reversals(v, targets, memo, actor, clock);
        assert(w.entries =~= v.entries);
        assert forall|i: int| 0 <= i < n implies #[trigger] w.entries[i] == v.entries[i] && pnl_kind(
            w,
            i,
        ) == pnl_kind(v, i) by {}
        lemma_pnl_sum_same_prefix(v, w, acc_id, since, until, by, b, cat, n);
    } else {
        let t2 = targets.drop_last();
        assert forall|j: int| 0 <= j < t2.len() implies 0 <= #[trigger] t2[j] < v.entries.len()
            && v.entries[t2[j]].reverses_id is None by {
            assert(t2[j] == targets[j]);
        }
        lemma_reversal_folds(v, t2, memo, actor, clock, acc_id, since, until, by, b, cat);
        let w = with_reversals(v, targets, memo, actor, clock);
        let w2 = with_reversals(v, t2, memo, actor, clock);
        let m = n + t2.len();
        let t = targets.last();
        assert(targets[targets.len() - 1] == t);
        let row = reversal_entry(v, t, m + 1, memo, actor, clock);
        assert(reversal_rows(v, targets, memo, actor, clock) =~= reversal_rows(
            v,
            t2,
            memo,
            actor,
            clock,
        ).push(row));
        assert(w.entries =~= w2.entries.push(row));
        assert forall|i: int| 0 <= i < m implies #[trigger] w.entries[i] == w2.entries[i] && pnl_kind(
            w,
            i,
        ) == pnl_kind(w2, i) by {
            assert(w.entries[i] == w2.entries[i]);
            if i < n {
                assert(v.entries[i].id == i + 1);
                assert(w.entries[i] == v.entries[i]);
            } else {
                let j = i - n;
                assert(w2.entries[i] == reversal_rows(v, t2, memo, actor, clock)[j]);
                assert(t2[j] == targets[j]);
            }
        }
        lemma_pnl_sum_same_prefix(w2, w, acc_id, since, until, by, b, cat, m);
        assert(w.entries[m] == row);
        assert(w.entries[t] == v.entries[t]);
        assert(pnl_kind(w, m) == v.entries[t].kind);
        assert(pnl_kind(v, t) == v.entries[t].kind);
        assert(counted(w, acc_id, since, until, m) == counted(v, acc_id, since, until, t));
        assert(bucket_spec(by, row) == bucket_spec(by, v.entries[t]));
        assert(pnl_counts(w, acc_id, since, until, by, b, cat, m) == pnl_counts(
            v,
            acc_id,
            since,
            until,
            by,
            b,
            cat,
            t,
        ));
    }
}

/// Entry `i` falls in the row of bucket `b`: it counts toward the PnL of
/// `acc_id` in the period and its bucket is `b`.
pub open spec fn in_row(
    v: LedgerV,
    acc_id: int,
    since: Option<Seq<char>>,
    until: Option<Seq<char>>,
    by: PnlBucketV,
    b: Option<Seq<char>>,
    i: int,
) -> bool {
    0 <= i < v.entries.len() && counted(v, acc_id, since, until, i) && bucket_spec(by, v.entries[i])
        == b
}

/// No entry of the row of bucket `b` counts as kind `c`.
pub open spec fn none_in_row(
    v: LedgerV,
    acc_id: int,
    since: Option<Seq<char>>,
    until: Option<Seq<char>>,
    by: PnlBucketV,
    b: Option<Seq<char>>,
    c: Kind,
) -> bool {
    forall|i: int| #[trigger] in_row(v, acc_id, since, until, by, b, i) ==> pnl_kind(v, i) != c
}

/// Every entry of the row of bucket `b` counts as kind `c`.
pub open spec fn all_in_row(
    v: LedgerV,
    acc_id: int,
    since: Option<Seq<char>>,
    until: Option<Seq<char>>,
    by: PnlBucketV,
    b: Option<Seq<char>>,
    c: Kind,
) -> bool {
    forall|i: int| #[trigger] in_row(v, acc_id, since, until, by, b, i) ==> pnl_kind(v, i) == c
}

/// Each column of a row answers to its kind: a column is zero when no entry
/// of the row counts as its kind, and equals the net when every entry does.
pub open spec fn columns_follow_kinds(
    r: PnlRow,
    v: LedgerV,
    acc_id: int,
    since: Option<Seq<char>>,
    until: Option<Seq<char>>,
    by: PnlBucketV,
    d: nat,
) -> bool {
    let b = ostr(r.bucket);
    let zero = amount_text(0, d);
    &&& none_in_row(v, acc_id, since, until, by, b, Kind::Trade) ==> r.trades@ == zero
    &&& none_in_row(v, acc_id, since, until, by, b, Kind::Settlement) ==> r.settlements@ == zero
    &&& none_in_row(v, acc_id, since, until, by, b, Kind::Fee) ==> r.fees@ == zero
    &&& none_in_row(v, acc_id, since, until, by, b, Kind::Adjustment) ==> r.adjustments@ == zero
    &&& none_in_row(v, acc_id, since, until, by, b, Kind::Other) ==> r.other@ == zero
    &&& all_in_row(v, acc_id, since, until, by, b, Kind::Trade) ==> r.trades@ == r.net@
    &&& all_in_row(v, acc_id, since, until, by, b, Kind::Settlement) ==> r.settlements@ == r.net@
    &&& all_in_row(v, acc_id, since, until, by, b, Kind::Fee) ==> r.fees@ == r.net@
    &&& all_in_row(v, acc_id, since, until, by, b, Kind::Adjustment) ==> r.adjustments@ == r.net@
    &&& all_in_row(v, acc_id, since, until, by, b, Kind::Other) ==> r.other@ == r.net@
}

/// A kind no entry of the row counts as sums to zero.
proof fn lemma_pnl_sum_none_of(
    v: LedgerV,
    acc_id: int,
    since: Option<Seq<char>>,
    until: Option<Seq<char>>,
    by: PnlBucketV,
    b: Option<Seq<char>>,
    c: Kind,
    k: int,
)
    requires
        k <= v.entries.len(),
        none_in_row(v, acc_id, since, until, by, b, c),
    ensures
        pnl_sum(v, acc_id, since, until, by, b, Some(c), k) == 0,
    decreases k,
{
    if k > 0 {
        lemma_pnl_sum_none_of(v, acc_id, since, until, by, b, c, k - 1);
        if in_row(v, acc_id, since, until, by, b, k - 1) {
        }
    }
}

/// A kind every entry of the row counts as sums to the net.
proof fn lemma_pnl_sum_all_of(
    v: LedgerV,
    acc_id: int,
    since: Option<Seq<char>>,
    until: Option<Seq<char>>,
    by: PnlBucketV,
    b: Option<Seq<char>>,
    c: Kind,
    k: int,
)
    requires
        k <= v.entries.len(),
        all_in_row(v, acc_id, since, until, by, b, c),
    ensures
        pnl_sum(v, acc_id, since, until, by, b, Some(c), k) == pnl_sum(
            v,
            acc_id,
            since,
            until,
            by,
            b,
            None,
            k,
        ),
    decreases k,
{
    if k > 0 {
        lemma_pnl_sum_all_of(v, acc_id, since, until, by, b, c, k - 1);
        if in_row(v, acc_id, since, until, by, b, k - 1) {
        }
    }
}

/// The column sums of bucket `b` answer to their kinds.
pub(crate) proof fn lemma_kind_sums(
    v: LedgerV,
    acc_id: int,
    since: Option<Seq<char>>,
    until: Option<Seq<char>>,
    by: PnlBucketV,
    b: Option<Seq<char>>,
)
    ensures
        forall|c: Kind|
            #![trigger none_in_row(v, acc_id, since, until, by, b, c)]
            none_in_row(v, acc_id, since, until, by, b, c) ==> pnl_sum(
                v,
                acc_id,
                since,
                until,
                by,
                b,
                Some(c),
                v.entries.len() as int,
            ) == 0,
        forall|c: Kind|
            #![trigger all_in_row(v, acc_id, since, until, by, b, c)]
            all_in_row(v, acc_id, since, until, by, b, c) ==> pnl_sum(
                v,
                acc_id,
                since,
                until,
                by,
                b,
                Some(c),
                v.entries.len() as int,
            ) == pnl_sum(v, acc_id, since, until, by, b, None, v.entries.len() as int),
{
    let n = v.entries.len() as int;
    assert forall|c: Kind| #[trigger] none_in_row(v, acc_id, since, until, by, b, c) implies pnl_sum(
        v,
        acc_id,
        since,
        until,
        by,
        b,
        Some(c),
        n,
    ) == 0 by {
        lemma_pnl_sum_none_of(v, acc_id, since, until, by, b, c, n);
    }
    assert forall|c: Kind| #[trigger] all_in_row(v, acc_id, since, until, by, b, c) implies pnl_sum(
        v,
        acc_id,
        since,
        until,
        by,
        b,
        Some(c),
        n,
    ) == pnl_sum(v, acc_id, since, until, by, b, None, n) by {
        lemma_pnl_sum_all_of(v, acc_id, since, until, by, b, c, n);
    }
}

/// In `pnl`, each row belongs to an account of the book and its columns
/// answer to the kinds of the entries in it: a column is zero when no entry
/// of the row counts as its kind (a reversal counting as what it reverses),
/// and equals the net when every one does. So a book whose only PnL entry is
/// one adjustment shows it under adjustments, not under other.
pub proof fn lemma_pnl_columns_follow_kinds(
    v: LedgerV,
    account: Option<Seq<char>>,
    f: PnlFilterV,
    r: Result<Vec<AccountPnl>, LedgerError>,
    k: int,
    j: int,
)
    requires
        pnl_post(v, account, f, r),
        r matches Ok(list) && 0 <= k < list@.len() && 0 <= j < list@[k].rows@.len(),
    ensures
        ({
            let (_, since, until) = pnl_args(v, account, f)->Ok_0;
            let x = r->Ok_0@[k];
            exists|a: int|
                #![trigger v.accounts[a]]
                0 <= a < v.accounts.len() && x.account@ == v.accounts[a].name && columns_follow_kinds(
                    x.rows@[j],
                    v,
                    a + 1,
                    since,
                    until,
                    f.by,
                    v.accounts[a].decimals,
                )
        }),
{
    let (ach, since, until) = pnl_args(v, account, f)->Ok_0;
    let list = r->Ok_0@;
    let p = choose|p: Seq<int>| #[trigger] pnl_listed(v, ach, since, until, f.by, list, p);
    let a = p[k];
    let x = list[k];
    if let Some(n) = account {
        super::lemma_first_index(v.accounts, |acc: super::AccountV| crate::text::nocase_eq(acc.name, trim(n)));
    }
    assert(0 <= a < v.accounts.len());
    assert(account_pnl_is(x, v, a, since, until, f.by));
    let row = x.rows@[j];
    let d = v.accounts[a].decimals;
    assert(row_is(row, v, a + 1, since, until, f.by, ostr(row.bucket), d));
    lemma_kind_sums(v, a + 1, since, until, f.by, ostr(row.bucket));
    assert(columns_follow_kinds(row, v, a + 1, since, until, f.by, d));
    assert(v.accounts[a] == v.accounts[a]);
}

} // verus!
