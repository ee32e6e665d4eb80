//! Mark-to-market: caller-supplied values of open groups joined into the PnL
//! rows their counted entries fall in. Marks are never stored.

use vstd::prelude::*;

use super::entries::usizes;
use super::pnl::{
    bucket_fits, bucket_listed, bucket_lt, bucket_spec, bucket_used, counted, opt_text_eq,
    pnl_accounts, pnl_args, pnl_listed, pnl_overflows, pnl_sum, row_is, rows_are, PnlBucket,
    PnlBucketV,
    PnlFilter, PnlFilterV,
};
use super::{
    account_amount, fits_i64, ledger_wf, ostr, overflow_error, parse_account_amount, Ledger,
    LedgerV,
};
use crate::error::{ErrorV, LedgerError};
use crate::json::{json_parse_of, parse_json, JsonKind, JsonKindV, JsonValueV};
use crate::model::{AccountPnl, Kind, PnlRow};
use crate::money::{amount_text, format_amount, lemma_amount_round_trip, parse_amount};
use crate::text::{copy_str, from_chars, push_str, str_eq, to_chars, trim, trim_str};

verus! {

broadcast use Ledger::lemma_view;

/// Account index `x` is among the accounts a report covers: the one named,
/// or every one.
pub open spec fn reported(a: Option<int>, x: int) -> bool {
    a matches Some(j) ==> x == j
}

/// Entry `i` belongs to group `g` and counts in the report.
pub open spec fn marked_entry(
    v: LedgerV,
    a: Option<int>,
    since: Option<Seq<char>>,
    until: Option<Seq<char>>,
    g: Seq<char>,
    i: int,
) -> bool {
    let e = v.entries[i];
    &&& e.group_id == Some(g)
    &&& reported(a, e.account_id - 1)
    &&& counted(v, e.account_id, since, until, i)
}

/// The row entry `i` falls in: its account index and its bucket.
pub open spec fn row_of(v: LedgerV, by: PnlBucketV, i: int) -> (int, Option<Seq<char>>) {
    (v.entries[i].account_id - 1, bucket_spec(by, v.entries[i]))
}

/// The first entry below `k` of group `g` that counts in the report.
pub open spec fn first_marked(
    v: LedgerV,
    a: Option<int>,
    since: Option<Seq<char>>,
    until: Option<Seq<char>>,
    g: Seq<char>,
    k: int,
) -> Option<int>
    decreases k,
{
    if k <= 0 {
        None
    } else {
        match first_marked(v, a, since, until, g, k - 1) {
            Some(i) => Some(i),
            None => if marked_entry(v, a, since, until, g, k - 1) {
                Some(k - 1)
            } else {
                None
            },
        }
    }
}

/// Some entry of the book belongs to group `g`.
pub open spec fn group_known(v: LedgerV, g: Seq<char>) -> bool {
    exists|i: int| 0 <= i < v.entries.len() && (#[trigger] v.entries[i]).group_id == Some(g)
}

/// The counted entries of group `g` fall in more than one row.
pub open spec fn spans_rows(
    v: LedgerV,
    a: Option<int>,
    since: Option<Seq<char>>,
    until: Option<Seq<char>>,
    by: PnlBucketV,
    g: Seq<char>,
    i: int,
) -> bool {
    exists|j: int|
        0 <= j < v.entries.len() && marked_entry(v, a, since, until, g, j) && #[trigger] row_of(
            v,
            by,
            j,
        ) != row_of(v, by, i)
}

/// Where a mark lands: the account index and bucket of the one row its
/// group's counted entries fall in, and its amount in that account's minor
/// units; `None` when no entry of the group counts in the report. A group
/// with no entries at all, a group spanning rows and an amount the account
/// cannot hold are errors.
pub open spec fn mark_landing(
    v: LedgerV,
    a: Option<int>,
    since: Option<Seq<char>>,
    until: Option<Seq<char>>,
    by: PnlBucketV,
    key: Seq<char>,
    amount: Seq<char>,
) -> Result<Option<(int, Option<Seq<char>>, int)>, ErrorV> {
    let g = trim(key);
    if !group_known(v, g) {
        Err(ErrorV::GroupNotFound(g))
    } else {
        match first_marked(v, a, since, until, g, v.entries.len() as int) {
            None => Ok(None),
            Some(i) => if spans_rows(v, a, since, until, by, g, i) {
                Err(ErrorV::MarkAmbiguous(g))
            } else {
                let (acc, b) = row_of(v, by, i);
                match account_amount(amount, v.accounts[acc]) {
                    Err(e) => Err(e),
                    Ok(m) => Ok(Some((acc, b, m))),
                }
            },
        }
    }
}

/// The landing of every mark, in order; the first error stops.
pub open spec fn marks_landing(
    v: LedgerV,
    a: Option<int>,
    since: Option<Seq<char>>,
    until: Option<Seq<char>>,
    by: PnlBucketV,
    marks: Seq<(Seq<char>, Seq<char>)>,
) -> Result<Seq<Option<(int, Option<Seq<char>>, int)>>, ErrorV>
    decreases marks.len(),
{
    if marks.len() == 0 {
        Ok(Seq::empty())
    } else {
        match marks_landing(v, a, since, until, by, marks.drop_last()) {
            Err(e) => Err(e),
            Ok(l) => match mark_landing(v, a, since, until, by, marks.last().0, marks.last().1) {
                Err(e) => Err(e),
                Ok(x) => Ok(l.push(x)),
            },
        }
    }
}

/// The open value of row `(acc, b)`: the sum of the marks landing there,
/// `None` when none does.
pub open spec fn open_of(landed: Seq<Option<(int, Option<Seq<char>>, int)>>, acc: int, b: Option<
    Seq<char>,
>) -> Option<int>
    decreases landed.len(),
{
    if landed.len() == 0 {
        None
    } else {
        let prev = open_of(landed.drop_last(), acc, b);
        match landed.last() {
            Some((x, y, m)) => if x == acc && y == b {
                Some(
                    match prev {
                        Some(s) => s + m,
                        None => m,
                    },
                )
            } else {
                prev
            },
            None => prev,
        }
    }
}

/// `r` is the row of bucket `b` at `d` decimals with open value `open`:
/// `open_value` shows it and `mtm` is `net` plus it; without one,
/// `open_value` is absent and `mtm` is `net`.
pub open spec fn row_is_marked(
    r: PnlRow,
    v: LedgerV,
    acc_id: int,
    since: Option<Seq<char>>,
    until: Option<Seq<char>>,
    by: PnlBucketV,
    b: Option<Seq<char>>,
    d: nat,
    open: Option<int>,
) -> bool {
    let n = v.entries.len() as int;
    let net = pnl_sum(v, acc_id, since, until, by, b, None, n);
    &&& ostr(r.bucket) == b
    &&& r.trades@ == amount_text(pnl_sum(v, acc_id, since, until, by, b, Some(Kind::Trade), n), d)
    &&& r.settlements@ == amount_text(
        pnl_sum(v, acc_id, since, until, by, b, Some(Kind::Settlement), n),
        d,
    )
    &&& r.fees@ == amount_text(pnl_sum(v, acc_id, since, until, by, b, Some(Kind::Fee), n), d)
    &&& r.adjustments@ == amount_text(
        pnl_sum(v, acc_id, since, until, by, b, Some(Kind::Adjustment), n),
        d,
    )
    &&& r.other@ == amount_text(pnl_sum(v, acc_id, since, until, by, b, Some(Kind::Other), n), d)
    &&& r.net@ == amount_text(net, d)
    &&& match open {
        None => r.open_value is None && r.mtm@ == r.net@,
        Some(o) => r.open_value matches Some(t) && t@ == amount_text(o, d) && r.mtm@ == amount_text(
            net + o,
            d,
        ),
    }
}

/// The rows of one account with the marks that land on it.
pub open spec fn rows_are_marked(
    v: LedgerV,
    acc_id: int,
    since: Option<Seq<char>>,
    until: Option<Seq<char>>,
    by: PnlBucketV,
    d: nat,
    rows: Seq<PnlRow>,
    landed: Seq<Option<(int, Option<Seq<char>>, int)>>,
) -> bool {
    if by is Total {
        rows.len() == 1 && row_is_marked(
            rows[0],
            v,
            acc_id,
            since,
            until,
            by,
            None,
            d,
            open_of(landed, acc_id - 1, None),
        )
    } else {
        &&& forall|k: int, l: int|
            0 <= k < l < rows.len() ==> bucket_lt(ostr(rows[k].bucket), ostr(rows[l].bucket))
        &&& forall|k: int|
            0 <= k < rows.len() ==> row_is_marked(
                #[trigger] rows[k],
                v,
                acc_id,
                since,
                until,
                by,
                ostr(rows[k].bucket),
                d,
                open_of(landed, acc_id - 1, ostr(rows[k].bucket)),
            ) && bucket_used(v, acc_id, since, until, by, ostr(rows[k].bucket))
        &&& forall|i: int|
            0 <= i < v.entries.len() && counted(v, acc_id, since, until, i) ==> bucket_listed(
                rows,
                #[trigger] bucket_spec(by, v.entries[i]),
            )
    }
}

/// The marked PnL of the accounts at `p`, in that order.
pub open spec fn pnl_listed_marked(
    v: LedgerV,
    a: Option<int>,
    since: Option<Seq<char>>,
    until: Option<Seq<char>>,
    by: PnlBucketV,
    list: Seq<AccountPnl>,
    p: Seq<int>,
    landed: Seq<Option<(int, Option<Seq<char>>, int)>>,
) -> bool {
    &&& pnl_accounts(v, a, p)
    &&& list.len() == p.len()
    &&& forall|k: int|
        0 <= k < p.len() ==> {
            let x = #[trigger] list[k];
            let acc = v.accounts[p[k]];
            &&& x.account@ == acc.name
            &&& x.currency@ == acc.currency
            &&& rows_are_marked(v, p[k] + 1, since, until, by, acc.decimals, x.rows@, landed)
        }
}

/// Some row a mark lands on has an open value or a mark-to-market value
/// that leaves `i64`.
pub open spec fn marks_overflow(
    v: LedgerV,
    since: Option<Seq<char>>,
    until: Option<Seq<char>>,
    by: PnlBucketV,
    landed: Seq<Option<(int, Option<Seq<char>>, int)>>,
) -> bool {
    exists|k: int|
        0 <= k < landed.len() && landing_overflows(v, since, until, by, landed, #[trigger] landed[k])
}

/// The row mark `x` lands on has an open value or a mark-to-market value
/// that leaves `i64`.
pub open spec fn landing_overflows(
    v: LedgerV,
    since: Option<Seq<char>>,
    until: Option<Seq<char>>,
    by: PnlBucketV,
    landed: Seq<Option<(int, Option<Seq<char>>, int)>>,
    x: Option<(int, Option<Seq<char>>, int)>,
) -> bool {
    match x {
        Some((acc, b, _)) => {
            let o = open_of(landed, acc, b)->Some_0;
            !fits_i64(o) || !fits_i64(
                pnl_sum(v, acc + 1, since, until, by, b, None, v.entries.len() as int) + o,
            )
        },
        None => false,
    }
}

/// Marks as given: group ids and amount texts.
pub open spec fn marks_view(m: Seq<(String, String)>) -> Seq<(Seq<char>, Seq<char>)> {
    m.map_values(|x: (String, String)| (x.0@, x.1@))
}

/// What `pnl_marked` returns: `pnl`'s report with the marks joined into the
/// rows they land on, or the first error in the arguments, the sums or the
/// marks.
pub open spec fn pnl_marked_post(
    v: LedgerV,
    account: Option<Seq<char>>,
    f: PnlFilterV,
    marks: Seq<(Seq<char>, Seq<char>)>,
    r: Result<Vec<AccountPnl>, LedgerError>,
) -> bool {
    match pnl_args(v, account, f) {
        Err(e) => r matches Err(x) && x.view() == e,
        Ok((a, since, until)) => if pnl_overflows(v, a, since, until, f.by) {
            r matches Err(x) && x.view() == overflow_error()
        } else {
            match marks_landing(v, a, since, until, f.by, marks) {
                Err(e) => r matches Err(x) && x.view() == e,
                Ok(landed) => if marks_overflow(v, since, until, f.by, landed) {
                    r matches Err(x) && x.view() == overflow_error()
                } else {
                    r matches Ok(list) && exists|p: Seq<int>|
                        #[trigger] pnl_listed_marked(v, a, since, until, f.by, list@, p, landed)
                },
            }
        },
    }
}

/// The members of a marks object as group ids and amount texts; the first
/// member whose value is not a string is an invalid amount.
pub open spec fn string_members(fields: Seq<(Seq<char>, JsonValueV)>) -> Result<
    Seq<(Seq<char>, Seq<char>)>,
    ErrorV,
>
    decreases fields.len(),
{
    if fields.len() == 0 {
        Ok(Seq::empty())
    } else {
        match string_members(fields.drop_last()) {
            Err(e) => Err(e),
            Ok(l) => match fields.last().1.kind {
                JsonKindV::Str(t) => Ok(l.push((fields.last().0, t))),
                _ => Err(ErrorV::InvalidAmount(fields.last().1.text + " (amount must be a JSON string)"@)),
            },
        }
    }
}

/// The marks a text holds: a JSON object of group id to amount string.
pub open spec fn marks_of_text(text: Seq<char>) -> Result<Seq<(Seq<char>, Seq<char>)>, ErrorV> {
    match json_parse_of(text) {
        Err(m) => Err(ErrorV::InvalidJson(m)),
        Ok(doc) => if doc.value.kind is Object {
            string_members(doc.fields)
        } else {
            Err(ErrorV::InvalidJson("marks must be a JSON object"@))
        },
    }
}

/// The marks a text holds: a JSON object of group id to amount string.
pub fn parse_marks(text: &str) -> (r: Result<Vec<(String, String)>, LedgerError>)
    ensures
        match marks_of_text(text@) {
            Ok(m) => r matches Ok(x) && marks_view(x@) == m,
            Err(e) => r matches Err(x) && x.view() == e,
        },
{
    let doc = match parse_json(text) {
        Ok(d) => d,
        Err(m) => return Err(LedgerError::InvalidJson(m)),
    };
    match doc.value.kind {
        JsonKind::Object => {},
        _ => return Err(LedgerError::InvalidJson(copy_str("marks must be a JSON object"))),
    }
    let ghost fs = doc.view().fields;
    let mut out: Vec<(String, String)> = Vec::new();
    assert(fs.take(0) =~= Seq::<(Seq<char>, JsonValueV)>::empty());
    assert(marks_view(out@) =~= Seq::<(Seq<char>, Seq<char>)>::empty());
    assert(marks_of_text(text@) == string_members(fs));
    let mut i: usize = 0;
    while i < doc.fields.len()
        invariant
            i <= doc.fields.len(),
            fs == doc.view().fields,
            marks_of_text(text@) == string_members(fs),
            string_members(fs.take(i as int)) == Ok::<Seq<(Seq<char>, Seq<char>)>, ErrorV>(
                marks_view(out@),
            ),
        decreases doc.fields.len() - i,
    {
        let ghost t = fs.take(i + 1);
        assert(t.drop_last() =~= fs.take(i as int));
        assert(t.last() == super::super::json::field_view(doc.fields@[i as int]));
        let (key, value) = &doc.fields[i];
        match &value.kind {
            JsonKind::Str(amount) => {
                let ghost before = out@;
                out.push((key.clone(), amount.clone()));
                assert(marks_view(out@) =~= marks_view(before).push((key@, amount@)));
            },
            _ => {
                let mut m = to_chars(value.text.as_str());
                push_str(&mut m, " (amount must be a JSON string)");
                let msg = from_chars(&m);
                assert(t.last().1 == value.view());
                assert(msg@ == value.text@ + " (amount must be a JSON string)"@);
                assert(string_members(t) == Err::<Seq<(Seq<char>, Seq<char>)>, ErrorV>(
                    ErrorV::InvalidAmount(msg@),
                ));
                proof {
                    lemma_string_members_prefix(fs, i + 1);
                }
                return Err(LedgerError::InvalidAmount(msg));
            },
        }
        i = i + 1;
    }
    assert(fs.take(doc.fields.len() as int) =~= fs);
    Ok(out)
}

proof fn lemma_string_members_prefix(fields: Seq<(Seq<char>, JsonValueV)>, k: int)
    requires
        0 <= k <= fields.len(),
        string_members(fields.take(k)) is Err,
    ensures
        string_members(fields) == string_members(fields.take(k)),
    decreases fields.len(),
{
    if k < fields.len() {
        assert(fields.drop_last().take(k) =~= fields.take(k));
        lemma_string_members_prefix(fields.drop_last(), k);
    } else {
        assert(fields.take(k) =~= fields);
    }
}

/// A landing by its values.
pub open spec fn landing_view(x: Option<(usize, Option<String>, i64)>) -> Option<
    (int, Option<Seq<char>>, int),
> {
    match x {
        Some((acc, b, m)) => Some((acc as int, ostr(b), m as int)),
        None => None,
    }
}

/// Landings by their values.
pub open spec fn landed_view(s: Seq<Option<(usize, Option<String>, i64)>>) -> Seq<
    Option<(int, Option<Seq<char>>, int)>,
> {
    s.map_values(|x: Option<(usize, Option<String>, i64)>| landing_view(x))
}

/// An optional index as an integer.
pub open spec fn oindex(o: Option<usize>) -> Option<int> {
    match o {
        Some(i) => Some(i as int),
        None => None,
    }
}

proof fn lemma_first_marked(
    v: LedgerV,
    a: Option<int>,
    since: Option<Seq<char>>,
    until: Option<Seq<char>>,
    g: Seq<char>,
    k: int,
)
    ensures
        first_marked(v, a, since, until, g, k) matches Some(i) ==> 0 <= i < k && marked_entry(
            v,
            a,
            since,
            until,
            g,
            i,
        ),
        first_marked(v, a, since, until, g, k) is None ==> forall|j: int|
            0 <= j < k ==> !#[trigger] marked_entry(v, a, since, until, g, j),
    decreases k,
{
    if k > 0 {
        lemma_first_marked(v, a, since, until, g, k - 1);
    }
}

proof fn lemma_first_marked_stable(
    v: LedgerV,
    a: Option<int>,
    since: Option<Seq<char>>,
    until: Option<Seq<char>>,
    g: Seq<char>,
    k: int,
    k2: int,
)
    requires
        k <= k2,
        first_marked(v, a, since, until, g, k) is Some,
    ensures
        first_marked(v, a, since, until, g, k2) == first_marked(v, a, since, until, g, k),
    decreases k2 - k,
{
    if k < k2 {
        lemma_first_marked_stable(v, a, since, until, g, k, k2 - 1);
    }
}

proof fn lemma_marks_landing_each(
    v: LedgerV,
    a: Option<int>,
    since: Option<Seq<char>>,
    until: Option<Seq<char>>,
    by: PnlBucketV,
    ms: Seq<(Seq<char>, Seq<char>)>,
)
    requires
        marks_landing(v, a, since, until, by, ms) is Ok,
    ensures
        ({
            let l = marks_landing(v, a, since, until, by, ms)->Ok_0;
            &&& l.len() == ms.len()
            &&& forall|k: int|
                0 <= k < ms.len() ==> mark_landing(v, a, since, until, by, ms[k].0, ms[k].1) == Ok::<
                    Option<(int, Option<Seq<char>>, int)>,
                    ErrorV,
                >(#[trigger] l[k])
        }),
    decreases ms.len(),
{
    if ms.len() > 0 {
        lemma_marks_landing_each(v, a, since, until, by, ms.drop_last());
        let l = marks_landing(v, a, since, until, by, ms)->Ok_0;
        let l0 = marks_landing(v, a, since, until, by, ms.drop_last())->Ok_0;
        assert forall|k: int| 0 <= k < ms.len() implies mark_landing(
            v,
            a,
            since,
            until,
            by,
            ms[k].0,
            ms[k].1,
        ) == Ok::<Option<(int, Option<Seq<char>>, int)>, ErrorV>(#[trigger] l[k]) by {
            if k < ms.len() - 1 {
                assert(ms[k] == ms.drop_last()[k]);
                assert(l[k] == l0[k]);
            }
        }
    }
}

proof fn lemma_marks_landing_prefix(
    v: LedgerV,
    a: Option<int>,
    since: Option<Seq<char>>,
    until: Option<Seq<char>>,
    by: PnlBucketV,
    ms: Seq<(Seq<char>, Seq<char>)>,
    k: int,
)
    requires
        0 <= k <= ms.len(),
        marks_landing(v, a, since, until, by, ms.take(k)) is Err,
    ensures
        marks_landing(v, a, since, until, by, ms) == marks_landing(v, a, since, until, by, ms.take(k)),
    decreases ms.len(),
{
    if k < ms.len() {
        assert(ms.drop_last().take(k) =~= ms.take(k));
        lemma_marks_landing_prefix(v, a, since, until, by, ms.drop_last(), k);
    } else {
        assert(ms.take(k) =~= ms);
    }
}

proof fn lemma_open_of(landed: Seq<Option<(int, Option<Seq<char>>, int)>>, acc: int, b: Option<Seq<char>>)
    ensures
        open_of(landed, acc, b) is Some <==> exists|k: int|
            0 <= k < landed.len() && (#[trigger] landed[k] matches Some((x, y, _)) && x == acc && y
                == b),
    decreases landed.len(),
{
    if landed.len() > 0 {
        let init = landed.drop_last();
        lemma_open_of(init, acc, b);
        if open_of(landed, acc, b) is Some {
            if open_of(init, acc, b) is Some {
                let k = choose|k: int|
                    0 <= k < init.len() && (#[trigger] init[k] matches Some((x, y, _)) && x == acc && y
                        == b);
                assert(landed[k] == init[k]);
            } else {
                assert(landed[landed.len() - 1] == landed.last());
            }
        }
        if exists|k: int|
            0 <= k < landed.len() && (#[trigger] landed[k] matches Some((x, y, _)) && x == acc && y
                == b) {
            let k = choose|k: int|
                0 <= k < landed.len() && (#[trigger] landed[k] matches Some((x, y, _)) && x == acc && y
                    == b);
            if k < landed.len() - 1 {
                assert(init[k] == landed[k]);
            }
        }
    }
}

impl Ledger {
    /// Whether some entry belongs to group `g`.
    fn group_exists(&self, g: &str) -> (r: bool)
        requires
            self.wf(),
        ensures
            r == group_known(self@, g@),
    {
        let ghost v = self@;
        let mut i: usize = 0;
        while i < self.entries.len()
            invariant
                self@ == v,
                i <= self.entries.len(),
                v.entries.len() == self.entries.len(),
                forall|j: int| 0 <= j < i ==> v.entries[j].group_id != Some(g@),
            decreases self.entries.len() - i,
        {
            assert(v.entries[i as int] == self.entries@[i as int].view());
            match &self.entries[i].group_id {
                Some(x) => {
                    if str_eq(x.as_str(), g) {
                        assert(v.entries[i as int].group_id == Some(g@));
                        return true;
                    }
                },
                None => {},
            }
            i = i + 1;
        }
        false
    }

    /// Whether entry `i` belongs to group `g` and counts in the report.
    fn marked_at(
        &self,
        a: Option<usize>,
        since: &Option<String>,
        until: &Option<String>,
        g: &str,
        i: usize,
    ) -> (r: bool)
        requires
            self.wf(),
            i < self@.entries.len(),
        ensures
            r == marked_entry(self@, oindex(a), ostr(*since), ostr(*until), g@, i as int),
    {
        let ghost v = self@;
        let e = &self.entries[i];
        assert(v.entries[i as int] == e.view());
        let in_group = match &e.group_id {
            Some(x) => str_eq(x.as_str(), g),
            None => false,
        };
        if !in_group {
            return false;
        }
        let acc = (e.account_id - 1) as usize;
        let covered = match a {
            Some(j) => acc == j,
            None => true,
        };
        if !covered {
            return false;
        }
        self.counted_at(acc, since, until, i)
    }

    /// The first entry of group `g` that counts in the report.
    fn first_marked_at(
        &self,
        a: Option<usize>,
        since: &Option<String>,
        until: &Option<String>,
        g: &str,
    ) -> (r: Option<usize>)
        requires
            self.wf(),
        ensures
            oindex(r) == first_marked(
                self@,
                oindex(a),
                ostr(*since),
                ostr(*until),
                g@,
                self@.entries.len() as int,
            ),
            r matches Some(i) ==> i < self@.entries.len(),
    {
        let ghost v = self@;
        let ghost args = (oindex(a), ostr(*since), ostr(*until), g@);
        let mut i: usize = 0;
        while i < self.entries.len()
            invariant
                self.wf(),
                self@ == v,
                i <= v.entries.len(),
                first_marked(v, oindex(a), ostr(*since), ostr(*until), g@, i as int) is None,
            decreases self.entries.len() - i,
        {
            if self.marked_at(a, since, until, g, i) {
                proof {
                    lemma_first_marked_stable(
                        v,
                        oindex(a),
                        ostr(*since),
                        ostr(*until),
                        g@,
                        i + 1,
                        v.entries.len() as int,
                    );
                }
                return Some(i);
            }
            i = i + 1;
        }
        None
    }

    /// Where the mark `(key, amount)` lands, as `mark_landing` says.
    fn mark_landing_at(
        &self,
        a: Option<usize>,
        since: &Option<String>,
        until: &Option<String>,
        by: &PnlBucket,
        key: &str,
        amount: &str,
    ) -> (r: Result<Option<(usize, Option<String>, i64)>, LedgerError>)
        requires
            self.wf(),
        ensures
            match mark_landing(self@, oindex(a), ostr(*since), ostr(*until), by.view(), key@, amount@) {
                Ok(x) => r matches Ok(y) && landing_view(y) == x && (y matches Some((acc, _, _))
                    ==> acc < self@.accounts.len()),
                Err(e) => r matches Err(y) && y.view() == e,
            },
    {
        let ghost v = self@;
        let ghost sn = ostr(*since);
        let ghost un = ostr(*until);
        let ghost bv = by.view();
        let g = trim_str(key);
        if !self.group_exists(g.as_str()) {
            return Err(LedgerError::GroupNotFound(g));
        }
        let first = self.first_marked_at(a, since, until, g.as_str());
        let i = match first {
            None => return Ok(None),
            Some(i) => i,
        };
        proof {
            lemma_first_marked(v, oindex(a), sn, un, g@, v.entries.len() as int);
        }
        let e = &self.entries[i];
        assert(v.entries[i as int] == e.view());
        let acc = (e.account_id - 1) as usize;
        let b = by.bucket_of(e);
        let mut j: usize = 0;
        while j < self.entries.len()
            invariant
                self.wf(),
                self@ == v,
                j <= v.entries.len(),
                i < v.entries.len(),
                acc as int == v.entries[i as int].account_id - 1,
                ostr(b) == bucket_spec(bv, v.entries[i as int]),
                bv == by.view(),
                sn == ostr(*since),
                un == ostr(*until),
                group_known(v, g@),
                g@ == trim(key@),
                first_marked(v, oindex(a), sn, un, g@, v.entries.len() as int) == Some(i as int),
                forall|k: int|
                    0 <= k < j && marked_entry(v, oindex(a), sn, un, g@, k) ==> #[trigger] row_of(
                        v,
                        bv,
                        k,
                    ) == row_of(v, bv, i as int),
            decreases self.entries.len() - j,
        {
            if self.marked_at(a, since, until, g.as_str(), j) {
                let ej = &self.entries[j];
                assert(v.entries[j as int] == ej.view());
                let bj = by.bucket_of(ej);
                if (ej.account_id - 1) as usize != acc || !opt_text_eq(&bj, &b) {
                    proof {
                        assert(row_of(v, bv, j as int) != row_of(v, bv, i as int));
                        assert(spans_rows(v, oindex(a), sn, un, bv, g@, i as int));
                        assert(group_known(v, g@));
                        assert(first_marked(v, oindex(a), sn, un, g@, v.entries.len() as int) == Some(
                            i as int,
                        ));
                        assert(g@ == trim(key@));
                        assert(mark_landing(v, oindex(a), sn, un, bv, key@, amount@) == Err::<
                            Option<(int, Option<Seq<char>>, int)>,
                            ErrorV,
                        >(ErrorV::MarkAmbiguous(g@)));
                    }
                    return Err(LedgerError::MarkAmbiguous(g));
                }
                assert(row_of(v, bv, j as int) == row_of(v, bv, i as int));
            }
            j = j + 1;
        }
        assert(!spans_rows(v, oindex(a), sn, un, bv, g@, i as int));
        assert(v.accounts[acc as int] == self.accounts@[acc as int].view());
        match parse_account_amount(amount, &self.accounts[acc]) {
            Ok(m) => Ok(Some((acc, b, m))),
            Err(x) => Err(x),
        }
    }
}

/// The open value of row `(acc, b)`, summed in order as `open_of` does.
fn open_at(landed: &Vec<Option<(usize, Option<String>, i64)>>, acc: usize, b: &Option<String>) -> (r:
    Option<i128>)
    ensures
        match open_of(landed_view(landed@), acc as int, ostr(*b)) {
            None => r is None,
            Some(o) => r matches Some(x) && x as int == o,
        },
{
    let ghost lv = landed_view(landed@);
    let mut sum: Option<i128> = None;
    let mut k: usize = 0;
    while k < landed.len()
        invariant
            k <= landed.len(),
            lv == landed_view(landed@),
            match open_of(lv.take(k as int), acc as int, ostr(*b)) {
                None => sum is None,
                Some(o) => sum matches Some(x) && x as int == o && -(k * 9223372036854775808) <= o <= k
                    * 9223372036854775808,
            },
        decreases landed.len() - k,
    {
        let ghost before = sum;
        match &landed[k] {
            Some((x, y, m)) => {
                if *x == acc && opt_text_eq(y, b) {
                    sum = Some(
                        match sum {
                            Some(t) => t + *m as i128,
                            None => *m as i128,
                        },
                    );
                }
            },
            None => {},
        }
        proof {
            let t = lv.take(k + 1);
            assert(t.drop_last() =~= lv.take(k as int));
            assert(t.last() == landing_view(landed@[k as int]));
        }
        k = k + 1;
    }
    assert(lv.take(landed.len() as int) =~= lv);
    sum
}

/// A row with the marks that land on it joined in, or the overflow error.
#[verifier::spinoff_prover]
#[verifier::rlimit(60)]
fn mark_row(
    row: &PnlRow,
    acc: usize,
    d: u32,
    landed: &Vec<Option<(usize, Option<String>, i64)>>,
    Ghost(v): Ghost<LedgerV>,
    Ghost(sn): Ghost<Option<Seq<char>>>,
    Ghost(un): Ghost<Option<Seq<char>>>,
    Ghost(bv): Ghost<PnlBucketV>,
) -> (r: Result<PnlRow, LedgerError>)
    requires
        d <= 18,
        row_is(*row, v, acc + 1, sn, un, bv, ostr(row.bucket), d as nat),
        bucket_fits(v, acc + 1, sn, un, bv, ostr(row.bucket)),
    ensures
        ({
            let open = open_of(landed_view(landed@), acc as int, ostr(row.bucket));
            let net = pnl_sum(v, acc + 1, sn, un, bv, ostr(row.bucket), None, v.entries.len() as int);
            match r {
                Ok(x) => row_is_marked(x, v, acc + 1, sn, un, bv, ostr(row.bucket), d as nat, open)
                    && (open matches Some(o) ==> fits_i64(o) && fits_i64(net + o)),
                Err(e) => e.view() == overflow_error() && (open matches Some(o) && (!fits_i64(o)
                    || !fits_i64(net + o))),
            }
        }),
{
    let ghost n = v.entries.len() as int;
    let ghost net = pnl_sum(v, acc + 1, sn, un, bv, ostr(row.bucket), None, n);
    assert(fits_i64(net)) by {
        assert(super::pnl::categories()[5] == None::<Kind>);
        assert(fits_i64(
            pnl_sum(v, acc + 1, sn, un, bv, ostr(row.bucket), super::pnl::categories()[5], n),
        ));
    }
    let bucket = super::copy_opt(&row.bucket);
    match open_at(landed, acc, &row.bucket) {
        None => Ok(
            PnlRow {
                bucket,
                trades: row.trades.clone(),
                settlements: row.settlements.clone(),
                fees: row.fees.clone(),
                adjustments: row.adjustments.clone(),
                other: row.other.clone(),
                net: row.net.clone(),
                open_value: None,
                mtm: row.mtm.clone(),
            },
        ),
        Some(o) => {
            if o < i64::MIN as i128 || o > i64::MAX as i128 {
                return Err(LedgerError::Db(copy_str("integer overflow")));
            }
            proof {
                lemma_amount_round_trip(net as i64, d);
            }
            let base = match parse_amount(row.net.as_str(), d) {
                Ok(x) => x,
                Err(_) => {
                    assert(false);
                    return Err(LedgerError::Db(copy_str("integer overflow")));
                },
            };
            assert(base as int == net);
            let total = base as i128 + o;
            if total < i64::MIN as i128 || total > i64::MAX as i128 {
                return Err(LedgerError::Db(copy_str("integer overflow")));
            }
            Ok(
                PnlRow {
                    bucket,
                    trades: row.trades.clone(),
                    settlements: row.settlements.clone(),
                    fees: row.fees.clone(),
                    adjustments: row.adjustments.clone(),
                    other: row.other.clone(),
                    net: row.net.clone(),
                    open_value: Some(format_amount(o as i64, d)),
                    mtm: format_amount(total as i64, d),
                },
            )
        },
    }
}

proof fn lemma_rows_marked(
    v: LedgerV,
    acc_id: int,
    sn: Option<Seq<char>>,
    un: Option<Seq<char>>,
    bv: PnlBucketV,
    d: nat,
    rows0: Seq<PnlRow>,
    rows: Seq<PnlRow>,
    landed: Seq<Option<(int, Option<Seq<char>>, int)>>,
)
    requires
        rows_are(v, acc_id, sn, un, bv, d, rows0),
        rows.len() == rows0.len(),
        forall|t: int|
            0 <= t < rows.len() ==> ostr((#[trigger] rows[t]).bucket) == ostr(rows0[t].bucket)
                && row_is_marked(
                rows[t],
                v,
                acc_id,
                sn,
                un,
                bv,
                ostr(rows0[t].bucket),
                d,
                open_of(landed, acc_id - 1, ostr(rows0[t].bucket)),
            ),
    ensures
        rows_are_marked(v, acc_id, sn, un, bv, d, rows, landed),
{
    if bv is Total {
        assert(ostr(rows0[0].bucket) == None::<Seq<char>>);
        assert(ostr(rows[0].bucket) == ostr(rows0[0].bucket));
    } else {
        assert forall|k: int, l: int| 0 <= k < l < rows.len() implies bucket_lt(
            ostr(rows[k].bucket),
            ostr(rows[l].bucket),
        ) by {
            assert(ostr(rows[k].bucket) == ostr(rows0[k].bucket));
            assert(ostr(rows[l].bucket) == ostr(rows0[l].bucket));
        }
        assert forall|k: int| 0 <= k < rows.len() implies row_is_marked(
            #[trigger] rows[k],
            v,
            acc_id,
            sn,
            un,
            bv,
            ostr(rows[k].bucket),
            d,
            open_of(landed, acc_id - 1, ostr(rows[k].bucket)),
        ) && bucket_used(v, acc_id, sn, un, bv, ostr(rows[k].bucket)) by {
            assert(row_is(rows0[k], v, acc_id, sn, un, bv, ostr(rows0[k].bucket), d));
        }
        assert forall|i: int|
            0 <= i < v.entries.len() && counted(v, acc_id, sn, un, i) implies bucket_listed(
            rows,
            #[trigger] bucket_spec(bv, v.entries[i]),
        ) by {
            assert(bucket_listed(rows0, bucket_spec(bv, v.entries[i])));
            let t = choose|t: int|
                0 <= t < rows0.len() && ostr((#[trigger] rows0[t]).bucket) == bucket_spec(
                    bv,
                    v.entries[i],
                );
            assert(ostr(rows[t].bucket) == ostr(rows0[t].bucket));
        }
    }
}

proof fn lemma_row_fits(
    v: LedgerV,
    acc: int,
    sn: Option<Seq<char>>,
    un: Option<Seq<char>>,
    bv: PnlBucketV,
    d: nat,
    rows: Seq<PnlRow>,
    t: int,
)
    requires
        rows_are(v, acc + 1, sn, un, bv, d, rows),
        super::pnl::pnl_fits(v, acc + 1, sn, un, bv),
        0 <= t < rows.len(),
    ensures
        row_is(rows[t], v, acc + 1, sn, un, bv, ostr(rows[t].bucket), d),
        bucket_fits(v, acc + 1, sn, un, bv, ostr(rows[t].bucket)),
{
    if !(bv is Total) {
        assert(bucket_used(v, acc + 1, sn, un, bv, ostr(rows[t].bucket)));
        let i = choose|i: int|
            0 <= i < v.entries.len() && counted(v, acc + 1, sn, un, i) && #[trigger] bucket_spec(
                bv,
                v.entries[i],
            ) == ostr(rows[t].bucket);
        assert(bucket_fits(v, acc + 1, sn, un, bv, bucket_spec(bv, v.entries[i])));
    }
}

proof fn lemma_landing_covered(
    v: LedgerV,
    a: Option<int>,
    sn: Option<Seq<char>>,
    un: Option<Seq<char>>,
    bv: PnlBucketV,
    mv: Seq<(Seq<char>, Seq<char>)>,
    lv: Seq<Option<(int, Option<Seq<char>>, int)>>,
    k: int,
    list: Seq<AccountPnl>,
    p: Seq<int>,
    chosen: Seq<usize>,
)
    requires
        ledger_wf(v),
        marks_landing(v, a, sn, un, bv, mv) == Ok::<
            Seq<Option<(int, Option<Seq<char>>, int)>>,
            ErrorV,
        >(lv),
        0 <= k < lv.len(),
        super::pnl::pnl_listed(v, a, sn, un, bv, list, p),
        p == usizes(chosen),
        a is None ==> forall|j: int| 0 <= j < v.accounts.len() ==> #[trigger] chosen.contains(j as usize),
    ensures
        lv[k] matches Some((acc, b, _)) ==> exists|j: int, t: int|
            0 <= j < p.len() && p[j] == acc && 0 <= t < list[j].rows@.len() && ostr(
                (#[trigger] list[j].rows@[t]).bucket,
            ) == b,
{
    lemma_marks_landing_each(v, a, sn, un, bv, mv);
    if let Some((acc, b, m)) = lv[k] {
        let n = v.entries.len() as int;
        let g = trim(mv[k].0);
        assert(mark_landing(v, a, sn, un, bv, mv[k].0, mv[k].1) == Ok::<
            Option<(int, Option<Seq<char>>, int)>,
            ErrorV,
        >(lv[k]));
        lemma_first_marked(v, a, sn, un, g, n);
        let i = first_marked(v, a, sn, un, g, n)->Some_0;
        assert(marked_entry(v, a, sn, un, g, i));
        assert(row_of(v, bv, i) == (acc, b));
        let e = v.entries[i];
        assert(e.account_id == acc + 1);
        assert(counted(v, acc + 1, sn, un, i));
        let j: int = match a {
            Some(x) => {
                assert(p =~= seq![x]);
                0
            },
            None => {
                assert(chosen.contains(acc as usize));
                let q = choose|q: int| 0 <= q < chosen.len() && chosen[q] == acc as usize;
                assert(p[q] == chosen[q] as int);
                q
            },
        };
        assert(p[j] == acc);
        assert(super::pnl::account_pnl_is(list[j], v, p[j], sn, un, bv));
        let rows = list[j].rows@;
        assert(rows_are(v, acc + 1, sn, un, bv, v.accounts[acc].decimals, rows));
        if bv is Total {
            assert(ostr(rows[0].bucket) == None::<Seq<char>>);
            assert(ostr(list[j].rows@[0].bucket) == b);
        } else {
            assert(bucket_listed(rows, bucket_spec(bv, v.entries[i])));
            let t = choose|t: int| 0 <= t < rows.len() && ostr((#[trigger] rows[t]).bucket) == bucket_spec(
                bv,
                v.entries[i],
            );
            assert(ostr(list[j].rows@[t].bucket) == b);
        }
    }
}

impl Ledger {
    /// `pnl` with caller-supplied marks: each mark, a group id and an amount
    /// text, is added to the open value of the one row its group's counted
    /// entries fall in, and that row's `mtm` is its `net` plus its open value.
    /// Marks of groups outside the report are ignored; a group with no
    /// entries is `GroupNotFound`, a group spanning rows `MarkAmbiguous`.
    pub fn pnl_marked(
        &self,
        account: Option<&str>,
        filter: &PnlFilter,
        marks: &Vec<(String, String)>,
    ) -> (r: Result<Vec<AccountPnl>, LedgerError>)
        requires
            self.wf(),
        ensures
            pnl_marked_post(self@, super::oref(account), filter.view(), marks_view(marks@), r),
    {
        let ghost v = self@;
        let ghost args = pnl_args(v, super::oref(account), filter.view());
        let (list, chosen, since, until) = match self.pnl_parts(account, filter) {
            Ok(x) => x,
            Err(e) => return Err(e),
        };
        let ghost a = args->Ok_0.0;
        let ghost sn = args->Ok_0.1;
        let ghost un = args->Ok_0.2;
        let ghost bv = filter.view().by;
        let ghost p = usizes(chosen@);
        assert(pnl_listed(v, a, sn, un, bv, list@, p));
        assert(!pnl_overflows(v, a, sn, un, bv));
        let a_opt: Option<usize> = match account {
            Some(_) => Some(chosen[0]),
            None => None,
        };
        proof {
            if let Some(j) = a {
                assert(p =~= seq![j]);
                assert(p[0] == chosen@[0] as int);
            }
            assert(oindex(a_opt) == a);
        }
        let ghost mv = marks_view(marks@);
        let mut landed: Vec<Option<(usize, Option<String>, i64)>> = Vec::new();
        assert(mv.take(0) =~= Seq::<(Seq<char>, Seq<char>)>::empty());
        assert(landed_view(landed@) =~= Seq::<Option<(int, Option<Seq<char>>, int)>>::empty());
        let mut k: usize = 0;
        while k < marks.len()
            invariant
                self.wf(),
                self@ == v,
                k <= marks.len(),
                mv == marks_view(marks@),
                args == pnl_args(v, super::oref(account), filter.view()),
                args == Ok::<(Option<int>, Option<Seq<char>>, Option<Seq<char>>), ErrorV>(
                    (a, sn, un),
                ),
                !pnl_overflows(v, a, sn, un, bv),
                oindex(a_opt) == a,
                sn == ostr(since),
                un == ostr(until),
                bv == filter.by.view(),
                marks_landing(v, a, sn, un, bv, mv.take(k as int)) == Ok::<
                    Seq<Option<(int, Option<Seq<char>>, int)>>,
                    ErrorV,
                >(landed_view(landed@)),
            decreases marks.len() - k,
        {
            let ghost mt = mv.take(k + 1);
            assert(mt.drop_last() =~= mv.take(k as int));
            assert(mt.last() == (marks@[k as int].0@, marks@[k as int].1@));
            match self.mark_landing_at(
                a_opt,
                &since,
                &until,
                &filter.by,
                marks[k].0.as_str(),
                marks[k].1.as_str(),
            ) {
                Ok(x) => {
                    let ghost before = landed@;
                    landed.push(x);
                    assert(landed_view(landed@) =~= landed_view(before).push(landing_view(x)));
                },
                Err(e) => {
                    proof {
                        assert(marks_landing(v, a, sn, un, bv, mt) == Err::<
                            Seq<Option<(int, Option<Seq<char>>, int)>>,
                            ErrorV,
                        >(e.view()));
                        lemma_marks_landing_prefix(v, a, sn, un, bv, mv, k + 1);
                    }
                    return Err(e);
                },
            }
            k = k + 1;
        }
        assert(mv.take(marks.len() as int) =~= mv);
        let ghost lv = landed_view(landed@);
        let mut out: Vec<AccountPnl> = Vec::new();
        let mut q: usize = 0;
        while q < list.len()
            invariant
                self.wf(),
                self@ == v,
                q <= list.len(),
                out@.len() == q,
                p == usizes(chosen@),
                lv == landed_view(landed@),
                mv == marks_view(marks@),
                args == pnl_args(v, super::oref(account), filter.view()),
                args == Ok::<(Option<int>, Option<Seq<char>>, Option<Seq<char>>), ErrorV>(
                    (a, sn, un),
                ),
                marks_landing(v, a, sn, un, bv, mv) == Ok::<
                    Seq<Option<(int, Option<Seq<char>>, int)>>,
                    ErrorV,
                >(lv),
                forall|j: int| 0 <= j < chosen@.len() ==> (#[trigger] chosen@[j]) < v.accounts.len(),
                a is None ==> forall|j: int|
                    0 <= j < v.accounts.len() ==> #[trigger] chosen@.contains(j as usize),
                pnl_listed(v, a, sn, un, bv, list@, p),
                !pnl_overflows(v, a, sn, un, bv),
                sn == ostr(since),
                un == ostr(until),
                bv == filter.by.view(),
                forall|j: int|
                    0 <= j < q ==> {
                        let x = #[trigger] out@[j];
                        let acc = v.accounts[p[j]];
                        &&& x.account@ == acc.name
                        &&& x.currency@ == acc.currency
                        &&& rows_are_marked(v, p[j] + 1, sn, un, bv, acc.decimals, x.rows@, lv)
                        &&& x.rows@.len() == list@[j].rows@.len()
                        &&& forall|t: int|
                            0 <= t < x.rows@.len() ==> ostr((#[trigger] x.rows@[t]).bucket) == ostr(
                                list@[j].rows@[t].bucket,
                            ) && (open_of(lv, p[j], ostr(x.rows@[t].bucket)) matches Some(o)
                                ==> fits_i64(o) && fits_i64(
                                pnl_sum(
                                    v,
                                    p[j] + 1,
                                    sn,
                                    un,
                                    bv,
                                    ostr(x.rows@[t].bucket),
                                    None,
                                    v.entries.len() as int,
                                ) + o,
                            ))
                    },
            decreases list.len() - q,
        {
            let acc = chosen[q];
            assert(p[q as int] == acc as int);
            let x = &list[q];
            assert(super::pnl::account_pnl_is(*x, v, acc as int, sn, un, bv));
            assert(super::pnl::pnl_fits(v, acc + 1, sn, un, bv)) by {
                if let Some(j) = a {
                    assert(p =~= seq![j]);
                }
            }
            assert(v.accounts[acc as int] == self.accounts@[acc as int].view());
            let d = self.accounts[acc].decimals;
            let mut rows: Vec<PnlRow> = Vec::new();
            let mut t: usize = 0;
            while t < x.rows.len()
                invariant
                    self.wf(),
                    self@ == v,
                    t <= x.rows@.len(),
                    rows@.len() == t,
                    acc < v.accounts.len(),
                    d as nat == v.accounts[acc as int].decimals,
                    d <= 18,
                    lv == landed_view(landed@),
                    args == pnl_args(v, super::oref(account), filter.view()),
                    args == Ok::<(Option<int>, Option<Seq<char>>, Option<Seq<char>>), ErrorV>(
                        (a, sn, un),
                    ),
                    !pnl_overflows(v, a, sn, un, bv),
                    marks_landing(v, a, sn, un, bv, mv) == Ok::<
                        Seq<Option<(int, Option<Seq<char>>, int)>>,
                        ErrorV,
                    >(lv),
                    mv == marks_view(marks@),
                    bv == filter.by.view(),
                    rows_are(v, acc + 1, sn, un, bv, d as nat, x.rows@),
                    super::pnl::pnl_fits(v, acc + 1, sn, un, bv),
                    forall|u: int|
                        0 <= u < t ==> ostr((#[trigger] rows@[u]).bucket) == ostr(x.rows@[u].bucket)
                            && row_is_marked(
                            rows@[u],
                            v,
                            acc + 1,
                            sn,
                            un,
                            bv,
                            ostr(x.rows@[u].bucket),
                            d as nat,
                            open_of(lv, acc as int, ostr(x.rows@[u].bucket)),
                        ) && (open_of(lv, acc as int, ostr(x.rows@[u].bucket)) matches Some(o)
                            ==> fits_i64(o) && fits_i64(
                            pnl_sum(
                                v,
                                acc + 1,
                                sn,
                                un,
                                bv,
                                ostr(x.rows@[u].bucket),
                                None,
                                v.entries.len() as int,
                            ) + o,
                        )),
                decreases x.rows@.len() - t,
            {
                let row = &x.rows[t];
                proof {
                    lemma_row_fits(v, acc as int, sn, un, bv, d as nat, x.rows@, t as int);
                }
                match mark_row(row, acc, d, &landed, Ghost(v), Ghost(sn), Ghost(un), Ghost(bv)) {
                    Ok(r) => rows.push(r),
                    Err(e) => {
                        proof {
                            let b = ostr(row.bucket);
                            lemma_open_of(lv, acc as int, b);
                            let k = choose|k: int|
                                0 <= k < lv.len() && (#[trigger] lv[k] matches Some((y, z, _)) && y
                                    == acc && z == b);
                            assert(landing_overflows(v, sn, un, bv, lv, lv[k]));
                            assert(marks_overflow(v, sn, un, bv, lv));
                        }
                        return Err(e);
                    },
                }
                t = t + 1;
            }
            proof {
                lemma_rows_marked(v, acc + 1, sn, un, bv, d as nat, x.rows@, rows@, lv);
            }
            let item = AccountPnl { account: x.account.clone(), currency: x.currency.clone(), rows };
            out.push(item);
            q = q + 1;
        }
        proof {
            assert forall|k: int| 0 <= k < lv.len() implies !landing_overflows(
                v,
                sn,
                un,
                bv,
                lv,
                #[trigger] lv[k],
            ) by {
                lemma_landing_covered(v, a, sn, un, bv, mv, lv, k, list@, p, chosen@);
                if let Some((acc, b, m)) = lv[k] {
                    let (j, t) = choose|j: int, t: int|
                        0 <= j < p.len() && p[j] == acc && 0 <= t < list@[j].rows@.len() && ostr(
                            (#[trigger] list@[j].rows@[t]).bucket,
                        ) == b;
                    lemma_open_of(lv, acc, b);
                    assert(out@[j].rows@.len() == list@[j].rows@.len());
                    assert(ostr(out@[j].rows@[t].bucket) == b);
                }
            }
            assert(!marks_overflow(v, sn, un, bv, lv));
            assert(pnl_listed_marked(v, a, sn, un, bv, out@, p, lv));
        }
        let r: Result<Vec<AccountPnl>, LedgerError> = Ok(out);
        assert(r matches Ok(l) && l@ == out@);
        assert(marks_landing(v, a, sn, un, filter.view().by, marks_view(marks@)) == Ok::<
            Seq<Option<(int, Option<Seq<char>>, int)>>,
            ErrorV,
        >(lv));
        r
    }
}

/// In `pnl_marked`, as in `pnl`, each row belongs to an account of the book
/// and its columns answer to the kinds of the entries in it: a column is
/// zero when no entry of the row counts as its kind, and equals the net
/// when every one does. Marks change only the open value and the
/// mark-to-market value.
pub proof fn lemma_pnl_marked_columns_follow_kinds(
    v: LedgerV,
    account: Option<Seq<char>>,
    f: PnlFilterV,
    marks: Seq<(Seq<char>, Seq<char>)>,
    r: Result<Vec<AccountPnl>, LedgerError>,
    k: int,
    j: int,
)
    requires
        pnl_marked_post(v, account, f, marks, r),
        r matches Ok(list) && 0 <= k < list@.len() && 0 <= j < list@[k].rows@.len(),
    ensures
        ({
            let (_, since, until) = pnl_args(v, account, f)->Ok_0;
            let x = r->Ok_0@[k];
            exists|a: int|
                #![trigger v.accounts[a]]
                0 <= a < v.accounts.len() && x.account@ == v.accounts[a].name
                    && super::pnl::columns_follow_kinds(
                    x.rows@[j],
                    v,
                    a + 1,
                    since,
                    until,
                    f.by,
                    v.accounts[a].decimals,
                )
        }),
{
    let (ach, since, until) = pnl_args(v, account, f)->Ok_0;
    let landed = marks_landing(v, ach, since, until, f.by, marks)->Ok_0;
    let list = r->Ok_0@;
    let p = choose|p: Seq<int>| #[trigger] pnl_listed_marked(v, ach, since, until, f.by, list, p, landed);
    let a = p[k];
    let x = list[k];
    if let Some(n) = account {
        super::lemma_first_index(
            v.accounts,
            |acc: super::AccountV| crate::text::nocase_eq(acc.name, trim(n)),
        );
    }
    assert(0 <= a < v.accounts.len());
    let d = v.accounts[a].decimals;
    assert(rows_are_marked(v, a + 1, since, until, f.by, d, x.rows@, landed));
    let row = x.rows@[j];
    assert(row_is_marked(
        row,
        v,
        a + 1,
        since,
        until,
        f.by,
        ostr(row.bucket),
        d,
        open_of(landed, a, ostr(row.bucket)),
    ));
    super::pnl::lemma_kind_sums(v, a + 1, since, until, f.by, ostr(row.bucket));
    assert(super::pnl::columns_follow_kinds(row, v, a + 1, since, until, f.by, d));
    assert(v.accounts[a] == v.accounts[a]);
}

} // verus!
