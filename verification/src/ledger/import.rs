//! Bulk import from JSON Lines, all-or-nothing.

use vstd::prelude::*;

use super::accounts::{capacity_error, max_rows_usize};
use super::{
    ledger_wf, account_amount, account_lookup, clean_ref, clean_ref_spec, copy_opt, entry_is, group_spec,
    ledger_extends, max_rows, meta_storage_spec, meta_value_to_storage, new_entry_row, opt_str,
    ostr, parse_account_amount, resolve_ts_at, resolve_ts_spec, validate_group, with_entry,
    write_spec, Ledger, LedgerV, NewEntry, NewEntryV, WriteV,
};
use crate::error::{ErrorV, LedgerError};
use crate::json::{
    field_index, find_field, json_parse_of, lemma_field_index, parse_json, JsonDoc, JsonDocV,
    JsonKind, JsonKindV, JsonValue, JsonValueV,
};
use crate::model::{addable, kind_of_text, Entry, ImportResult, Kind};
use crate::text::{copy_str, from_chars, push_str, to_chars, trim, trim_chars};

verus! {

broadcast use Ledger::lemma_view;

/// The lines of a text as `BufRead::lines` yields them: split at `\n`, a
/// `\r` before the `\n` dropped, no line after a final `\n`. `cur` is the
/// line read so far.
pub open spec fn split_lines(s: Seq<char>, cur: Seq<char>) -> Seq<Seq<char>>
    decreases s.len(),
{
    if s.len() == 0 {
        if cur.len() == 0 {
            Seq::empty()
        } else {
            seq![cur]
        }
    } else if s[0] == '\n' {
        seq![strip_cr(cur)] + split_lines(s.drop_first(), Seq::empty())
    } else {
        split_lines(s.drop_first(), cur.push(s[0]))
    }
}

/// A line without its final `\r`.
pub open spec fn strip_cr(l: Seq<char>) -> Seq<char> {
    if l.len() > 0 && l.last() == '\r' {
        l.drop_last()
    } else {
        l
    }
}

/// One line of an import, as read from its JSON object.
pub struct ImportLine {
    pub account: String,
    pub amount: JsonValue,
    pub kind: String,
    pub reference: Option<String>,
    pub ts: Option<String>,
    pub group: Option<String>,
    pub memo: Option<String>,
    pub meta: Option<JsonValue>,
    pub actor: Option<String>,
}

/// An `ImportLine` by its values.
pub struct ImportLineV {
    pub account: Seq<char>,
    pub amount: JsonValueV,
    pub kind: Seq<char>,
    pub reference: Option<Seq<char>>,
    pub ts: Option<Seq<char>>,
    pub group: Option<Seq<char>>,
    pub memo: Option<Seq<char>>,
    pub meta: Option<JsonValueV>,
    pub actor: Option<Seq<char>>,
}

pub open spec fn ojson(o: Option<JsonValue>) -> Option<JsonValueV> {
    match o {
        Some(v) => Some(v.view()),
        None => None,
    }
}

impl ImportLine {
    pub open spec fn view(&self) -> ImportLineV {
        ImportLineV {
            account: self.account@,
            amount: self.amount.view(),
            kind: self.kind@,
            reference: ostr(self.reference),
            ts: ostr(self.ts),
            group: ostr(self.group),
            memo: ostr(self.memo),
            meta: ojson(self.meta),
            actor: ostr(self.actor),
        }
    }
}

/// The message for a member that is missing.
pub open spec fn missing_msg(name: Seq<char>) -> Seq<char> {
    "missing field `"@ + name + "`"@
}

/// The message for a member that is not a string.
pub open spec fn type_msg(name: Seq<char>) -> Seq<char> {
    "invalid type for field `"@ + name + "`: expected a string"@
}

/// A required string member.
pub open spec fn req_str(fields: Seq<(Seq<char>, JsonValueV)>, name: Seq<char>) -> Result<
    Seq<char>,
    Seq<char>,
> {
    match field_index(fields, name) {
        None => Err(missing_msg(name)),
        Some(i) => match fields[i].1.kind {
            JsonKindV::Str(s) => Ok(s),
            _ => Err(type_msg(name)),
        },
    }
}

/// An optional string member: missing or `null` is none.
pub open spec fn opt_str_member(fields: Seq<(Seq<char>, JsonValueV)>, name: Seq<char>) -> Result<
    Option<Seq<char>>,
    Seq<char>,
> {
    match field_index(fields, name) {
        None => Ok(None),
        Some(i) => match fields[i].1.kind {
            JsonKindV::Null => Ok(None),
            JsonKindV::Str(s) => Ok(Some(s)),
            _ => Err(type_msg(name)),
        },
    }
}

/// What a line of JSON gives: an object with string `account` and `kind`, an
/// `amount` of any type, optional strings `ref`, `ts`, `group`, `memo`,
/// `actor` and an optional `meta` of any type; or the message why not. The
/// members are checked in that order; a member given twice counts once,
/// with the last value, as the parsed document keeps it.
pub open spec fn parse_line_spec(raw: Seq<char>) -> Result<ImportLineV, Seq<char>> {
    match json_parse_of(raw) {
        Err(m) => Err(m),
        Ok(doc) => if !(doc.value.kind is Object) {
            Err("invalid type: expected an object"@)
        } else {
            let f = doc.fields;
            match req_str(f, "account"@) {
                Err(m) => Err(m),
                Ok(account) => match field_index(f, "amount"@) {
                    None => Err(missing_msg("amount"@)),
                    Some(ai) => match req_str(f, "kind"@) {
                        Err(m) => Err(m),
                        Ok(kind) => match opt_str_member(f, "ref"@) {
                            Err(m) => Err(m),
                            Ok(reference) => match opt_str_member(f, "ts"@) {
                                Err(m) => Err(m),
                                Ok(ts) => match opt_str_member(f, "group"@) {
                                    Err(m) => Err(m),
                                    Ok(group) => match opt_str_member(f, "memo"@) {
                                        Err(m) => Err(m),
                                        Ok(memo) => match opt_str_member(f, "actor"@) {
                                            Err(m) => Err(m),
                                            Ok(actor) => Ok(
                                                ImportLineV {
                                                    account,
                                                    amount: f[ai].1,
                                                    kind,
                                                    reference,
                                                    ts,
                                                    group,
                                                    memo,
                                                    meta: match field_index(f, "meta"@) {
                                                        None => None,
                                                        Some(mi) => if f[mi].1.kind is Null {
                                                            None
                                                        } else {
                                                            Some(f[mi].1)
                                                        },
                                                    },
                                                    actor,
                                                },
                                            ),
                                        },
                                    },
                                },
                            },
                        },
                    },
                },
            }
        },
    }
}

/// The lines of an import that are not blank, each with its number (from
/// 1) and what it parses to; the first line that does not parse is the
/// error, with its number.
pub open spec fn read_lines(lines: Seq<Seq<char>>) -> Result<Seq<(nat, ImportLineV)>, ErrorV>
    decreases lines.len(),
{
    if lines.len() == 0 {
        Ok(Seq::empty())
    } else {
        match read_lines(lines.drop_last()) {
            Err(e) => Err(e),
            Ok(items) => {
                let raw = lines.last();
                let n = lines.len();
                if trim(raw).len() == 0 {
                    Ok(items)
                } else {
                    match parse_line_spec(raw) {
                        Err(m) => Err(
                            ErrorV::Import { line: n, source: Box::new(ErrorV::InvalidJson(m)) },
                        ),
                        Ok(l) => Ok(items.push((n, l))),
                    }
                }
            },
        }
    }
}

/// A kind `add` and `import` accept, or the error naming the text.
pub open spec fn addable_kind(t: Seq<char>) -> Result<Kind, ErrorV> {
    match kind_of_text(trim(t)) {
        Some(k) => if addable(k) {
            Ok(k)
        } else {
            Err(ErrorV::InvalidKind(trim(t)))
        },
        None => Err(ErrorV::InvalidKind(trim(t))),
    }
}

/// The entry a line describes, validated as `import` does: account, amount
/// given as a string, meta, timestamp, kind, amount, group.
pub open spec fn line_fields(
    v: LedgerV,
    l: ImportLineV,
    default_actor: Option<Seq<char>>,
    clock: Seq<char>,
) -> Result<NewEntryV, ErrorV> {
    match account_lookup(v, l.account) {
        Err(e) => Err(e),
        Ok(a) => match l.amount.kind {
            JsonKindV::Str(text) => match (match l.meta {
                None => Ok(None),
                Some(m) => meta_storage_spec(m),
            }) {
                Err(e) => Err(e),
                Ok(meta) => match resolve_ts_spec(l.ts, clock) {
                    Err(e) => Err(e),
                    Ok(ts) => match addable_kind(l.kind) {
                        Err(e) => Err(e),
                        Ok(kind) => match account_amount(text, v.accounts[a]) {
                            Err(e) => Err(e),
                            Ok(amount) => match group_spec(l.group) {
                                Err(e) => Err(e),
                                Ok(g) => Ok(
                                    NewEntryV {
                                        account: a,
                                        ts,
                                        kind,
                                        amount,
                                        reference: clean_ref_spec(l.reference),
                                        memo: l.memo,
                                        actor: match l.actor {
                                            Some(x) => Some(x),
                                            None => default_actor,
                                        },
                                        group_id: g,
                                        meta,
                                        reverses_id: None,
                                    },
                                ),
                            },
                        },
                    },
                },
            },
            _ => Err(
                ErrorV::InvalidAmount(l.amount.text + " (amount must be a JSON string)"@),
            ),
        },
    }
}

/// One line applied to `v`: the new book, the index of the entry it shows,
/// and whether it already existed.
pub open spec fn import_step(
    v: LedgerV,
    l: ImportLineV,
    default_actor: Option<Seq<char>>,
    clock: Seq<char>,
) -> Result<(LedgerV, int, bool), ErrorV> {
    if v.entries.len() + 2 >= max_rows() {
        Err(capacity_error())
    } else {
        match line_fields(v, l, default_actor, clock) {
            Err(e) => Err(e),
            Ok(ne) => match write_spec(v, ne) {
                WriteV::Fail(e) => Err(e),
                WriteV::Duplicate(j) => Ok((v, j, true)),
                WriteV::Inserted => Ok(
                    (with_entry(v, new_entry_row(ne, v, clock)), v.entries.len() as int, false),
                ),
            },
        }
    }
}

/// The lines applied in order; the first failure is the error, with its
/// line number.
pub open spec fn import_run(
    v: LedgerV,
    items: Seq<(nat, ImportLineV)>,
    default_actor: Option<Seq<char>>,
    clock: Seq<char>,
) -> Result<(LedgerV, Seq<(int, bool)>), ErrorV>
    decreases items.len(),
{
    if items.len() == 0 {
        Ok((v, Seq::empty()))
    } else {
        match import_run(v, items.drop_last(), default_actor, clock) {
            Err(e) => Err(e),
            Ok((v1, outs)) => match import_step(v1, items.last().1, default_actor, clock) {
                Err(e) => Err(ErrorV::Import { line: items.last().0, source: Box::new(e) }),
                Ok((v2, j, dup)) => Ok((v2, outs.push((j, dup)))),
            },
        }
    }
}

/// How many outcomes are duplicates (`dup`) or not.
pub open spec fn count_dup(outs: Seq<(int, bool)>, dup: bool) -> nat
    decreases outs.len(),
{
    if outs.len() == 0 {
        0
    } else {
        count_dup(outs.drop_last(), dup) + if outs.last().1 == dup {
            1nat
        } else {
            0
        }
    }
}

/// What `import` does: every line is read first; then all are applied in
/// one transaction, and any failure leaves the book as it was. A dry run
/// reports what would have happened and leaves the book as it was.
pub open spec fn import_post(
    old: LedgerV,
    new: LedgerV,
    text: Seq<char>,
    dry_run: bool,
    default_actor: Option<Seq<char>>,
    clock: Seq<char>,
    r: Result<ImportResult, LedgerError>,
) -> bool {
    match read_lines(split_lines(text, Seq::empty())) {
        Err(e) => new == old && (r matches Err(x) && x.view() == e),
        Ok(items) => match import_run(old, items, default_actor, clock) {
            Err(e) => new == old && (r matches Err(x) && x.view() == e),
            Ok((nv, outs)) => (if dry_run {
                new == old
            } else {
                new == nv
            }) && (r matches Ok(res) && {
                &&& res.dry_run == dry_run
                &&& res.imported == count_dup(outs, false)
                &&& res.duplicates == count_dup(outs, true)
                &&& res.entries@.len() == outs.len()
                &&& forall|k: int|
                    0 <= k < outs.len() ==> entry_is(#[trigger] res.entries@[k], nv, outs[k].0)
            }),
        },
    }
}


/// Texts by their characters.
pub open spec fn strs(s: Seq<String>) -> Seq<Seq<char>> {
    s.map_values(|x: String| x@)
}

/// The lines of `text` as `BufRead::lines` yields them.
pub fn split_text_lines(text: &str) -> (r: Vec<String>)
    ensures
        strs(r@) == split_lines(text@, Seq::empty()),
{
    let cs = to_chars(text);
    let mut out: Vec<String> = Vec::new();
    let mut cur: Vec<char> = Vec::new();
    let mut i: usize = 0;
    assert(cs@.skip(0) =~= cs@);
    assert(strs(out@) =~= Seq::<Seq<char>>::empty());
    while i < cs.len()
        invariant
            i <= cs@.len(),
            cs@ == text@,
            strs(out@) + split_lines(cs@.skip(i as int), cur@) == split_lines(cs@, Seq::empty()),
        decreases cs@.len() - i,
    {
        let c = cs[i];
        assert(cs@.skip(i as int)[0] == c);
        assert(cs@.skip(i as int).drop_first() =~= cs@.skip(i + 1));
        let ghost old_out = strs(out@);
        let ghost old_cur = cur@;
        if c == '\n' {
            let line = if cur.len() > 0 && cur[cur.len() - 1] == '\r' {
                let t = crate::text::chars_range(&cur, 0, cur.len() - 1);
                assert(t@ =~= cur@.drop_last());
                from_chars(&t)
            } else {
                from_chars(&cur)
            };
            assert(line@ == strip_cr(cur@));
            out.push(line);
            cur = Vec::new();
            assert(strs(out@) =~= old_out.push(strip_cr(old_cur)));
            assert(strs(out@) + split_lines(cs@.skip(i + 1), cur@) =~= old_out + (seq![
                strip_cr(old_cur),
            ] + split_lines(cs@.skip(i + 1), Seq::empty())));
        } else {
            cur.push(c);
            assert(cur@ == old_cur.push(c));
        }
        i = i + 1;
    }
    assert(cs@.skip(i as int) =~= Seq::<char>::empty());
    let ghost before = strs(out@);
    if cur.len() > 0 {
        out.push(from_chars(&cur));
        assert(strs(out@) =~= before.push(cur@));
    } else {
        assert(before + Seq::<Seq<char>>::empty() =~= before);
    }
    out
}

/// `missing field `name``.
fn missing_message(name: &str) -> (r: String)
    ensures
        r@ == missing_msg(name@),
{
    let mut v: Vec<char> = Vec::new();
    push_str(&mut v, "missing field `");
    push_str(&mut v, name);
    push_str(&mut v, "`");
    proof {
        reveal_strlit("missing field `");
        reveal_strlit("`");
    }
    assert(v@ =~= missing_msg(name@));
    from_chars(&v)
}

/// `invalid type for field `name`: expected a string`.
fn type_message(name: &str) -> (r: String)
    ensures
        r@ == type_msg(name@),
{
    let mut v: Vec<char> = Vec::new();
    push_str(&mut v, "invalid type for field `");
    push_str(&mut v, name);
    push_str(&mut v, "`: expected a string");
    proof {
        reveal_strlit("invalid type for field `");
        reveal_strlit("`: expected a string");
    }
    assert(v@ =~= type_msg(name@));
    from_chars(&v)
}

/// A required string member of `doc`.
fn member_str(doc: &JsonDoc, name: &str) -> (r: Result<String, String>)
    ensures
        match req_str(doc.view().fields, name@) {
            Ok(s) => r matches Ok(x) && x@ == s,
            Err(m) => r matches Err(x) && x@ == m,
        },
{
    match find_field(doc, name) {
        None => Err(missing_message(name)),
        Some(v) => match v.kind {
            JsonKind::Str(s) => Ok(s),
            _ => Err(type_message(name)),
        },
    }
}

/// An optional string member of `doc`.
fn member_opt_str(doc: &JsonDoc, name: &str) -> (r: Result<Option<String>, String>)
    ensures
        match opt_str_member(doc.view().fields, name@) {
            Ok(s) => r matches Ok(x) && ostr(x) == s,
            Err(m) => r matches Err(x) && x@ == m,
        },
{
    match find_field(doc, name) {
        None => Ok(None),
        Some(v) => match v.kind {
            JsonKind::Null => Ok(None),
            JsonKind::Str(s) => Ok(Some(s)),
            _ => Err(type_message(name)),
        },
    }
}

/// One line of an import read from its JSON text.
pub fn parse_import_line(raw: &str) -> (r: Result<ImportLine, String>)
    ensures
        match parse_line_spec(raw@) {
            Ok(l) => r matches Ok(x) && x.view() == l,
            Err(m) => r matches Err(x) && x@ == m,
        },
{
    let doc = match parse_json(raw) {
        Ok(d) => d,
        Err(m) => return Err(m),
    };
    if !matches!(doc.value.kind, JsonKind::Object) {
        proof {
            reveal_strlit("invalid type: expected an object");
        }
        return Err(copy_str("invalid type: expected an object"));
    }
    proof {
        reveal_strlit("account");
        reveal_strlit("amount");
        reveal_strlit("kind");
        reveal_strlit("ref");
        reveal_strlit("ts");
        reveal_strlit("group");
        reveal_strlit("memo");
        reveal_strlit("actor");
        reveal_strlit("meta");
    }
    let account = match member_str(&doc, "account") {
        Ok(s) => s,
        Err(m) => return Err(m),
    };
    let amount = match find_field(&doc, "amount") {
        Some(v) => v,
        None => return Err(missing_message("amount")),
    };
    let kind = match member_str(&doc, "kind") {
        Ok(s) => s,
        Err(m) => return Err(m),
    };
    let reference = match member_opt_str(&doc, "ref") {
        Ok(s) => s,
        Err(m) => return Err(m),
    };
    let ts = match member_opt_str(&doc, "ts") {
        Ok(s) => s,
        Err(m) => return Err(m),
    };
    let group = match member_opt_str(&doc, "group") {
        Ok(s) => s,
        Err(m) => return Err(m),
    };
    let memo = match member_opt_str(&doc, "memo") {
        Ok(s) => s,
        Err(m) => return Err(m),
    };
    let actor = match member_opt_str(&doc, "actor") {
        Ok(s) => s,
        Err(m) => return Err(m),
    };
    let meta = match find_field(&doc, "meta") {
        None => None,
        Some(v) => if matches!(v.kind, JsonKind::Null) {
            None
        } else {
            Some(v)
        },
    };
    Ok(ImportLine { account, amount, kind, reference, ts, group, memo, meta, actor })
}


/// One more line read.
proof fn lemma_read_lines_step(lines: Seq<Seq<char>>, k: int)
    requires
        0 <= k < lines.len(),
    ensures
        read_lines(lines.take(k + 1)) == (match read_lines(lines.take(k)) {
            Err(e) => Err(e),
            Ok(items) => if trim(lines[k]).len() == 0 {
                Ok(items)
            } else {
                match parse_line_spec(lines[k]) {
                    Err(m) => Err(
                        ErrorV::Import { line: (k + 1) as nat, source: Box::new(ErrorV::InvalidJson(m)) },
                    ),
                    Ok(l) => Ok(items.push(((k + 1) as nat, l))),
                }
            },
        }),
{
    assert(lines.take(k + 1).drop_last() =~= lines.take(k));
    assert(lines.take(k + 1).last() == lines[k]);
}

/// One more item applied.
proof fn lemma_import_run_step(
    v: LedgerV,
    items: Seq<(nat, ImportLineV)>,
    da: Option<Seq<char>>,
    clock: Seq<char>,
    k: int,
)
    requires
        0 <= k < items.len(),
    ensures
        import_run(v, items.take(k + 1), da, clock) == (match import_run(v, items.take(k), da, clock) {
            Err(e) => Err(e),
            Ok((v1, outs)) => match import_step(v1, items[k].1, da, clock) {
                Err(e) => Err(ErrorV::Import { line: items[k].0, source: Box::new(e) }),
                Ok((v2, j, dup)) => Ok((v2, outs.push((j, dup)))),
            },
        }),
{
    assert(items.take(k + 1).drop_last() =~= items.take(k));
    assert(items.take(k + 1).last() == items[k]);
}

/// Counting one more outcome.
proof fn lemma_count_dup_push(outs: Seq<(int, bool)>, x: (int, bool), d: bool)
    ensures
        count_dup(outs.push(x), d) == count_dup(outs, d) + if x.1 == d {
            1nat
        } else {
            0
        },
{
    assert(outs.push(x).drop_last() =~= outs);
}

/// A failure on the first `k` lines is the failure of them all.
proof fn lemma_read_lines_err(lines: Seq<Seq<char>>, k: int)
    requires
        0 <= k <= lines.len(),
        read_lines(lines.take(k)) is Err,
    ensures
        read_lines(lines) == read_lines(lines.take(k)),
    decreases lines.len() - k,
{
    if k < lines.len() {
        assert(lines.take(k + 1).drop_last() =~= lines.take(k));
        lemma_read_lines_err(lines, k + 1);
    } else {
        assert(lines.take(k) =~= lines);
    }
}

/// A failure on the first `k` items is the failure of them all.
proof fn lemma_import_run_err(
    v: LedgerV,
    items: Seq<(nat, ImportLineV)>,
    da: Option<Seq<char>>,
    clock: Seq<char>,
    k: int,
)
    requires
        0 <= k <= items.len(),
        import_run(v, items.take(k), da, clock) is Err,
    ensures
        import_run(v, items, da, clock) == import_run(v, items.take(k), da, clock),
    decreases items.len() - k,
{
    if k < items.len() {
        assert(items.take(k + 1).drop_last() =~= items.take(k));
        lemma_import_run_err(v, items, da, clock, k + 1);
    } else {
        assert(items.take(k) =~= items);
    }
}

/// Import items by their values.
pub open spec fn items_view(s: Seq<(usize, ImportLine)>) -> Seq<(nat, ImportLineV)> {
    s.map_values(|it: (usize, ImportLine)| (it.0 as nat, it.1.view()))
}

/// Every non-blank line of `text` read, with its number; the first that
/// does not parse is the error.
fn read_import(text: &str) -> (r: Result<Vec<(usize, ImportLine)>, LedgerError>)
    ensures
        match read_lines(split_lines(text@, Seq::empty())) {
            Err(e) => r matches Err(x) && x.view() == e,
            Ok(items) => r matches Ok(x) && items_view(x@) == items,
        },
{
    let lines = split_text_lines(text);
    let ghost lv = strs(lines@);
    let mut items: Vec<(usize, ImportLine)> = Vec::new();
    let mut idx: usize = 0;
    assert(lv.take(0) =~= Seq::<Seq<char>>::empty());
    assert(items_view(items@) =~= Seq::<(nat, ImportLineV)>::empty());
    while idx < lines.len()
        invariant
            lv == strs(lines@),
            lv == split_lines(text@, Seq::empty()),
            idx <= lines@.len(),
            read_lines(lv.take(idx as int)) == Ok::<Seq<(nat, ImportLineV)>, ErrorV>(items_view(items@)),
        decreases lines@.len() - idx,
    {
        let raw = &lines[idx];
        assert(lv[idx as int] == raw@);
        proof {
            lemma_read_lines_step(lv, idx as int);
        }
        let t = trim_chars(&to_chars(raw.as_str()));
        if t.len() == 0 {
            idx = idx + 1;
            continue;
        }
        match parse_import_line(raw.as_str()) {
            Err(m) => {
                let ghost mv = m@;
                assert(t@ == trim(lv[idx as int]));
                assert(parse_line_spec(lv[idx as int]) == Err::<ImportLineV, Seq<char>>(mv));
                let inner = LedgerError::InvalidJson(m);
                assert(inner.view() == ErrorV::InvalidJson(mv));
                let e = LedgerError::Import { line: idx + 1, source: Box::new(inner) };
                assert(e.view() == ErrorV::Import {
                    line: (idx + 1) as nat,
                    source: Box::new(ErrorV::InvalidJson(mv)),
                });
                proof {
                    assert(read_lines(lv.take(idx + 1)) == Err::<Seq<(nat, ImportLineV)>, ErrorV>(e.view()));
                    lemma_read_lines_err(lv, idx as int + 1);
                }
                return Err(e);
            },
            Ok(l) => {
                let ghost before = items@;
                items.push((idx + 1, l));
                assert(items_view(items@) =~= items_view(before).push(((idx + 1) as nat, l.view())));
            },
        }
        idx = idx + 1;
    }
    assert(lv.take(lines@.len() as int) =~= lv);
    Ok(items)
}

impl Ledger {
    /// Apply one import line.
    fn import_line(&mut self, l: &ImportLine, default_actor: Option<&str>, clock: &str) -> (r: Result<
        (usize, bool),
        LedgerError,
    >)
        requires
            old(self).wf(),
        ensures
            final(self).wf(),
            match import_step(old(self)@, l.view(), super::oref(default_actor), clock@) {
                Err(e) => final(self)@ == old(self)@ && (r matches Err(x) && x.view() == e),
                Ok((nv, j, dup)) => final(self)@ == nv && r == Ok::<(usize, bool), LedgerError>(
                    (j as usize, dup),
                ) && 0 <= j < nv.entries.len(),
            },
            final(self)@.accounts == old(self)@.accounts,
            final(self)@.snapshots == old(self)@.snapshots,
            old(self)@.entries.is_prefix_of(final(self)@.entries),
    {
        let ghost v = self@;
        let ghost q = l.view();
        if self.entries.len() >= max_rows_usize() - 2 {
            return Err(LedgerError::Db(copy_str("database or disk is full")));
        }
        let a = match self.account_by_name(l.account.as_str()) {
            Ok(a) => a,
            Err(e) => return Err(e),
        };
        assert(v.accounts[a as int] == self.accounts@[a as int].view());
        let text = match &l.amount.kind {
            JsonKind::Str(t) => t,
            _ => {
                let mut m: Vec<char> = Vec::new();
                push_str(&mut m, l.amount.text.as_str());
                push_str(&mut m, " (amount must be a JSON string)");
                proof {
                    reveal_strlit(" (amount must be a JSON string)");
                }
                assert(m@ =~= l.amount.text@ + " (amount must be a JSON string)"@);
                return Err(LedgerError::InvalidAmount(from_chars(&m)));
            },
        };
        let meta = match &l.meta {
            None => None,
            Some(m) => match meta_value_to_storage(m) {
                Ok(x) => Some(x),
                Err(e) => return Err(e),
            },
        };
        let ts = match resolve_ts_at(opt_str(&l.ts), clock) {
            Ok(t) => t,
            Err(e) => return Err(e),
        };
        let kind = match Kind::parse_addable(l.kind.as_str()) {
            Ok(k) => k,
            Err(e) => return Err(e),
        };
        let amount = match parse_account_amount(text.as_str(), &self.accounts[a]) {
            Ok(x) => x,
            Err(e) => return Err(e),
        };
        let reference = clean_ref(opt_str(&l.reference));
        let actor = match &l.actor {
            Some(x) => Some(copy_str(x.as_str())),
            None => match default_actor {
                Some(d) => Some(copy_str(d)),
                None => None,
            },
        };
        let group_id = match validate_group(opt_str(&l.group)) {
            Ok(g) => g,
            Err(e) => return Err(e),
        };
        let ne = NewEntry {
            account: a,
            ts,
            kind,
            amount,
            reference,
            memo: copy_opt(&l.memo),
            actor,
            group_id,
            meta,
            reverses_id: None,
        };
        let ghost ne_v = ne.view();
        assert(line_fields(v, q, super::oref(default_actor), clock@) == Ok::<NewEntryV, ErrorV>(ne_v));
        assert(v.entries.len() + 2 < max_rows());
        assert(ne.account < self@.accounts.len());
        let r = self.write_entry(ne, clock);
        proof {
            if r is Ok && !r->Ok_0.1 {
                assert(self@.entries =~= v.entries.push(new_entry_row(ne_v, v, clock@)));
            }
        }
        r
    }

    /// Apply the lines in order; on a failure the book is left as it was.
    #[verifier::rlimit(30)]
    fn apply_lines(
        &mut self,
        items: &Vec<(usize, ImportLine)>,
        default_actor: Option<&str>,
        clock: &str,
    ) -> (r: Result<(Vec<usize>, usize, usize), LedgerError>)
        requires
            old(self).wf(),
        ensures
            final(self).wf(),
            match import_run(old(self)@, items_view(items@), super::oref(default_actor), clock@) {
                Err(e) => final(self)@ == old(self)@ && (r matches Err(x) && x.view() == e),
                Ok((nv, outs)) => final(self)@ == nv && (r matches Ok((shown, imported, dups)) && {
                    &&& shown@.len() == outs.len()
                    &&& forall|m: int|
                        0 <= m < outs.len() ==> #[trigger] shown@[m] as int == outs[m].0
                            && outs[m].0 < nv.entries.len()
                    &&& imported == count_dup(outs, false)
                    &&& dups == count_dup(outs, true)
                }),
            },
            final(self)@.accounts == old(self)@.accounts,
            final(self)@.snapshots == old(self)@.snapshots,
            old(self)@.entries.is_prefix_of(final(self)@.entries),
    {
        let ghost v0 = self@;
        let ghost da = super::oref(default_actor);
        let ghost iv = items_view(items@);
        let n0 = self.entries.len();
        let mut shown: Vec<usize> = Vec::new();
        let mut imported: usize = 0;
        let mut duplicates: usize = 0;
        let ghost mut outs: Seq<(int, bool)> = Seq::empty();
        let mut k: usize = 0;
        assert(iv.take(0) =~= Seq::<(nat, ImportLineV)>::empty());
        while k < items.len()
            invariant
                self.wf(),
                iv == items_view(items@),
                da == super::oref(default_actor),
                k <= items@.len(),
                n0 == v0.entries.len(),
                v0 == old(self)@,
                ledger_wf(v0),
                import_run(v0, iv.take(k as int), da, clock@) == Ok::<
                    (LedgerV, Seq<(int, bool)>),
                    ErrorV,
                >((self@, outs)),
                self@.accounts == v0.accounts,
                self@.snapshots == v0.snapshots,
                v0.entries.is_prefix_of(self@.entries),
                outs.len() == k,
                shown@.len() == k,
                forall|m: int|
                    0 <= m < k ==> #[trigger] shown@[m] as int == outs[m].0 && outs[m].0
                        < self@.entries.len(),
                imported == count_dup(outs, false),
                duplicates == count_dup(outs, true),
                imported + duplicates == k,
            decreases items@.len() - k,
        {
            proof {
                lemma_import_run_step(v0, iv, da, clock@, k as int);
            }
            assert(iv[k as int] == ((items@[k as int].0 as nat), items@[k as int].1.view()));
            let ghost vk = self@;
            let ghost ok = outs;
            let ghost sk = shown@;
            match self.import_line(&items[k].1, default_actor, clock) {
                Err(e) => {
                    let line = items[k].0;
                    let ghost ev = e.view();
                    self.roll_back_entries(n0);
                    assert(self@.entries =~= v0.entries);
                    proof {
                        assert(import_run(v0, iv.take(k + 1), da, clock@) == Err::<
                            (LedgerV, Seq<(int, bool)>),
                            ErrorV,
                        >(ErrorV::Import { line: line as nat, source: Box::new(ev) }));
                        lemma_import_run_err(v0, iv, da, clock@, k as int + 1);
                    }
                    return Err(LedgerError::Import { line, source: Box::new(e) });
                },
                Ok((j, dup)) => {
                    proof {
                        lemma_count_dup_push(outs, (j as int, dup), true);
                        lemma_count_dup_push(outs, (j as int, dup), false);
                        outs = outs.push((j as int, dup));
                    }
                    if dup {
                        duplicates = duplicates + 1;
                    } else {
                        imported = imported + 1;
                    }
                    shown.push(j);
                    proof {
                        assert forall|m: int| 0 <= m < k + 1 implies #[trigger] shown@[m] as int
                            == outs[m].0 && outs[m].0 < self@.entries.len() by {
                            if m < k {
                                assert(shown@[m] == sk[m]);
                                assert(outs[m] == ok[m]);
                                assert(vk.entries.is_prefix_of(self@.entries));
                            }
                        }
                    }
                },
            }
            k = k + 1;
        }
        assert(iv.take(items@.len() as int) =~= iv);
        Ok((shown, imported, duplicates))
    }

    /// Apply a JSON Lines batch, all-or-nothing; `clock` is the time of the
    /// call.
    pub fn import_at(
        &mut self,
        text: &str,
        dry_run: bool,
        default_actor: Option<&str>,
        clock: &str,
    ) -> (r: Result<ImportResult, LedgerError>)
        requires
            old(self).wf(),
        ensures
            final(self).wf(),
            ledger_extends(old(self)@, final(self)@),
            import_post(old(self)@, final(self)@, text@, dry_run, super::oref(default_actor), clock@, r),
    {
        let ghost v0 = self@;
        let items = match read_import(text) {
            Ok(x) => x,
            Err(e) => return Err(e),
        };
        let n0 = self.entries.len();
        let (shown, imported, duplicates) = match self.apply_lines(&items, default_actor, clock) {
            Ok(x) => x,
            Err(e) => return Err(e),
        };
        let mut entries: Vec<Entry> = Vec::new();
        let mut m: usize = 0;
        while m < shown.len()
            invariant
                self.wf(),
                m <= shown@.len(),
                entries@.len() == m,
                forall|x: int| 0 <= x < shown@.len() ==> (#[trigger] shown@[x]) < self@.entries.len(),
                forall|x: int| 0 <= x < m ==> entry_is(#[trigger] entries@[x], self@, shown@[x] as int),
            decreases shown@.len() - m,
        {
            let e = self.load_entry(shown[m]);
            entries.push(e);
            m = m + 1;
        }
        if dry_run {
            self.roll_back_entries(n0);
            assert(self@.entries =~= v0.entries);
        }
        Ok(ImportResult { imported, duplicates, dry_run, entries })
    }

    /// Apply a JSON Lines batch, all-or-nothing.
    pub fn import(&mut self, text: &str, dry_run: bool, default_actor: Option<&str>) -> (r: Result<
        ImportResult,
        LedgerError,
    >)
        requires
            old(self).wf(),
        ensures
            final(self).wf(),
            ledger_extends(old(self)@, final(self)@),
            exists|clock: Seq<char>|
                crate::time::storage_shape(clock) && #[trigger] import_post(
                    old(self)@,
                    final(self)@,
                    text@,
                    dry_run,
                    super::oref(default_actor),
                    clock,
                    r,
                ),
    {
        let clock = crate::time::now();
        self.import_at(text, dry_run, default_actor, clock.as_str())
    }
}

} // verus!
