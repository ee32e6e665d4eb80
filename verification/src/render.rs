//! Human-readable tables and CSV export of operation results.

use vstd::prelude::*;

use crate::model::{
    Account, AccountAddResult, AccountBalance, AccountPnl, AddResult, BalanceAt, Entry, GroupView,
    History, HistoryEntry, ImportResult, PnlRow, ReconcileResult, ReverseResult, ShowResult,
    Snapshot, SnapshotList, TransferResult,
};
use crate::model::kind_text;
use crate::text::{digits_of, from_chars, i64_text, int_text, usize_text, push_chars, to_chars, trim_end, trim_end_chars};

verus! {

/// `n` copies of `c`.
pub open spec fn repeat_char(c: char, n: nat) -> Seq<char> {
    Seq::new(n, |_i: int| c)
}

/// The cell at column `i` of a row; an empty text where the row is shorter.
pub open spec fn cell_at(row: Seq<Seq<char>>, i: int) -> Seq<char> {
    if 0 <= i < row.len() {
        row[i]
    } else {
        Seq::empty()
    }
}

/// Width of column `i`: the longest of its header and its cells, in characters.
pub open spec fn col_width(headers: Seq<Seq<char>>, rows: Seq<Seq<Seq<char>>>, i: int) -> nat
    decreases rows.len(),
{
    if rows.len() == 0 {
        headers[i].len()
    } else {
        let w = col_width(headers, rows.drop_last(), i);
        let c = cell_at(rows.last(), i).len();
        if c > w {
            c
        } else {
            w
        }
    }
}

/// Width of every column.
pub open spec fn widths_of(headers: Seq<Seq<char>>, rows: Seq<Seq<Seq<char>>>) -> Seq<nat> {
    Seq::new(headers.len(), |i: int| col_width(headers, rows, i))
}

/// A cell filled with spaces to `width`, on the left when right-aligned.
pub open spec fn pad(cell: Seq<char>, width: nat, right: bool) -> Seq<char> {
    let fill = repeat_char(' ', (width - cell.len()) as nat);
    if right {
        fill + cell
    } else {
        cell + fill
    }
}

/// The parts with `sep` between each two.
pub open spec fn join_with(parts: Seq<Seq<char>>, sep: Seq<char>) -> Seq<char>
    decreases parts.len(),
{
    if parts.len() == 0 {
        Seq::empty()
    } else if parts.len() == 1 {
        parts[0]
    } else {
        join_with(parts.drop_last(), sep) + sep + parts.last()
    }
}

/// The padded cells of one line of a table.
pub open spec fn padded_cells(cells: Seq<Seq<char>>, widths: Seq<nat>, right: Seq<usize>) -> Seq<
    Seq<char>,
> {
    Seq::new(
        widths.len(),
        |i: int| pad(cell_at(cells, i), widths[i], right.contains(i as usize)),
    )
}

/// One line of a table, without its newline: padded cells two spaces apart,
/// trailing whitespace removed.
pub open spec fn row_text(cells: Seq<Seq<char>>, widths: Seq<nat>, right: Seq<usize>) -> Seq<char> {
    trim_end(join_with(padded_cells(cells, widths, right), seq![' ', ' ']))
}

/// The lines of all rows, each ended by a newline.
pub open spec fn rows_text(rows: Seq<Seq<Seq<char>>>, widths: Seq<nat>, right: Seq<usize>) -> Seq<
    char,
>
    decreases rows.len(),
{
    if rows.len() == 0 {
        Seq::empty()
    } else {
        rows_text(rows.drop_last(), widths, right) + row_text(rows.last(), widths, right) + seq![
            '\n',
        ]
    }
}

/// Dashes as wide as each column.
pub open spec fn rule_cells(widths: Seq<nat>) -> Seq<Seq<char>> {
    Seq::new(widths.len(), |i: int| repeat_char('-', widths[i]))
}

/// An aligned text table: the header line, a line of dashes, then one line
/// per row. Columns listed in `right` are right-aligned; cells past the last
/// header are left out.
pub open spec fn table_text(
    headers: Seq<Seq<char>>,
    rows: Seq<Seq<Seq<char>>>,
    right: Seq<usize>,
) -> Seq<char> {
    let w = widths_of(headers, rows);
    row_text(headers, w, right) + seq!['\n'] + row_text(rule_cells(w), w, right) + seq!['\n']
        + rows_text(rows, w, right)
}

/// The texts of a slice of string slices.
pub open spec fn strs_view(s: Seq<&str>) -> Seq<Seq<char>> {
    s.map_values(|x: &str| x@)
}

/// The texts of a row of strings.
pub open spec fn cells_view(s: Seq<String>) -> Seq<Seq<char>> {
    s.map_values(|x: String| x@)
}

/// The texts of rows of strings.
pub open spec fn rows_view(s: Seq<Vec<String>>) -> Seq<Seq<Seq<char>>> {
    s.map_values(|r: Vec<String>| cells_view(r@))
}

/// The widths as natural numbers.
spec fn nats(w: Seq<usize>) -> Seq<nat> {
    w.map_values(|x: usize| x as nat)
}

/// Whether `v` holds `x`.
fn holds(v: &[usize], x: usize) -> (r: bool)
    ensures
        r == v@.contains(x),
{
    let mut i: usize = 0;
    while i < v.len()
        invariant
            i <= v.len(),
            forall|j: int| 0 <= j < i ==> v@[j] != x,
        decreases v.len() - i,
    {
        if v[i] == x {
            assert(v@[i as int] == x);
            return true;
        }
        i = i + 1;
    }
    false
}

/// The widths of the columns of a table.
fn column_widths(headers: &[&str], rows: &[Vec<String>]) -> (w: Vec<usize>)
    ensures
        w.len() == headers.len(),
        nats(w@) == widths_of(strs_view(headers@), rows_view(rows@)),
{
    let ghost hs = strs_view(headers@);
    let ghost rs = rows_view(rows@);
    let cols = headers.len();
    let mut w: Vec<usize> = Vec::new();
    let mut j: usize = 0;
    while j < cols
        invariant
            j <= cols,
            cols == headers.len(),
            hs == strs_view(headers@),
            rs == rows_view(rows@),
            w.len() == j,
            forall|i: int| 0 <= i < j ==> w@[i] == col_width(hs, rs.take(0), i),
        decreases cols - j,
    {
        let n = headers[j].unicode_len();
        w.push(n);
        j = j + 1;
    }
    let mut r: usize = 0;
    while r < rows.len()
        invariant
            r <= rows.len(),
            cols == headers.len(),
            hs == strs_view(headers@),
            rs == rows_view(rows@),
            hs.len() == cols,
            rs.len() == rows.len(),
            w.len() == cols,
            forall|i: int| 0 <= i < cols ==> w@[i] == col_width(hs, rs.take(r as int), i),
        decreases rows.len() - r,
    {
        let row = &rows[r];
        let ghost next = rs.take(r + 1);
        proof {
            assert(next.drop_last() =~= rs.take(r as int));
            assert(next.last() == cells_view(row@));
        }
        let mut j: usize = 0;
        while j < cols
            invariant
                j <= cols,
                r < rows.len(),
                cols == headers.len(),
                hs.len() == cols,
                rs.len() == rows.len(),
                row == &rows@[r as int],
                next == rs.take(r + 1),
                next.drop_last() == rs.take(r as int),
                next.last() == cells_view(row@),
                w.len() == cols,
                forall|i: int| 0 <= i < j ==> w@[i] == col_width(hs, next, i),
                forall|i: int| j <= i < cols ==> w@[i] == col_width(hs, rs.take(r as int), i),
            decreases cols - j,
        {
            let n: usize = if j < row.len() {
                row[j].as_str().unicode_len()
            } else {
                0
            };
            assert(n == cell_at(next.last(), j as int).len());
            if n > w[j] {
                w.set(j, n);
            }
            j = j + 1;
        }
        r = r + 1;
    }
    proof {
        assert(rs.take(rows.len() as int) =~= rs);
        assert(nats(w@) =~= widths_of(hs, rs));
    }
    w
}

proof fn lemma_col_width_bounds(hs: Seq<Seq<char>>, rs: Seq<Seq<Seq<char>>>, i: int)
    ensures
        col_width(hs, rs, i) >= hs[i].len(),
        forall|k: int| 0 <= k < rs.len() ==> col_width(hs, rs, i) >= #[trigger] cell_at(rs[k], i).len(),
    decreases rs.len(),
{
    if rs.len() > 0 {
        lemma_col_width_bounds(hs, rs.drop_last(), i);
        assert forall|k: int| 0 <= k < rs.len() implies col_width(hs, rs, i) >= #[trigger] cell_at(
            rs[k],
            i,
        ).len() by {
            if k < rs.len() - 1 {
                assert(rs[k] == rs.drop_last()[k]);
            }
        }
    }
}

/// `out` followed by `n` copies of `c`.
fn push_repeat(out: &mut Vec<char>, c: char, n: usize)
    ensures
        final(out)@ == old(out)@ + repeat_char(c, n as nat),
{
    let mut k: usize = 0;
    while k < n
        invariant
            k <= n,
            out@ == old(out)@ + repeat_char(c, k as nat),
        decreases n - k,
    {
        out.push(c);
        assert(repeat_char(c, (k + 1) as nat) =~= repeat_char(c, k as nat).push(c));
        k = k + 1;
    }
}

/// One line of a table, as `row_text` describes it.
fn row_line(cells: &Vec<String>, widths: &Vec<usize>, right: &[usize]) -> (r: Vec<char>)
    requires
        forall|i: int| 0 <= i < widths.len() ==> #[trigger] cell_at(cells_view(cells@), i).len() <= widths@[i],
    ensures
        r@ == row_text(cells_view(cells@), nats(widths@), right@),
{
    let ghost cs = cells_view(cells@);
    let ghost ws = nats(widths@);
    let ghost parts = padded_cells(cs, ws, right@);
    let ghost sep = seq![' ', ' '];
    let mut line: Vec<char> = Vec::new();
    let mut i: usize = 0;
    while i < widths.len()
        invariant
            i <= widths.len(),
            cs == cells_view(cells@),
            ws == nats(widths@),
            parts == padded_cells(cs, ws, right@),
            sep == seq![' ', ' '],
            forall|k: int| 0 <= k < widths.len() ==> #[trigger] cell_at(cs, k).len() <= widths@[k],
            line@ == join_with(parts.take(i as int), sep),
        decreases widths.len() - i,
    {
        let ghost before = line@;
        if i > 0 {
            line.push(' ');
            line.push(' ');
        }
        let ghost mid = line@;
        let cell: Vec<char> = if i < cells.len() {
            to_chars(cells[i].as_str())
        } else {
            Vec::new()
        };
        assert(cell@ == cell_at(cs, i as int));
        assert(cell@.len() <= widths@[i as int]);
        let fill = widths[i] - cell.len();
        if holds(right, i) {
            push_repeat(&mut line, ' ', fill);
            push_chars(&mut line, &cell);
        } else {
            push_chars(&mut line, &cell);
            push_repeat(&mut line, ' ', fill);
        }
        proof {
            let t = parts.take(i + 1);
            assert(t.drop_last() =~= parts.take(i as int));
            assert(t.last() == parts[i as int]);
            assert(parts[i as int] == pad(cell@, ws[i as int], right@.contains(i)));
            assert(line@ =~= mid + parts[i as int]);
            if i > 0 {
                assert(mid =~= before + sep);
            } else {
                assert(t =~= seq![parts[0]]);
            }
        }
        i = i + 1;
    }
    assert(parts.take(widths.len() as int) =~= parts);
    trim_end_chars(&line)
}

/// An aligned text table. `right` lists column indexes that are right-aligned.
pub fn table(headers: &[&str], rows: &[Vec<String>], right: &[usize]) -> (r: String)
    ensures
        r@ == table_text(strs_view(headers@), rows_view(rows@), right@),
{
    let ghost hs = strs_view(headers@);
    let ghost rs = rows_view(rows@);
    let w = column_widths(headers, rows);
    let ghost ws = nats(w@);
    assert(ws == widths_of(hs, rs));
    proof {
        assert forall|i: int, k: int| 0 <= i < w.len() && 0 <= k < rs.len() implies #[trigger] cell_at(
            rs[k],
            i,
        ).len() <= w@[i] by {
            lemma_col_width_bounds(hs, rs, i);
            assert(ws[i] == col_width(hs, rs, i));
        }
    }
    proof {
        assert forall|i: int| 0 <= i < w.len() implies #[trigger] cell_at(hs, i).len() <= w@[i] by {
            lemma_col_width_bounds(hs, rs, i);
            assert(ws[i] == col_width(hs, rs, i));
        }
    }
    let mut hcells: Vec<String> = Vec::new();
    let mut rule: Vec<String> = Vec::new();
    let mut j: usize = 0;
    while j < headers.len()
        invariant
            j <= headers.len(),
            w.len() == headers.len(),
            hs == strs_view(headers@),
            ws == nats(w@),
            hcells.len() == j,
            rule.len() == j,
            forall|i: int| 0 <= i < j ==> #[trigger] hcells@[i]@ == hs[i],
            forall|i: int| 0 <= i < j ==> #[trigger] rule@[i]@ == repeat_char('-', ws[i]),
        decreases headers.len() - j,
    {
        hcells.push(String::from_str(headers[j]));
        let mut dashes: Vec<char> = Vec::new();
        push_repeat(&mut dashes, '-', w[j]);
        rule.push(from_chars(&dashes));
        j = j + 1;
    }
    assert(cells_view(hcells@) =~= hs);
    assert(cells_view(rule@) =~= rule_cells(ws));
    let mut out: Vec<char> = Vec::new();
    let head = row_line(&hcells, &w, right);
    push_chars(&mut out, &head);
    out.push('\n');
    assert forall|i: int| 0 <= i < w.len() implies #[trigger] cell_at(cells_view(rule@), i).len()
        <= w@[i] by {
        assert(cell_at(cells_view(rule@), i) == repeat_char('-', ws[i]));
    }
    let line = row_line(&rule, &w, right);
    push_chars(&mut out, &line);
    out.push('\n');
    let ghost top = out@;
    let mut k: usize = 0;
    while k < rows.len()
        invariant
            k <= rows.len(),
            w.len() == headers.len(),
            hs == strs_view(headers@),
            rs == rows_view(rows@),
            ws == nats(w@),
            forall|i: int, m: int|
                0 <= i < w.len() && 0 <= m < rs.len() ==> #[trigger] cell_at(rs[m], i).len()
                    <= w@[i],
            out@ == top + rows_text(rs.take(k as int), ws, right@),
        decreases rows.len() - k,
    {
        let row = &rows[k];
        assert(cells_view(row@) == rs[k as int]);
        assert forall|i: int| 0 <= i < w.len() implies #[trigger] cell_at(cells_view(row@), i).len()
            <= w@[i] by {
            assert(cell_at(rs[k as int], i).len() <= w@[i]);
        }
        let line = row_line(row, &w, right);
        push_chars(&mut out, &line);
        out.push('\n');
        proof {
            let t = rs.take(k + 1);
            assert(t.drop_last() =~= rs.take(k as int));
            assert(t.last() == rs[k as int]);
        }
        k = k + 1;
    }
    assert(rs.take(rows.len() as int) =~= rs);
    from_chars(&out)
}

/// An optional text, empty when absent.
pub open spec fn opt_text(v: Option<String>) -> Seq<char> {
    match v {
        Some(s) => s@,
        None => Seq::empty(),
    }
}

/// An optional id as decimal text, empty when absent.
pub open spec fn opt_id_text(v: Option<i64>) -> Seq<char> {
    match v {
        Some(id) => int_text(id as int),
        None => Seq::empty(),
    }
}

/// The reversal column: which entry this one reverses, or which reverses it.
pub open spec fn rev_text(e: Entry) -> Seq<char> {
    match (e.reverses_id, e.reversed_by) {
        (Some(id), _) => "reverses "@ + int_text(id as int),
        (None, Some(by)) => "reversed by "@ + int_text(by as int),
        (None, None) => Seq::empty(),
    }
}

/// Column headers of an entry table.
pub open spec fn entry_headers(with_account: bool) -> Seq<Seq<char>> {
    seq!["id"@] + (if with_account {
        seq!["account"@]
    } else {
        Seq::empty()
    }) + seq![
        "ts"@,
        "kind"@,
        "amount"@,
        "ref"@,
        "group"@,
        "memo"@,
        "actor"@,
        "reversal"@,
    ]
}

/// The cells of an entry in an entry table.
pub open spec fn entry_cells(e: Entry, with_account: bool) -> Seq<Seq<char>> {
    seq![int_text(e.id as int)] + (if with_account {
        seq![e.account@]
    } else {
        Seq::empty()
    }) + seq![
        e.ts@,
        kind_text(e.kind),
        e.amount@,
        opt_text(e.reference),
        opt_text(e.group_id),
        opt_text(e.memo),
        opt_text(e.actor),
        rev_text(e),
    ]
}

/// The right-aligned columns of an entry table: the id and the amount.
pub open spec fn entry_right(with_account: bool) -> Seq<usize> {
    seq![0usize, if with_account { 4usize } else { 3usize }]
}

/// A table of entries, with the account column when `with_account`.
pub open spec fn entries_table_text(entries: Seq<Entry>, with_account: bool) -> Seq<char> {
    table_text(
        entry_headers(with_account),
        entries.map_values(|e: Entry| entry_cells(e, with_account)),
        entry_right(with_account),
    )
}

/// Column headers of a history table.
pub open spec fn history_headers() -> Seq<Seq<char>> {
    seq![
        "id"@,
        "ts"@,
        "kind"@,
        "amount"@,
        "balance"@,
        "ref"@,
        "group"@,
        "memo"@,
        "actor"@,
        "reversal"@,
    ]
}

/// The cells of a history line.
pub open spec fn history_cells(x: HistoryEntry) -> Seq<Seq<char>> {
    let e = x.entry;
    seq![
        int_text(e.id as int),
        e.ts@,
        kind_text(e.kind),
        e.amount@,
        x.balance_after@,
        opt_text(e.reference),
        opt_text(e.group_id),
        opt_text(e.memo),
        opt_text(e.actor),
        rev_text(e),
    ]
}

/// An account's history: a title line, then its entries with running balances.
pub open spec fn history_text(h: History) -> Seq<char> {
    h.account@ + " ("@ + h.currency@ + ")\n"@ + table_text(
        history_headers(),
        h.entries@.map_values(|x: HistoryEntry| history_cells(x)),
        seq![0usize, 3usize, 4usize],
    )
}

/// Whether a CSV field must be quoted: it holds a comma, a quote or a newline.
pub open spec fn needs_quotes(s: Seq<char>) -> bool {
    s.contains(',') || s.contains('"') || s.contains('\n')
}

/// `s` with every quote doubled.
pub open spec fn double_quotes(s: Seq<char>) -> Seq<char>
    decreases s.len(),
{
    if s.len() == 0 {
        Seq::empty()
    } else {
        double_quotes(s.drop_last()) + if s.last() == '"' {
            seq!['"', '"']
        } else {
            seq![s.last()]
        }
    }
}

/// A CSV field: quoted, with quotes doubled, only where needed.
pub open spec fn csv_field_text(s: Seq<char>) -> Seq<char> {
    if needs_quotes(s) {
        seq!['"'] + double_quotes(s) + seq!['"']
    } else {
        s
    }
}

/// The header line of a CSV export.
pub open spec fn csv_header() -> Seq<char> {
    "id,ts,recorded_at,kind,amount,balance_after,ref,memo,actor,group_id,meta,reverses_id,reversed_by\n"@
}

/// The fields of a history line in a CSV export.
pub open spec fn csv_fields(x: HistoryEntry) -> Seq<Seq<char>> {
    let e = x.entry;
    seq![
        int_text(e.id as int),
        e.ts@,
        e.recorded_at@,
        kind_text(e.kind),
        e.amount@,
        x.balance_after@,
        opt_text(e.reference),
        opt_text(e.memo),
        opt_text(e.actor),
        opt_text(e.group_id),
        opt_text(e.meta),
        opt_id_text(e.reverses_id),
        opt_id_text(e.reversed_by),
    ]
}

/// One CSV line: the fields, each quoted where needed, comma-separated.
pub open spec fn csv_line(x: HistoryEntry) -> Seq<char> {
    join_with(csv_fields(x).map_values(|f: Seq<char>| csv_field_text(f)), seq![',']) + seq!['\n']
}

/// The CSV lines of a history.
pub open spec fn csv_lines(xs: Seq<HistoryEntry>) -> Seq<char>
    decreases xs.len(),
{
    if xs.len() == 0 {
        Seq::empty()
    } else {
        csv_lines(xs.drop_last()) + csv_line(xs.last())
    }
}

/// A CSV export of a history: the header line, then one line per entry.
pub open spec fn csv_text(h: History) -> Seq<char> {
    csv_header() + csv_lines(h.entries@)
}

/// `v` or an empty string.
pub fn opt(v: &Option<String>) -> (r: String)
    ensures
        r@ == opt_text(*v),
{
    match v {
        Some(s) => s.clone(),
        None => String::new(),
    }
}

/// An optional id as decimal text, empty when absent.
fn opt_id(v: Option<i64>) -> (r: String)
    ensures
        r@ == opt_id_text(v),
{
    match v {
        Some(id) => i64_text(id),
        None => String::new(),
    }
}

/// The reversal column of an entry.
fn rev(e: &Entry) -> (r: String)
    ensures
        r@ == rev_text(*e),
{
    let mut s = String::new();
    match (e.reverses_id, e.reversed_by) {
        (Some(id), _) => {
            s.append("reverses ");
            s.append(i64_text(id).as_str());
        },
        (None, Some(by)) => {
            s.append("reversed by ");
            s.append(i64_text(by).as_str());
        },
        (None, None) => {},
    }
    s
}

/// The cells of an entry in an entry table.
fn entry_row(e: &Entry, with_account: bool) -> (r: Vec<String>)
    ensures
        cells_view(r@) == entry_cells(*e, with_account),
{
    let mut row: Vec<String> = Vec::new();
    row.push(i64_text(e.id));
    if with_account {
        row.push(e.account.clone());
    }
    row.push(e.ts.clone());
    row.push(String::from_str(e.kind.as_str()));
    row.push(e.amount.clone());
    row.push(opt(&e.reference));
    row.push(opt(&e.group_id));
    row.push(opt(&e.memo));
    row.push(opt(&e.actor));
    row.push(rev(e));
    assert(cells_view(row@) =~= entry_cells(*e, with_account));
    row
}

/// A table of entry rows, with the account column when `with_account`.
fn entry_rows_table(rows: &Vec<Vec<String>>, with_account: bool) -> (r: String)
    ensures
        r@ == table_text(entry_headers(with_account), rows_view(rows@), entry_right(with_account)),
{
    let mut headers: Vec<&str> = Vec::new();
    headers.push("id");
    if with_account {
        headers.push("account");
    }
    headers.push("ts");
    headers.push("kind");
    headers.push("amount");
    headers.push("ref");
    headers.push("group");
    headers.push("memo");
    headers.push("actor");
    headers.push("reversal");
    assert(strs_view(headers@) =~= entry_headers(with_account));
    let mut right: Vec<usize> = Vec::new();
    right.push(0);
    right.push(if with_account { 4 } else { 3 });
    assert(right@ =~= entry_right(with_account));
    table(headers.as_slice(), rows.as_slice(), right.as_slice())
}

/// A table of entries, with the account column when `with_account`.
fn entries_table(entries: &[Entry], with_account: bool) -> (r: String)
    ensures
        r@ == entries_table_text(entries@, with_account),
{
    let ghost want = entries@.map_values(|e: Entry| entry_cells(e, with_account));
    let mut rows: Vec<Vec<String>> = Vec::new();
    let mut i: usize = 0;
    while i < entries.len()
        invariant
            i <= entries.len(),
            want == entries@.map_values(|e: Entry| entry_cells(e, with_account)),
            rows.len() == i,
            rows_view(rows@) =~= want.take(i as int),
        decreases entries.len() - i,
    {
        let row = entry_row(&entries[i], with_account);
        let ghost prev = rows@;
        rows.push(row);
        proof {
            assert(rows@ == prev.push(row));
            assert(want[i as int] == entry_cells(entries@[i as int], with_account));
            assert(rows_view(rows@)[i as int] == cells_view(row@));
            assert forall|k: int| 0 <= k < i implies rows_view(rows@)[k] == rows_view(prev)[k] by {
                assert(rows@[k] == prev[k]);
            }
        }
        assert(rows_view(rows@) =~= want.take(i + 1));
        i = i + 1;
    }
    assert(want.take(entries.len() as int) =~= want);
    entry_rows_table(&rows, with_account)
}

/// A table of a single entry.
fn entry_table(e: &Entry, with_account: bool) -> (r: String)
    ensures
        r@ == entries_table_text(seq![*e], with_account),
{
    let mut rows: Vec<Vec<String>> = Vec::new();
    rows.push(entry_row(e, with_account));
    assert(rows_view(rows@) =~= seq![*e].map_values(|x: Entry| entry_cells(x, with_account)));
    entry_rows_table(&rows, with_account)
}

/// An account's history with running balances.
fn history_table(h: &History) -> (r: String)
    ensures
        r@ == history_text(*h),
{
    let ghost want = h.entries@.map_values(|x: HistoryEntry| history_cells(x));
    let mut rows: Vec<Vec<String>> = Vec::new();
    let mut i: usize = 0;
    while i < h.entries.len()
        invariant
            i <= h.entries.len(),
            want == h.entries@.map_values(|x: HistoryEntry| history_cells(x)),
            rows.len() == i,
            rows_view(rows@) =~= want.take(i as int),
        decreases h.entries.len() - i,
    {
        let x = &h.entries[i];
        let e = &x.entry;
        let mut row: Vec<String> = Vec::new();
        row.push(i64_text(e.id));
        row.push(e.ts.clone());
        row.push(String::from_str(e.kind.as_str()));
        row.push(e.amount.clone());
        row.push(x.balance_after.clone());
        row.push(opt(&e.reference));
        row.push(opt(&e.group_id));
        row.push(opt(&e.memo));
        row.push(opt(&e.actor));
        row.push(rev(e));
        assert(cells_view(row@) =~= history_cells(*x));
        let ghost prev = rows@;
        let ghost rv = cells_view(row@);
        rows.push(row);
        proof {
            assert(want[i as int] == history_cells(h.entries@[i as int]));
            assert(rows_view(rows@)[i as int] == rv);
            assert forall|k: int| 0 <= k < i implies rows_view(rows@)[k] == rows_view(prev)[k] by {
                assert(rows@[k] == prev[k]);
            }
        }
        assert(rows_view(rows@) =~= want.take(i + 1));
        i = i + 1;
    }
    assert(want.take(h.entries.len() as int) =~= want);
    let mut headers: Vec<&str> = Vec::new();
    headers.push("id");
    headers.push("ts");
    headers.push("kind");
    headers.push("amount");
    headers.push("balance");
    headers.push("ref");
    headers.push("group");
    headers.push("memo");
    headers.push("actor");
    headers.push("reversal");
    assert(strs_view(headers@) =~= history_headers());
    let mut right: Vec<usize> = Vec::new();
    right.push(0);
    right.push(3);
    right.push(4);
    assert(right@ =~= seq![0usize, 3usize, 4usize]);
    let t = table(headers.as_slice(), rows.as_slice(), right.as_slice());
    let mut s = h.account.clone();
    s.append(" (");
    s.append(h.currency.as_str());
    s.append(")\n");
    s.append(t.as_str());
    s
}

/// A CSV field, quoted only when it holds a comma, a quote or a newline.
pub fn csv_field(s: &str) -> (r: String)
    ensures
        r@ == csv_field_text(s@),
{
    let v = to_chars(s);
    let mut quote = false;
    let mut i: usize = 0;
    while i < v.len()
        invariant
            i <= v.len(),
            quote == (v@.take(i as int).contains(',') || v@.take(i as int).contains('"')
                || v@.take(i as int).contains('\n')),
        decreases v.len() - i,
    {
        let c = v[i];
        let ghost t = v@.take(i + 1);
        proof {
            assert(t =~= v@.take(i as int).push(c));
            assert(t[i as int] == c);
            assert forall|d: char| t.contains(d) == (v@.take(i as int).contains(d) || d == c) by {
                if t.contains(d) {
                    let k = choose|k: int| 0 <= k < t.len() && t[k] == d;
                    if k < i {
                        assert(v@.take(i as int)[k] == d);
                    }
                }
                if v@.take(i as int).contains(d) {
                    let k = choose|k: int| 0 <= k < i && v@.take(i as int)[k] == d;
                    assert(t[k] == d);
                }
            }
        }
        if c == ',' || c == '"' || c == '\n' {
            quote = true;
        }
        i = i + 1;
    }
    assert(v@.take(v.len() as int) =~= s@);
    if !quote {
        return from_chars(&v);
    }
    let mut out: Vec<char> = Vec::new();
    out.push('"');
    let mut k: usize = 0;
    while k < v.len()
        invariant
            k <= v.len(),
            v@ == s@,
            out@ == seq!['"'] + double_quotes(v@.take(k as int)),
        decreases v.len() - k,
    {
        let c = v[k];
        proof {
            let t = v@.take(k + 1);
            assert(t.drop_last() =~= v@.take(k as int));
            assert(t.last() == c);
        }
        if c == '"' {
            out.push('"');
            out.push('"');
        } else {
            out.push(c);
        }
        assert(out@ =~= seq!['"'] + double_quotes(v@.take(k + 1)));
        k = k + 1;
    }
    out.push('"');
    assert(v@.take(v.len() as int) =~= v@);
    from_chars(&out)
}

/// One CSV line of a history line.
fn csv_row(x: &HistoryEntry) -> (r: String)
    ensures
        r@ == csv_line(*x),
{
    let e = &x.entry;
    let mut fields: Vec<String> = Vec::new();
    fields.push(i64_text(e.id));
    fields.push(e.ts.clone());
    fields.push(e.recorded_at.clone());
    fields.push(String::from_str(e.kind.as_str()));
    fields.push(e.amount.clone());
    fields.push(x.balance_after.clone());
    fields.push(opt(&e.reference));
    fields.push(opt(&e.memo));
    fields.push(opt(&e.actor));
    fields.push(opt(&e.group_id));
    fields.push(opt(&e.meta));
    fields.push(opt_id(e.reverses_id));
    fields.push(opt_id(e.reversed_by));
    let ghost fs = csv_fields(*x);
    assert(cells_view(fields@) =~= fs);
    let ghost parts = fs.map_values(|f: Seq<char>| csv_field_text(f));
    let mut out: Vec<char> = Vec::new();
    let mut i: usize = 0;
    while i < fields.len()
        invariant
            i <= fields.len(),
            fields.len() == 13,
            cells_view(fields@) == fs,
            parts == fs.map_values(|f: Seq<char>| csv_field_text(f)),
            out@ == join_with(parts.take(i as int), seq![',']),
        decreases fields.len() - i,
    {
        let ghost before = out@;
        if i > 0 {
            out.push(',');
        }
        let ghost mid = out@;
        let f = csv_field(fields[i].as_str());
        let fv = to_chars(f.as_str());
        push_chars(&mut out, &fv);
        proof {
            assert(fields@[i as int]@ == fs[i as int]);
            let t = parts.take(i + 1);
            assert(t.drop_last() =~= parts.take(i as int));
            assert(t.last() == parts[i as int]);
            if i > 0 {
                assert(mid =~= before + seq![',']);
            } else {
                assert(t =~= seq![parts[0]]);
            }
        }
        i = i + 1;
    }
    assert(parts.take(13) =~= parts);
    out.push('\n');
    from_chars(&out)
}

/// A CSV export of an account's history.
pub fn csv(history: &History) -> (r: String)
    ensures
        r@ == csv_text(*history),
{
    let mut out = String::from_str(
        "id,ts,recorded_at,kind,amount,balance_after,ref,memo,actor,group_id,meta,reverses_id,reversed_by\n",
    );
    let mut i: usize = 0;
    while i < history.entries.len()
        invariant
            i <= history.entries.len(),
            out@ == csv_header() + csv_lines(history.entries@.take(i as int)),
        decreases history.entries.len() - i,
    {
        let line = csv_row(&history.entries[i]);
        out.append(line.as_str());
        proof {
            let t = history.entries@.take(i + 1);
            assert(t.drop_last() =~= history.entries@.take(i as int));
            assert(t.last() == history.entries@[i as int]);
        }
        i = i + 1;
    }
    assert(history.entries@.take(history.entries.len() as int) =~= history.entries@);
    out
}

/// One result per command.
#[derive(Debug)]
#[allow(inconsistent_fields)]
pub enum Output {
    Account(AccountAddResult),
    Accounts { accounts: Vec<Account> },
    Add(AddResult),
    Show(ShowResult),
    Transfer(TransferResult),
    Reverse(ReverseResult),
    Balances { accounts: Vec<AccountBalance> },
    Balance(BalanceAt),
    History(History),
    Group(GroupView),
    /// P&L rows per account. `marked` adds the open-value and mark-to-market
    /// columns; `total` labels the bucket-less row `total` rather than `null`.
    Pnl { accounts: Vec<AccountPnl>, marked: bool, total: bool },
    Reconcile(ReconcileResult),
    Snapshots(SnapshotList),
    Import(ImportResult),
    /// Pre-rendered text (CSV), printed verbatim.
    Raw(String),
}

/// A flag's note, or nothing.
pub open spec fn when(flag: bool, note: Seq<char>) -> Seq<char> {
    if flag {
        note
    } else {
        Seq::empty()
    }
}

/// The line for an added or found account.
pub open spec fn account_line(r: AccountAddResult) -> Seq<char> {
    "account "@ + r.account.name@ + " ("@ + r.account.currency@ + ", "@ + digits_of(
        r.account.decimals as nat,
    ) + " decimals) id="@ + int_text(r.account.id as int) + when(
        r.duplicate,
        "  (duplicate: account already existed)"@,
    ) + "\n"@
}

/// Column headers of the account list.
pub open spec fn account_headers() -> Seq<Seq<char>> {
    seq!["id"@, "name"@, "currency"@, "decimals"@, "note"@]
}

/// The cells of an account in the account list.
pub open spec fn account_cells(a: Account) -> Seq<Seq<char>> {
    seq![int_text(a.id as int), a.name@, a.currency@, digits_of(a.decimals as nat), opt_text(a.note)]
}

/// Column headers of the balance list.
pub open spec fn balance_headers() -> Seq<Seq<char>> {
    seq!["account"@, "currency"@, "balance"@, "entries"@, "last_ts"@, "last_reconciled_at"@]
}

/// The cells of an account in the balance list.
pub open spec fn balance_cells(b: AccountBalance) -> Seq<Seq<char>> {
    seq![
        b.account@,
        b.currency@,
        b.balance@,
        int_text(b.entries as int),
        opt_text(b.last_ts),
        opt_text(b.last_reconciled_at),
    ]
}

/// The line of one account's balance, with the time it was taken at, if any.
pub open spec fn balance_line(b: BalanceAt) -> Seq<char> {
    match b.at {
        Some(at) => b.account@ + " "@ + b.balance@ + " "@ + b.currency@ + " at "@ + at@ + "\n"@,
        None => b.account@ + " "@ + b.balance@ + " "@ + b.currency@ + "\n"@,
    }
}

/// The net lines of a group, one per currency, in order.
pub open spec fn net_lines(net: Seq<(String, String)>) -> Seq<char>
    decreases net.len(),
{
    if net.len() == 0 {
        Seq::empty()
    } else {
        net_lines(net.drop_last()) + "net "@ + net.last().1@ + " "@ + net.last().0@ + "\n"@
    }
}

/// Column headers of a P&L table.
pub open spec fn pnl_headers(marked: bool) -> Seq<Seq<char>> {
    seq!["bucket"@, "trades"@, "settlements"@, "fees"@, "adjustments"@, "other"@, "net"@] + when_cells(
        marked,
        seq!["open_value"@, "mtm"@],
    )
}

/// Cells added when `flag` holds.
pub open spec fn when_cells(flag: bool, cells: Seq<Seq<char>>) -> Seq<Seq<char>> {
    if flag {
        cells
    } else {
        Seq::empty()
    }
}

/// Every column of a P&L table but the bucket is right-aligned.
pub open spec fn pnl_right(marked: bool) -> Seq<usize> {
    let n: nat = if marked {
        8
    } else {
        6
    };
    Seq::new(n, |i: int| (i + 1) as usize)
}

/// The cells of a P&L row.
pub open spec fn pnl_cells(r: PnlRow, marked: bool, total: bool) -> Seq<Seq<char>> {
    let bucket = match r.bucket {
        Some(b) => b@,
        None => if total {
            "total"@
        } else {
            "null"@
        },
    };
    seq![bucket, r.trades@, r.settlements@, r.fees@, r.adjustments@, r.other@, r.net@] + when_cells(
        marked,
        seq![opt_text(r.open_value), r.mtm@],
    )
}

/// One account's P&L: a title line and its table.
pub open spec fn account_pnl_text(a: AccountPnl, marked: bool, total: bool) -> Seq<char> {
    a.account@ + " ("@ + a.currency@ + ")\n"@ + table_text(
        pnl_headers(marked),
        a.rows@.map_values(|r: PnlRow| pnl_cells(r, marked, total)),
        pnl_right(marked),
    )
}

/// Every account's P&L, in order.
pub open spec fn pnl_text(accounts: Seq<AccountPnl>, marked: bool, total: bool) -> Seq<char>
    decreases accounts.len(),
{
    if accounts.len() == 0 {
        Seq::empty()
    } else {
        pnl_text(accounts.drop_last(), marked, total) + account_pnl_text(
            accounts.last(),
            marked,
            total,
        )
    }
}

/// Whether a difference shows zero: nothing but zeros, a point or a sign.
pub open spec fn shows_zero(diff: Seq<char>) -> bool {
    forall|i: int| 0 <= i < diff.len() ==> #[trigger] diff[i] == '0' || diff[i] == '.' || diff[i] == '-'
}

/// The first line of a reconciliation.
pub open spec fn reconcile_head(r: ReconcileResult) -> Seq<char> {
    let s = r.snapshot;
    let head = match s.id {
        Some(id) => "snapshot "@ + int_text(id as int),
        None => "dry run"@,
    };
    let source = match s.source {
        Some(src) => " ("@ + src@ + ")"@,
        None => Seq::empty(),
    };
    head + " "@ + s.ts@ + ": observed "@ + s.observed@ + " book "@ + s.book@ + " diff "@ + s.diff@
        + source + when(r.duplicate, "  (duplicate: already recorded)"@) + "\n"@
}

/// A reconciliation: its line, then the adjustment posted or why none was.
pub open spec fn reconcile_text(r: ReconcileResult) -> Seq<char> {
    reconcile_head(r) + match r.adjustment {
        Some(e) => entries_table_text(seq![e], false),
        None => if r.dry_run {
            "nothing written\n"@
        } else if shows_zero(r.snapshot.diff@) {
            "no adjustment posted\n"@
        } else {
            "no adjustment posted; book the missing activity, or pass --adjust to post the diff\n"@
        },
    }
}

/// Column headers of the snapshot list.
pub open spec fn snapshot_headers() -> Seq<Seq<char>> {
    seq!["id"@, "ts"@, "observed"@, "book"@, "diff"@, "adjustment"@, "source"@]
}

/// The cells of a snapshot in the snapshot list.
pub open spec fn snapshot_cells(s: Snapshot) -> Seq<Seq<char>> {
    seq![
        opt_id_text(s.id),
        s.ts@,
        s.observed@,
        s.book@,
        s.diff@,
        opt_id_text(s.adjustment_entry_id),
        opt_text(s.source),
    ]
}

/// The summary line of an import, then the entries it wrote or would write.
pub open spec fn import_text(r: ImportResult) -> Seq<char> {
    "imported "@ + digits_of(r.imported as nat) + " duplicates "@ + digits_of(r.duplicates as nat)
        + when(r.dry_run, "  (dry run, nothing written)"@) + "\n"@ + entries_table_text(
        r.entries@,
        true,
    )
}

/// The text `render` prints for a result.
pub open spec fn render_text(out: Output) -> Seq<char> {
    match out {
        Output::Account(r) => account_line(r),
        Output::Accounts { accounts } => table_text(
            account_headers(),
            accounts@.map_values(|a: Account| account_cells(a)),
            seq![0usize, 3usize],
        ),
        Output::Add(r) => entries_table_text(seq![r.entry], false) + "balance "@ + r.balance@ + " "@
            + r.entry.currency@ + when(r.duplicate, "  (duplicate: entry already existed)"@)
            + "\n"@,
        Output::Show(r) => entries_table_text(seq![r.entry], false) + "balance "@ + r.balance@
            + " "@ + r.entry.currency@ + "\n"@,
        Output::Transfer(r) => entries_table_text(r.entries@, true) + when(
            r.duplicate,
            "(duplicate: transfer already existed)\n"@,
        ),
        Output::Reverse(r) => entries_table_text(r.entries@, true),
        Output::Balances { accounts } => table_text(
            balance_headers(),
            accounts@.map_values(|b: AccountBalance| balance_cells(b)),
            seq![2usize, 3usize],
        ),
        Output::Balance(b) => balance_line(b),
        Output::History(h) => history_text(h),
        Output::Group(g) => entries_table_text(g.entries@, true) + net_lines(g.net@),
        Output::Pnl { accounts, marked, total } => pnl_text(accounts@, marked, total),
        Output::Reconcile(r) => reconcile_text(r),
        Output::Snapshots(l) => table_text(
            snapshot_headers(),
            l.snapshots@.map_values(|s: Snapshot| snapshot_cells(s)),
            seq![0usize, 2usize, 3usize, 4usize, 5usize],
        ),
        Output::Import(r) => import_text(r),
        Output::Raw(text) => text@,
    }
}

/// Pushes the cells of `row` as the next row, keeping `rows` equal to the
/// first rows of `want`.
proof fn lemma_push_row(
    prev: Seq<Vec<String>>,
    rows: Seq<Vec<String>>,
    row: Vec<String>,
    want: Seq<Seq<Seq<char>>>,
)
    requires
        rows == prev.push(row),
        prev.len() < want.len(),
        rows_view(prev) =~= want.take(prev.len() as int),
        cells_view(row@) == want[prev.len() as int],
    ensures
        rows_view(rows) =~= want.take(rows.len() as int),
{
    assert forall|k: int| 0 <= k < prev.len() implies rows_view(rows)[k] == rows_view(prev)[k] by {
        assert(rows[k] == prev[k]);
    }
    assert(rows_view(rows)[prev.len() as int] == cells_view(row@));
}

/// The account list.
fn accounts_table(accounts: &Vec<Account>) -> (r: String)
    ensures
        r@ == table_text(
            account_headers(),
            accounts@.map_values(|a: Account| account_cells(a)),
            seq![0usize, 3usize],
        ),
{
    let ghost want = accounts@.map_values(|a: Account| account_cells(a));
    let mut rows: Vec<Vec<String>> = Vec::new();
    let mut i: usize = 0;
    while i < accounts.len()
        invariant
            i <= accounts.len(),
            want == accounts@.map_values(|a: Account| account_cells(a)),
            rows.len() == i,
            rows_view(rows@) =~= want.take(i as int),
        decreases accounts.len() - i,
    {
        let a = &accounts[i];
        let mut row: Vec<String> = Vec::new();
        row.push(i64_text(a.id));
        row.push(a.name.clone());
        row.push(a.currency.clone());
        row.push(usize_text(a.decimals as usize));
        row.push(opt(&a.note));
        assert(cells_view(row@) =~= account_cells(*a));
        let ghost prev = rows@;
        rows.push(row);
        proof {
            lemma_push_row(prev, rows@, row, want);
        }
        i = i + 1;
    }
    assert(want.take(accounts.len() as int) =~= want);
    let mut headers: Vec<&str> = Vec::new();
    headers.push("id");
    headers.push("name");
    headers.push("currency");
    headers.push("decimals");
    headers.push("note");
    assert(strs_view(headers@) =~= account_headers());
    let mut right: Vec<usize> = Vec::new();
    right.push(0);
    right.push(3);
    assert(right@ =~= seq![0usize, 3usize]);
    table(headers.as_slice(), rows.as_slice(), right.as_slice())
}

/// The balance list.
fn balances_table(accounts: &Vec<AccountBalance>) -> (r: String)
    ensures
        r@ == table_text(
            balance_headers(),
            accounts@.map_values(|b: AccountBalance| balance_cells(b)),
            seq![2usize, 3usize],
        ),
{
    let ghost want = accounts@.map_values(|b: AccountBalance| balance_cells(b));
    let mut rows: Vec<Vec<String>> = Vec::new();
    let mut i: usize = 0;
    while i < accounts.len()
        invariant
            i <= accounts.len(),
            want == accounts@.map_values(|b: AccountBalance| balance_cells(b)),
            rows.len() == i,
            rows_view(rows@) =~= want.take(i as int),
        decreases accounts.len() - i,
    {
        let b = &accounts[i];
        let mut row: Vec<String> = Vec::new();
        row.push(b.account.clone());
        row.push(b.currency.clone());
        row.push(b.balance.clone());
        row.push(i64_text(b.entries));
        row.push(opt(&b.last_ts));
        row.push(opt(&b.last_reconciled_at));
        assert(cells_view(row@) =~= balance_cells(*b));
        let ghost prev = rows@;
        rows.push(row);
        proof {
            lemma_push_row(prev, rows@, row, want);
        }
        i = i + 1;
    }
    assert(want.take(accounts.len() as int) =~= want);
    let mut headers: Vec<&str> = Vec::new();
    headers.push("account");
    headers.push("currency");
    headers.push("balance");
    headers.push("entries");
    headers.push("last_ts");
    headers.push("last_reconciled_at");
    assert(strs_view(headers@) =~= balance_headers());
    let mut right: Vec<usize> = Vec::new();
    right.push(2);
    right.push(3);
    assert(right@ =~= seq![2usize, 3usize]);
    table(headers.as_slice(), rows.as_slice(), right.as_slice())
}

/// The snapshot list.
fn snapshots_table(l: &SnapshotList) -> (r: String)
    ensures
        r@ == table_text(
            snapshot_headers(),
            l.snapshots@.map_values(|s: Snapshot| snapshot_cells(s)),
            seq![0usize, 2usize, 3usize, 4usize, 5usize],
        ),
{
    let ghost want = l.snapshots@.map_values(|s: Snapshot| snapshot_cells(s));
    let mut rows: Vec<Vec<String>> = Vec::new();
    let mut i: usize = 0;
    while i < l.snapshots.len()
        invariant
            i <= l.snapshots.len(),
            want == l.snapshots@.map_values(|s: Snapshot| snapshot_cells(s)),
            rows.len() == i,
            rows_view(rows@) =~= want.take(i as int),
        decreases l.snapshots.len() - i,
    {
        let s = &l.snapshots[i];
        let mut row: Vec<String> = Vec::new();
        row.push(opt_id(s.id));
        row.push(s.ts.clone());
        row.push(s.observed.clone());
        row.push(s.book.clone());
        row.push(s.diff.clone());
        row.push(opt_id(s.adjustment_entry_id));
        row.push(opt(&s.source));
        assert(cells_view(row@) =~= snapshot_cells(*s));
        let ghost prev = rows@;
        rows.push(row);
        proof {
            lemma_push_row(prev, rows@, row, want);
        }
        i = i + 1;
    }
    assert(want.take(l.snapshots.len() as int) =~= want);
    let mut headers: Vec<&str> = Vec::new();
    headers.push("id");
    headers.push("ts");
    headers.push("observed");
    headers.push("book");
    headers.push("diff");
    headers.push("adjustment");
    headers.push("source");
    assert(strs_view(headers@) =~= snapshot_headers());
    let mut right: Vec<usize> = Vec::new();
    right.push(0);
    right.push(2);
    right.push(3);
    right.push(4);
    right.push(5);
    assert(right@ =~= seq![0usize, 2usize, 3usize, 4usize, 5usize]);
    table(headers.as_slice(), rows.as_slice(), right.as_slice())
}

/// One account's P&L.
fn account_pnl_table(a: &AccountPnl, marked: bool, total: bool) -> (r: String)
    ensures
        r@ == account_pnl_text(*a, marked, total),
{
    let ghost want = a.rows@.map_values(|r: PnlRow| pnl_cells(r, marked, total));
    let mut rows: Vec<Vec<String>> = Vec::new();
    let mut i: usize = 0;
    while i < a.rows.len()
        invariant
            i <= a.rows.len(),
            want == a.rows@.map_values(|r: PnlRow| pnl_cells(r, marked, total)),
            rows.len() == i,
            rows_view(rows@) =~= want.take(i as int),
        decreases a.rows.len() - i,
    {
        let p = &a.rows[i];
        let mut row: Vec<String> = Vec::new();
        match &p.bucket {
            Some(b) => row.push(b.clone()),
            None => row.push(String::from_str(if total { "total" } else { "null" })),
        }
        row.push(p.trades.clone());
        row.push(p.settlements.clone());
        row.push(p.fees.clone());
        row.push(p.adjustments.clone());
        row.push(p.other.clone());
        row.push(p.net.clone());
        if marked {
            row.push(opt(&p.open_value));
            row.push(p.mtm.clone());
        }
        assert(cells_view(row@) =~= pnl_cells(*p, marked, total));
        let ghost prev = rows@;
        rows.push(row);
        proof {
            lemma_push_row(prev, rows@, row, want);
        }
        i = i + 1;
    }
    assert(want.take(a.rows.len() as int) =~= want);
    let mut headers: Vec<&str> = Vec::new();
    headers.push("bucket");
    headers.push("trades");
    headers.push("settlements");
    headers.push("fees");
    headers.push("adjustments");
    headers.push("other");
    headers.push("net");
    if marked {
        headers.push("open_value");
        headers.push("mtm");
    }
    assert(strs_view(headers@) =~= pnl_headers(marked));
    let mut right: Vec<usize> = Vec::new();
    let mut k: usize = 1;
    while k < headers.len()
        invariant
            1 <= k <= headers.len(),
            headers.len() == if marked { 9usize } else { 7usize },
            right@ =~= Seq::new((k - 1) as nat, |j: int| (j + 1) as usize),
        decreases headers.len() - k,
    {
        right.push(k);
        k = k + 1;
    }
    assert(right@ =~= pnl_right(marked));
    let t = table(headers.as_slice(), rows.as_slice(), right.as_slice());
    let mut s = a.account.clone();
    s.append(" (");
    s.append(a.currency.as_str());
    s.append(")\n");
    s.append(t.as_str());
    s
}

/// The first line of a reconciliation.
fn reconcile_line(r: &ReconcileResult) -> (t: String)
    ensures
        t@ == reconcile_head(*r),
{
    let s = &r.snapshot;
    let mut out = String::new();
    match s.id {
        Some(id) => {
            out.append("snapshot ");
            out.append(i64_text(id).as_str());
        },
        None => out.append("dry run"),
    }
    let ghost head = out@;
    out.append(" ");
    out.append(s.ts.as_str());
    out.append(": observed ");
    out.append(s.observed.as_str());
    out.append(" book ");
    out.append(s.book.as_str());
    out.append(" diff ");
    out.append(s.diff.as_str());
    match &s.source {
        Some(src) => {
            out.append(" (");
            out.append(src.as_str());
            out.append(")");
        },
        None => {},
    }
    if r.duplicate {
        out.append("  (duplicate: already recorded)");
    }
    out.append("\n");
    assert(out@ =~= reconcile_head(*r));
    out
}

/// Whether every character of `d` is a zero, a point or a sign.
fn diff_shows_zero(d: &str) -> (b: bool)
    ensures
        b == shows_zero(d@),
{
    let v = to_chars(d);
    let mut i: usize = 0;
    while i < v.len()
        invariant
            i <= v.len(),
            v@ == d@,
            forall|j: int| 0 <= j < i ==> #[trigger] v@[j] == '0' || v@[j] == '.' || v@[j] == '-',
        decreases v.len() - i,
    {
        let c = v[i];
        if !(c == '0' || c == '.' || c == '-') {
            return false;
        }
        i = i + 1;
    }
    true
}

/// Human-readable text of a result.
pub fn render(out: &Output) -> (r: String)
    ensures
        r@ == render_text(*out),
{
    match out {
        Output::Account(r) => {
            let mut s = String::from_str("account ");
            s.append(r.account.name.as_str());
            s.append(" (");
            s.append(r.account.currency.as_str());
            s.append(", ");
            s.append(usize_text(r.account.decimals as usize).as_str());
            s.append(" decimals) id=");
            s.append(i64_text(r.account.id).as_str());
            if r.duplicate {
                s.append("  (duplicate: account already existed)");
            }
            s.append("\n");
            assert(s@ =~= account_line(*r));
            s
        },
        Output::Accounts { accounts } => accounts_table(accounts),
        Output::Add(r) => {
            let mut s = entry_table(&r.entry, false);
            s.append("balance ");
            s.append(r.balance.as_str());
            s.append(" ");
            s.append(r.entry.currency.as_str());
            if r.duplicate {
                s.append("  (duplicate: entry already existed)");
            }
            s.append("\n");
            assert(s@ =~= render_text(*out));
            s
        },
        Output::Show(r) => {
            let mut s = entry_table(&r.entry, false);
            s.append("balance ");
            s.append(r.balance.as_str());
            s.append(" ");
            s.append(r.entry.currency.as_str());
            s.append("\n");
            s
        },
        Output::Transfer(r) => {
            let mut s = entries_table(r.entries.as_slice(), true);
            if r.duplicate {
                s.append("(duplicate: transfer already existed)\n");
            }
            assert(s@ =~= render_text(*out));
            s
        },
        Output::Reverse(r) => entries_table(r.entries.as_slice(), true),
        Output::Balances { accounts } => balances_table(accounts),
        Output::Balance(b) => {
            let mut s = b.account.clone();
            s.append(" ");
            s.append(b.balance.as_str());
            s.append(" ");
            s.append(b.currency.as_str());
            match &b.at {
                Some(at) => {
                    s.append(" at ");
                    s.append(at.as_str());
                },
                None => {},
            }
            s.append("\n");
            s
        },
        Output::History(h) => history_table(h),
        Output::Group(g) => {
            let mut s = entries_table(g.entries.as_slice(), true);
            let ghost top = s@;
            let mut i: usize = 0;
            while i < g.net.len()
                invariant
                    i <= g.net.len(),
                    s@ == top + net_lines(g.net@.take(i as int)),
                decreases g.net.len() - i,
            {
                let (ccy, net) = &g.net[i];
                s.append("net ");
                s.append(net.as_str());
                s.append(" ");
                s.append(ccy.as_str());
                s.append("\n");
                proof {
                    let t = g.net@.take(i + 1);
                    assert(t.drop_last() =~= g.net@.take(i as int));
                    assert(t.last() == g.net@[i as int]);
                }
                i = i + 1;
            }
            assert(g.net@.take(g.net.len() as int) =~= g.net@);
            s
        },
        Output::Pnl { accounts, marked, total } => {
            let mut s = String::new();
            let mut i: usize = 0;
            while i < accounts.len()
                invariant
                    i <= accounts.len(),
                    s@ == pnl_text(accounts@.take(i as int), *marked, *total),
                decreases accounts.len() - i,
            {
                let t = account_pnl_table(&accounts[i], *marked, *total);
                s.append(t.as_str());
                proof {
                    let u = accounts@.take(i + 1);
                    assert(u.drop_last() =~= accounts@.take(i as int));
                    assert(u.last() == accounts@[i as int]);
                }
                i = i + 1;
            }
            assert(accounts@.take(accounts.len() as int) =~= accounts@);
            s
        },
        Output::Reconcile(r) => {
            let mut s = reconcile_line(r);
            match &r.adjustment {
                Some(e) => {
                    let t = entry_table(e, false);
                    s.append(t.as_str());
                },
                None => {
                    if r.dry_run {
                        s.append("nothing written\n");
                    } else if diff_shows_zero(r.snapshot.diff.as_str()) {
                        s.append("no adjustment posted\n");
                    } else {
                        s.append(
                            "no adjustment posted; book the missing activity, or pass --adjust to post the diff\n",
                        );
                    }
                },
            }
            s
        },
        Output::Snapshots(l) => snapshots_table(l),
        Output::Import(r) => {
            let mut s = String::from_str("imported ");
            s.append(usize_text(r.imported).as_str());
            s.append(" duplicates ");
            s.append(usize_text(r.duplicates).as_str());
            if r.dry_run {
                s.append("  (dry run, nothing written)");
            }
            s.append("\n");
            let t = entries_table(r.entries.as_slice(), true);
            s.append(t.as_str());
            assert(s@ =~= import_text(*r));
            s
        },
        Output::Raw(text) => text.clone(),
    }
}

/// A transfer prints its legs as `reverse` prints its entries, and a
/// replayed one prints exactly that followed by the duplicate note: the note
/// appears when and only when the transfer already existed.
pub proof fn lemma_transfer_duplicate_note(entries: Vec<Entry>)
    ensures
        render_text(Output::Transfer(TransferResult { entries: entries, duplicate: false }))
            == render_text(Output::Reverse(ReverseResult { entries: entries })),
        render_text(Output::Transfer(TransferResult { entries: entries, duplicate: true }))
            == render_text(Output::Transfer(TransferResult { entries: entries, duplicate: false }))
            + "(duplicate: transfer already existed)\n"@,
{
    assert(entries_table_text(entries@, true) + Seq::<char>::empty() =~= entries_table_text(
        entries@,
        true,
    ));
}

/// An added entry prints as `show` prints it, and a replayed one prints the
/// same with the duplicate note before the final line break.
pub proof fn lemma_add_duplicate_note(entry: Entry, balance: String)
    ensures
        render_text(Output::Add(AddResult { entry: entry, balance: balance, duplicate: false }))
            == render_text(Output::Show(ShowResult { entry: entry, balance: balance })),
        render_text(Output::Add(AddResult { entry: entry, balance: balance, duplicate: true }))
            == render_text(
            Output::Add(AddResult { entry: entry, balance: balance, duplicate: false }),
        ).drop_last() + "  (duplicate: entry already existed)\n"@,
{
    let t = entries_table_text(seq![entry], false) + "balance "@ + balance@ + " "@
        + entry.currency@;
    reveal_strlit("\n");
    reveal_strlit("  (duplicate: entry already existed)");
    reveal_strlit("  (duplicate: entry already existed)\n");
    assert(t + Seq::<char>::empty() + "\n"@ =~= t + "\n"@);
    assert((t + "\n"@).drop_last() =~= t);
    assert(t + "  (duplicate: entry already existed)"@ + "\n"@ =~= t
        + "  (duplicate: entry already existed)\n"@);
}

/// A found account prints as a new one does, with the duplicate note before
/// the final line break.
pub proof fn lemma_account_duplicate_note(account: Account)
    ensures
        render_text(Output::Account(AccountAddResult { account: account, duplicate: true }))
            == render_text(
            Output::Account(AccountAddResult { account: account, duplicate: false }),
        ).drop_last() + "  (duplicate: account already existed)\n"@,
{
    let t = "account "@ + account.name@ + " ("@ + account.currency@ + ", "@ + digits_of(
        account.decimals as nat,
    ) + " decimals) id="@ + int_text(account.id as int);
    reveal_strlit("\n");
    reveal_strlit("  (duplicate: account already existed)");
    reveal_strlit("  (duplicate: account already existed)\n");
    assert(t + Seq::<char>::empty() + "\n"@ =~= t + "\n"@);
    assert((t + "\n"@).drop_last() =~= t);
    assert(t + "  (duplicate: account already existed)"@ + "\n"@ =~= t
        + "  (duplicate: account already existed)\n"@);
}

} // verus!
