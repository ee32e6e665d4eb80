//! The command line as parsed, and the dispatch from a command to the
//! operation of the ledger that serves it.

use vstd::prelude::*;

use crate::error::{ErrorV, LedgerError};
use crate::ledger::accounts::{accounts_listed, add_account_post};
use crate::ledger::entries::{
    add_post, reverse_entry_spec, reverse_group_spec, reverse_post, show_post, transfer_post,
    AddRequest, AddRequestV, TransferRequest, TransferRequestV,
};
use crate::ledger::import::import_post;
use crate::ledger::marks::{marks_of_text, parse_marks, pnl_marked_post};
use crate::ledger::pnl::{parse_bucket_spec, pnl_post, PnlBucket, PnlBucketV, PnlFilter, PnlFilterV};
use crate::ledger::reconcile::{reconcile_post, snapshots_post, ReconcileRequest, ReconcileRequestV};
use crate::ledger::reports::{
    balance_post, balances_post, group_fits, group_post, history_post, HistoryFilter,
    HistoryFilterV,
};
use crate::ledger::{ledger_extends, opt_str, ostr, overflow_error, Ledger, LedgerV};
use crate::model::{addable, kind_of_text, History, Kind};
use crate::render::{csv, csv_text, Output};
use crate::text::{copy_str, trim};

verus! {

/// The parsed command line.
#[derive(Debug)]
pub struct Cli {
    /// Ledger database file; the default lives under the home directory.
    pub db: Option<String>,
    /// Emit one JSON object instead of a table.
    pub json: bool,
    /// Who is writing; recorded on every entry.
    pub actor: Option<String>,
    pub command: Command,
}

/// One command of the command line.
#[derive(Debug)]
pub enum Command {
    /// Manage accounts.
    Account { command: AccountCommand },
    /// Record one movement on an account.
    Add(AddArgs),
    /// Move money between two same-currency accounts.
    Transfer(TransferArgs),
    /// Reverse an entry, or every open entry in a group.
    Reverse(ReverseArgs),
    /// Show balances.
    Balance(BalanceArgs),
    /// List entries of an account with running balance.
    History(HistoryArgs),
    /// Show every entry in a group across accounts.
    Group { id: String },
    /// Realized PnL, excluding deposits, withdrawals and transfers.
    Pnl(PnlArgs),
    /// Compare the book balance with an observed balance.
    Reconcile(ReconcileArgs),
    /// List reconciliation snapshots.
    Snapshots(SnapshotsArgs),
    /// Import entries from JSON Lines.
    Import(ImportArgs),
    /// Show one entry.
    Show { entry_id: i64 },
    /// Dump an account's entries.
    Export(ExportArgs),
}

/// The account commands.
#[derive(Debug)]
pub enum AccountCommand {
    /// Create an account.
    Add { name: String, currency: String, decimals: u32, note: Option<String> },
    /// List accounts.
    List,
}

#[derive(Debug)]
pub struct AddArgs {
    pub account: String,
    /// Signed decimal; positive is an inflow.
    pub amount: String,
    pub kind: String,
    pub reference: Option<String>,
    pub memo: Option<String>,
    pub ts: Option<String>,
    pub group: Option<String>,
    pub meta: Option<String>,
}

#[derive(Debug)]
pub struct TransferArgs {
    pub from: String,
    pub to: String,
    pub amount: String,
    pub reference: Option<String>,
    pub memo: Option<String>,
    pub ts: Option<String>,
    pub group: Option<String>,
    pub meta: Option<String>,
}

/// Exactly one of `entry_id` and `group` is given.
#[derive(Debug)]
pub struct ReverseArgs {
    pub entry_id: Option<i64>,
    pub group: Option<String>,
    pub memo: Option<String>,
}

#[derive(Debug)]
pub struct BalanceArgs {
    pub account: Option<String>,
    /// Balance as of this time; only with an account.
    pub at: Option<String>,
}

#[derive(Debug)]
pub struct HistoryArgs {
    pub account: String,
    /// Most recent N entries; 0 for all.
    pub limit: usize,
    pub since: Option<String>,
    pub until: Option<String>,
    pub kind: Option<String>,
    pub group: Option<String>,
}

#[derive(Debug)]
pub struct PnlArgs {
    pub account: Option<String>,
    pub since: Option<String>,
    pub until: Option<String>,
    /// total | day | week | month | group | meta:<key>
    pub by: String,
    /// A marks file: a JSON object of group id to amount string, whose text
    /// `run` receives as its input.
    pub marks: Option<String>,
}

#[derive(Debug)]
pub struct ReconcileArgs {
    pub account: String,
    /// The balance observed at the venue or on chain.
    pub observed: String,
    pub source: Option<String>,
    pub ts: Option<String>,
    /// Post an adjustment for a nonzero difference.
    pub adjust: bool,
    /// Compute and write nothing.
    pub dry_run: bool,
    /// Why the adjustment is right.
    pub memo: Option<String>,
}

#[derive(Debug)]
pub struct SnapshotsArgs {
    pub account: String,
    pub limit: usize,
}

#[derive(Debug)]
pub struct ImportArgs {
    /// Validate and report without writing.
    pub dry_run: bool,
}

#[derive(Debug)]
pub struct ExportArgs {
    pub account: String,
    pub format: ExportFormat,
}

#[derive(Clone, Copy, Debug, PartialEq, Eq, Structural)]
pub enum ExportFormat {
    Csv,
    Json,
}

/// A command the dispatch can serve: `reverse` names an entry or a group.
pub open spec fn command_ok(c: Command) -> bool {
    match c {
        Command::Reverse(v) => v.entry_id is Some || v.group is Some,
        _ => true,
    }
}

/// Whether the result is printed as JSON: `--json`, or a JSON export.
pub open spec fn json_wanted(cli: Cli) -> bool {
    cli.json || (cli.command matches Command::Export(e) && e.format == ExportFormat::Json)
}

/// The result an operation handed back, out of the output it became;
/// `None` when the output is of another kind.
pub open spec fn carried<T>(r: Result<Output, LedgerError>, pick: spec_fn(Output) -> Option<T>) -> Option<
    Result<T, LedgerError>,
> {
    match r {
        Ok(o) => match pick(o) {
            Some(x) => Some(Ok(x)),
            None => None,
        },
        Err(e) => Some(Err(e)),
    }
}

/// The request `add` receives for the arguments, the parsed kind and the actor.
pub open spec fn add_request_of(a: AddArgs, kind: Kind, actor: Option<Seq<char>>) -> AddRequestV {
    AddRequestV {
        account: a.account@,
        amount: a.amount@,
        kind,
        reference: ostr(a.reference),
        memo: ostr(a.memo),
        ts: ostr(a.ts),
        group: ostr(a.group),
        meta: ostr(a.meta),
        actor,
    }
}

/// The request `transfer` receives for the arguments and the actor.
pub open spec fn transfer_request_of(t: TransferArgs, actor: Option<Seq<char>>) -> TransferRequestV {
    TransferRequestV {
        from: t.from@,
        to: t.to@,
        amount: t.amount@,
        reference: ostr(t.reference),
        memo: ostr(t.memo),
        ts: ostr(t.ts),
        group: ostr(t.group),
        meta: ostr(t.meta),
        actor,
    }
}

/// The request `reconcile` receives for the arguments and the actor.
pub open spec fn reconcile_request_of(c: ReconcileArgs, actor: Option<Seq<char>>) -> ReconcileRequestV {
    ReconcileRequestV {
        account: c.account@,
        observed: c.observed@,
        source: ostr(c.source),
        ts: ostr(c.ts),
        adjust: c.adjust,
        dry_run: c.dry_run,
        memo: ostr(c.memo),
        actor,
    }
}

/// The filter `history` receives for the arguments and the parsed kind.
pub open spec fn history_filter_of(h: HistoryArgs, kind: Option<Kind>) -> HistoryFilterV {
    HistoryFilterV {
        since: ostr(h.since),
        until: ostr(h.until),
        kind,
        group: ostr(h.group),
        limit: h.limit as nat,
    }
}

/// The filter of an export: every entry.
pub open spec fn export_filter() -> HistoryFilterV {
    HistoryFilterV { since: None, until: None, kind: None, group: None, limit: 0 }
}

/// The kind a history filter names, if it names one and it parses.
pub open spec fn history_kind(h: HistoryArgs) -> Option<Kind> {
    match h.kind {
        Some(k) => kind_of_text(trim(k@)),
        None => None,
    }
}

/// `account add`: the account created or found.
pub open spec fn account_add_out(
    old: LedgerV,
    new: LedgerV,
    name: Seq<char>,
    currency: Seq<char>,
    decimals: nat,
    note: Option<Seq<char>>,
    r: Result<Output, LedgerError>,
) -> bool {
    carried(
        r,
        |o: Output|
            match o {
                Output::Account(x) => Some(x),
                _ => None,
            },
    ) matches Some(q) && exists|clock: Seq<char>|
        crate::time::storage_shape(clock) && #[trigger] add_account_post(old, new, name, currency, decimals, note, clock, q)
}

/// `add`: the kind parsed first, then the entry added.
pub open spec fn add_out(
    old: LedgerV,
    new: LedgerV,
    a: AddArgs,
    actor: Option<Seq<char>>,
    r: Result<Output, LedgerError>,
) -> bool {
    match kind_of_text(trim(a.kind@)) {
        Some(k) if addable(k) => carried(
            r,
            |o: Output|
                match o {
                    Output::Add(x) => Some(x),
                    _ => None,
                },
        ) matches Some(q) && exists|clock: Seq<char>|
            crate::time::storage_shape(clock) && #[trigger] add_post(old, new, add_request_of(a, k, actor), clock, q),
        _ => new == old && (r matches Err(e) && e.view() == ErrorV::InvalidKind(trim(a.kind@))),
    }
}

/// `transfer`: both legs written.
pub open spec fn transfer_out(
    old: LedgerV,
    new: LedgerV,
    t: TransferArgs,
    actor: Option<Seq<char>>,
    r: Result<Output, LedgerError>,
) -> bool {
    carried(
        r,
        |o: Output|
            match o {
                Output::Transfer(x) => Some(x),
                _ => None,
            },
    ) matches Some(q) && exists|clock: Seq<char>, fresh: Seq<char>|
        crate::time::storage_shape(clock) && (t.group is None
            ==> crate::ledger::entries::uuid_text(fresh)) && #[trigger] transfer_post(old, new, transfer_request_of(t, actor), clock, fresh, q)
}

/// `reverse`: an entry (with its sibling leg), or the open entries of a group.
pub open spec fn reverse_out(
    old: LedgerV,
    new: LedgerV,
    v: ReverseArgs,
    actor: Option<Seq<char>>,
    r: Result<Output, LedgerError>,
) -> bool {
    carried(
        r,
        |o: Output|
            match o {
                Output::Reverse(x) => Some(x),
                _ => None,
            },
    ) matches Some(q) && exists|clock: Seq<char>|
        crate::time::storage_shape(clock) && #[trigger] reverse_post(old, new, reverse_outcome(old, v), ostr(v.memo), actor, clock, q)
}

/// What `reverse` finds to reverse: the entry named, or the group's open entries.
pub open spec fn reverse_outcome(old: LedgerV, v: ReverseArgs) -> Result<Seq<int>, ErrorV> {
    match v.entry_id {
        Some(id) => reverse_entry_spec(old, id as int),
        None => reverse_group_spec(old, v.group->Some_0@),
    }
}

/// `balance`: one account's balance, or every account's.
pub open spec fn balance_out(v: LedgerV, b: BalanceArgs, r: Result<Output, LedgerError>) -> bool {
    match b.account {
        Some(account) => carried(
            r,
            |o: Output|
                match o {
                    Output::Balance(x) => Some(x),
                    _ => None,
                },
        ) matches Some(q) && balance_post(v, account@, ostr(b.at), q),
        None => carried(
            r,
            |o: Output|
                match o {
                    Output::Balances { accounts } => Some(accounts),
                    _ => None,
                },
        ) matches Some(q) && balances_post(v, q),
    }
}

/// `history`: the kind named parsed first, then the filtered history.
pub open spec fn history_out(v: LedgerV, h: HistoryArgs, r: Result<Output, LedgerError>) -> bool {
    if h.kind is Some && history_kind(h) is None {
        r matches Err(e) && e.view() == ErrorV::InvalidKind(h.kind->Some_0@)
    } else {
        carried(
            r,
            |o: Output|
                match o {
                    Output::History(x) => Some(x),
                    _ => None,
                },
        ) matches Some(q) && history_post(v, h.account@, history_filter_of(h, history_kind(h)), q)
    }
}

/// `group`: the group's entries and nets, when its nets can be summed.
pub open spec fn group_out(v: LedgerV, id: Seq<char>, r: Result<Output, LedgerError>) -> bool {
    if group_fits(v, trim(id)) {
        carried(
            r,
            |o: Output|
                match o {
                    Output::Group(x) => Some(x),
                    _ => None,
                },
        ) matches Some(q) && group_post(v, id, q)
    } else {
        r matches Err(e) && e.view() == overflow_error()
    }
}

/// `pnl`: the bucket parsed first, then the marks in `input` when a marks
/// file is named, then the report, labelled for the bucket and the marks.
pub open spec fn pnl_out(v: LedgerV, p: PnlArgs, input: Seq<char>, r: Result<Output, LedgerError>) -> bool {
    match parse_bucket_spec(p.by@) {
        Ok(by) => {
            let f = PnlFilterV { since: ostr(p.since), until: ostr(p.until), by };
            let got = carried(
                r,
                |o: Output|
                    match o {
                        Output::Pnl { accounts, marked, total } => if marked == (p.marks is Some)
                            && total == (by == PnlBucketV::Total) {
                            Some(accounts)
                        } else {
                            None
                        },
                        _ => None,
                    },
            );
            match p.marks {
                None => got matches Some(q) && pnl_post(v, ostr(p.account), f, q),
                Some(_) => match marks_of_text(input) {
                    Err(e) => r matches Err(x) && x.view() == e,
                    Ok(ms) => got matches Some(q) && pnl_marked_post(v, ostr(p.account), f, ms, q),
                },
            }
        },
        Err(e) => r matches Err(x) && x.view() == e,
    }
}

/// `reconcile`: the comparison, and what it recorded.
pub open spec fn reconcile_out(
    old: LedgerV,
    new: LedgerV,
    c: ReconcileArgs,
    actor: Option<Seq<char>>,
    r: Result<Output, LedgerError>,
) -> bool {
    carried(
        r,
        |o: Output|
            match o {
                Output::Reconcile(x) => Some(x),
                _ => None,
            },
    ) matches Some(q) && exists|clock: Seq<char>|
        crate::time::storage_shape(clock) && #[trigger] reconcile_post(old, new, reconcile_request_of(c, actor), clock, q)
}

/// `import`: the lines of `input` imported.
pub open spec fn import_out(
    old: LedgerV,
    new: LedgerV,
    input: Seq<char>,
    dry_run: bool,
    actor: Option<Seq<char>>,
    r: Result<Output, LedgerError>,
) -> bool {
    carried(
        r,
        |o: Output|
            match o {
                Output::Import(x) => Some(x),
                _ => None,
            },
    ) matches Some(q) && exists|clock: Seq<char>|
        crate::time::storage_shape(clock) && #[trigger] import_post(old, new, input, dry_run, actor, clock, q)
}

/// `export`: the account's whole history, as JSON or as CSV text.
pub open spec fn export_out(v: LedgerV, e: ExportArgs, r: Result<Output, LedgerError>) -> bool {
    match e.format {
        ExportFormat::Json => carried(
            r,
            |o: Output|
                match o {
                    Output::History(x) => Some(x),
                    _ => None,
                },
        ) matches Some(q) && history_post(v, e.account@, export_filter(), q),
        ExportFormat::Csv => match r {
            Ok(Output::Raw(text)) => exists|h: History|
                #[trigger] history_post(v, e.account@, export_filter(), Ok(h)) && text@ == csv_text(
                    h,
                ),
            Err(x) => history_post(v, e.account@, export_filter(), Err(x)),
            _ => false,
        },
    }
}

/// What `run` does with a command: which operation it calls with what, and
/// how the operation's result becomes the output. `old` and `new` are the
/// ledger before and after, `input` the text the command reads. Commands that
/// only read leave the ledger as it was.
pub open spec fn run_post(
    old: LedgerV,
    new: LedgerV,
    cli: Cli,
    input: Seq<char>,
    r: Result<Output, LedgerError>,
) -> bool {
    let actor = ostr(cli.actor);
    match cli.command {
        Command::Account { command } => match command {
            AccountCommand::Add { name, currency, decimals, note } => account_add_out(
                old,
                new,
                name@,
                currency@,
                decimals as nat,
                ostr(note),
                r,
            ),
            AccountCommand::List => new == old && (r matches Ok(Output::Accounts { accounts })
                && accounts_listed(old, accounts@)),
        },
        Command::Add(a) => add_out(old, new, a, actor, r),
        Command::Transfer(t) => transfer_out(old, new, t, actor, r),
        Command::Reverse(v) => reverse_out(old, new, v, actor, r),
        Command::Balance(b) => new == old && balance_out(old, b, r),
        Command::History(h) => new == old && history_out(old, h, r),
        Command::Group { id } => new == old && group_out(old, id@, r),
        Command::Pnl(p) => new == old && pnl_out(old, p, input, r),
        Command::Reconcile(c) => reconcile_out(old, new, c, actor, r),
        Command::Snapshots(s) => new == old && (carried(
            r,
            |o: Output|
                match o {
                    Output::Snapshots(x) => Some(x),
                    _ => None,
                },
        ) matches Some(q) && snapshots_post(old, s.account@, s.limit as nat, q)),
        Command::Import(i) => import_out(old, new, input, i.dry_run, actor, r),
        Command::Show { entry_id } => new == old && (carried(
            r,
            |o: Output|
                match o {
                    Output::Show(x) => Some(x),
                    _ => None,
                },
        ) matches Some(q) && show_post(old, entry_id as int, q)),
        Command::Export(e) => new == old && export_out(old, e, r),
    }
}

/// Whether the result is printed as JSON.
pub fn wants_json(cli: &Cli) -> (r: bool)
    ensures
        r == json_wanted(*cli),
{
    cli.json || match &cli.command {
        Command::Export(e) => e.format == ExportFormat::Json,
        _ => false,
    }
}

/// `add`.
fn run_add(ledger: &mut Ledger, a: AddArgs, actor: Option<String>) -> (r: Result<Output, LedgerError>)
    requires
        old(ledger).wf(),
    ensures
        final(ledger).wf(),
        ledger_extends(old(ledger)@, final(ledger)@),
        add_out(old(ledger)@, final(ledger)@, a, ostr(actor), r),
{
    let ghost q = a;
    let kind = match Kind::parse_addable(a.kind.as_str()) {
        Ok(k) => k,
        Err(e) => return Err(e),
    };
    let req = AddRequest {
        account: a.account,
        amount: a.amount,
        kind,
        reference: a.reference,
        memo: a.memo,
        ts: a.ts,
        group: a.group,
        meta: a.meta,
        actor,
    };
    assert(req.view() == add_request_of(q, kind, ostr(actor)));
    match ledger.add(&req) {
        Ok(x) => Ok(Output::Add(x)),
        Err(e) => Err(e),
    }
}

/// `transfer`.
fn run_transfer(ledger: &mut Ledger, t: TransferArgs, actor: Option<String>) -> (r: Result<
    Output,
    LedgerError,
>)
    requires
        old(ledger).wf(),
    ensures
        final(ledger).wf(),
        ledger_extends(old(ledger)@, final(ledger)@),
        transfer_out(old(ledger)@, final(ledger)@, t, ostr(actor), r),
{
    let ghost q = t;
    let req = TransferRequest {
        from: t.from,
        to: t.to,
        amount: t.amount,
        reference: t.reference,
        memo: t.memo,
        ts: t.ts,
        group: t.group,
        meta: t.meta,
        actor,
    };
    assert(req.view() == transfer_request_of(q, ostr(actor)));
    match ledger.transfer(&req) {
        Ok(x) => Ok(Output::Transfer(x)),
        Err(e) => Err(e),
    }
}

/// `reverse`.
fn run_reverse(ledger: &mut Ledger, rv: ReverseArgs, actor: Option<String>) -> (r: Result<
    Output,
    LedgerError,
>)
    requires
        old(ledger).wf(),
        rv.entry_id is Some || rv.group is Some,
    ensures
        final(ledger).wf(),
        ledger_extends(old(ledger)@, final(ledger)@),
        reverse_out(old(ledger)@, final(ledger)@, rv, ostr(actor), r),
{
    let done = match (rv.entry_id, rv.group) {
        (Some(id), _) => ledger.reverse_entry(id, rv.memo, actor),
        (None, Some(group)) => ledger.reverse_group(group.as_str(), rv.memo, actor),
        (None, None) => {
            assert(false);
            return Err(LedgerError::InvalidGroup);
        },
    };
    match done {
        Ok(x) => Ok(Output::Reverse(x)),
        Err(e) => Err(e),
    }
}

/// `history`.
fn run_history(ledger: &Ledger, h: HistoryArgs) -> (r: Result<Output, LedgerError>)
    requires
        ledger.wf(),
    ensures
        history_out(ledger@, h, r),
{
    let ghost q = h;
    let kind = match &h.kind {
        None => None,
        Some(k) => match Kind::parse(k.as_str()) {
            Some(x) => Some(x),
            None => return Err(LedgerError::InvalidKind(k.clone())),
        },
    };
    let filter = HistoryFilter { since: h.since, until: h.until, kind, group: h.group, limit: h.limit };
    assert(filter.view() == history_filter_of(q, history_kind(q)));
    match ledger.history(h.account.as_str(), &filter) {
        Ok(x) => Ok(Output::History(x)),
        Err(e) => Err(e),
    }
}

/// `pnl`.
fn run_pnl(ledger: &Ledger, p: PnlArgs, input: &str) -> (r: Result<Output, LedgerError>)
    requires
        ledger.wf(),
    ensures
        pnl_out(ledger@, p, input@, r),
{
    let ghost q = p;
    let by = match PnlBucket::parse(p.by.as_str()) {
        Ok(b) => b,
        Err(e) => return Err(e),
    };
    let total = match &by {
        PnlBucket::Total => true,
        _ => false,
    };
    assert(total == (by.view() == PnlBucketV::Total));
    let filter = PnlFilter { since: p.since, until: p.until, by };
    assert(filter.view() == PnlFilterV { since: ostr(q.since), until: ostr(q.until), by: by.view() });
    match &p.marks {
        None => match ledger.pnl(opt_str(&p.account), &filter) {
            Ok(accounts) => Ok(Output::Pnl { accounts, marked: false, total }),
            Err(e) => Err(e),
        },
        Some(_) => {
            let marks = match parse_marks(input) {
                Ok(m) => m,
                Err(e) => return Err(e),
            };
            match ledger.pnl_marked(opt_str(&p.account), &filter, &marks) {
                Ok(accounts) => Ok(Output::Pnl { accounts, marked: true, total }),
                Err(e) => Err(e),
            }
        },
    }
}

/// `reconcile`.
fn run_reconcile(ledger: &mut Ledger, c: ReconcileArgs, actor: Option<String>) -> (r: Result<
    Output,
    LedgerError,
>)
    requires
        old(ledger).wf(),
    ensures
        final(ledger).wf(),
        ledger_extends(old(ledger)@, final(ledger)@),
        reconcile_out(old(ledger)@, final(ledger)@, c, ostr(actor), r),
{
    let ghost q = c;
    let req = ReconcileRequest {
        account: c.account,
        observed: c.observed,
        source: c.source,
        ts: c.ts,
        adjust: c.adjust,
        dry_run: c.dry_run,
        memo: c.memo,
        actor,
    };
    assert(req.view() == reconcile_request_of(q, ostr(actor)));
    match ledger.reconcile(&req) {
        Ok(x) => Ok(Output::Reconcile(x)),
        Err(e) => Err(e),
    }
}

/// `export`.
fn run_export(ledger: &Ledger, e: ExportArgs) -> (r: Result<Output, LedgerError>)
    requires
        ledger.wf(),
    ensures
        export_out(ledger@, e, r),
{
    let history = match ledger.export(e.account.as_str()) {
        Ok(h) => h,
        Err(x) => return Err(x),
    };
    match e.format {
        ExportFormat::Json => Ok(Output::History(history)),
        ExportFormat::Csv => {
            let text = csv(&history);
            Ok(Output::Raw(text))
        },
    }
}

/// Serve one command on `ledger`. `input` is the text the command reads:
/// the lines of `import`, the marks file of `pnl`; the others ignore it.
pub fn run(ledger: &mut Ledger, cli: Cli, input: &str) -> (r: Result<Output, LedgerError>)
    requires
        old(ledger).wf(),
        command_ok(cli.command),
    ensures
        final(ledger).wf(),
        ledger_extends(old(ledger)@, final(ledger)@),
        run_post(old(ledger)@, final(ledger)@, cli, input@, r),
{
    let actor = cli.actor;
    match cli.command {
        Command::Account { command } => match command {
            AccountCommand::Add { name, currency, decimals, note } => {
                match ledger.add_account(name.as_str(), currency.as_str(), decimals, opt_str(&note)) {
                    Ok(a) => Ok(Output::Account(a)),
                    Err(e) => Err(e),
                }
            },
            AccountCommand::List => match ledger.list_accounts() {
                Ok(accounts) => Ok(Output::Accounts { accounts }),
                Err(e) => Err(e),
            },
        },
        Command::Add(a) => run_add(ledger, a, actor),
        Command::Transfer(t) => run_transfer(ledger, t, actor),
        Command::Reverse(rv) => run_reverse(ledger, rv, actor),
        Command::Balance(b) => match b.account {
            Some(account) => match ledger.balance(account.as_str(), opt_str(&b.at)) {
                Ok(x) => Ok(Output::Balance(x)),
                Err(e) => Err(e),
            },
            None => match ledger.balances() {
                Ok(accounts) => Ok(Output::Balances { accounts }),
                Err(e) => Err(e),
            },
        },
        Command::History(h) => run_history(ledger, h),
        Command::Group { id } => {
            if !ledger.group_sums_fit(id.as_str()) {
                return Err(LedgerError::Db(copy_str("integer overflow")));
            }
            match ledger.group(id.as_str()) {
                Ok(x) => Ok(Output::Group(x)),
                Err(e) => Err(e),
            }
        },
        Command::Pnl(p) => run_pnl(ledger, p, input),
        Command::Reconcile(c) => run_reconcile(ledger, c, actor),
        Command::Snapshots(s) => match ledger.snapshots(s.account.as_str(), s.limit) {
            Ok(x) => Ok(Output::Snapshots(x)),
            Err(e) => Err(e),
        },
        Command::Import(i) => match ledger.import(input, i.dry_run, opt_str(&actor)) {
            Ok(x) => Ok(Output::Import(x)),
            Err(e) => Err(e),
        },
        Command::Show { entry_id } => match ledger.show(entry_id) {
            Ok(x) => Ok(Output::Show(x)),
            Err(e) => Err(e),
        },
        Command::Export(e) => run_export(ledger, e),
    }
}

} // verus!
