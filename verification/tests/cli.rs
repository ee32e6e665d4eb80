use agent_ledger::cli::{
    run, wants_json, AccountCommand, AddArgs, BalanceArgs, Cli, Command, ExportArgs, ExportFormat,
    HistoryArgs, ImportArgs, PnlArgs, ReconcileArgs, ReverseArgs, SnapshotsArgs,
};
use agent_ledger::render::Output;
use agent_ledger::{Ledger, LedgerError};

fn cli(command: Command) -> Cli {
    Cli { db: None, json: false, actor: Some("agent-7".into()), command }
}

fn add_args(account: &str, amount: &str, kind: &str) -> AddArgs {
    AddArgs {
        account: account.into(),
        amount: amount.into(),
        kind: kind.into(),
        reference: None,
        memo: None,
        ts: None,
        group: None,
        meta: None,
    }
}

fn with_account() -> Ledger {
    let mut l = Ledger::open_in_memory().unwrap();
    let r = run(
        &mut l,
        cli(Command::Account {
            command: AccountCommand::Add {
                name: "poly-usdc".into(),
                currency: "usdc".into(),
                decimals: 6,
                note: None,
            },
        }),
        "",
    )
    .unwrap();
    match r {
        Output::Account(a) => assert_eq!(a.account.currency, "USDC"),
        other => panic!("unexpected {other:?}"),
    }
    l
}

#[test]
fn add_parses_the_kind_and_records_the_actor() {
    let mut l = with_account();
    match run(&mut l, cli(Command::Add(add_args("poly-usdc", "100", "deposit"))), "").unwrap() {
        Output::Add(r) => {
            assert_eq!(r.entry.actor.as_deref(), Some("agent-7"));
            assert_eq!(r.balance, "100.000000");
        }
        other => panic!("unexpected {other:?}"),
    }
    match run(&mut l, cli(Command::Add(add_args("poly-usdc", "1", "transfer"))), "") {
        Err(LedgerError::InvalidKind(k)) => assert_eq!(k, "transfer"),
        other => panic!("unexpected {other:?}"),
    }
}

#[test]
fn history_kind_must_parse() {
    let mut l = with_account();
    let h = HistoryArgs {
        account: "poly-usdc".into(),
        limit: 50,
        since: None,
        until: None,
        kind: Some("bogus".into()),
        group: None,
    };
    assert!(matches!(run(&mut l, cli(Command::History(h)), ""), Err(LedgerError::InvalidKind(k)) if k == "bogus"));
}

#[test]
fn balance_without_account_lists_every_account() {
    let mut l = with_account();
    let out = run(&mut l, cli(Command::Balance(BalanceArgs { account: None, at: None })), "").unwrap();
    assert!(matches!(out, Output::Balances { accounts } if accounts.len() == 1));
}

#[test]
fn pnl_by_total_labels_the_row_total() {
    let mut l = with_account();
    let p = PnlArgs { account: None, since: None, until: None, by: "total".into(), marks: None };
    match run(&mut l, cli(Command::Pnl(p)), "").unwrap() {
        Output::Pnl { accounts, marked, total } => {
            assert!(total && !marked);
            assert_eq!(accounts[0].rows[0].net, "0.000000");
        }
        other => panic!("unexpected {other:?}"),
    }
    let bad = PnlArgs { account: None, since: None, until: None, by: "hour".into(), marks: None };
    assert!(matches!(run(&mut l, cli(Command::Pnl(bad)), ""), Err(LedgerError::InvalidBucket(_))));
}

#[test]
fn reconcile_import_reverse_snapshots_and_export() {
    let mut l = with_account();
    let lines = "{\"account\":\"poly-usdc\",\"amount\":\"5\",\"kind\":\"deposit\",\"ref\":\"d1\"}\n";
    match run(&mut l, cli(Command::Import(ImportArgs { dry_run: false })), lines).unwrap() {
        Output::Import(r) => {
            assert_eq!(r.imported, 1);
            assert_eq!(r.entries[0].actor.as_deref(), Some("agent-7"));
        }
        other => panic!("unexpected {other:?}"),
    }
    let c = ReconcileArgs {
        account: "poly-usdc".into(),
        observed: "4.5".into(),
        source: Some("chain".into()),
        ts: Some("2999-01-01".into()),
        adjust: true,
        dry_run: false,
        memo: Some("gas".into()),
    };
    match run(&mut l, cli(Command::Reconcile(c)), "").unwrap() {
        Output::Reconcile(r) => {
            assert_eq!(r.snapshot.diff, "-0.500000");
            let adj = r.adjustment.unwrap();
            assert_eq!(adj.memo.as_deref(), Some("reconcile: observed 4.500000, book 5.000000; gas"));
        }
        other => panic!("unexpected {other:?}"),
    }
    let rv = ReverseArgs { entry_id: Some(1), group: None, memo: None };
    assert!(matches!(run(&mut l, cli(Command::Reverse(rv)), "").unwrap(), Output::Reverse(r) if r.entries.len() == 1));
    let s = SnapshotsArgs { account: "poly-usdc".into(), limit: 50 };
    assert!(matches!(run(&mut l, cli(Command::Snapshots(s)), "").unwrap(), Output::Snapshots(x) if x.snapshots.len() == 1));
    let e = ExportArgs { account: "poly-usdc".into(), format: ExportFormat::Csv };
    match run(&mut l, cli(Command::Export(e)), "").unwrap() {
        Output::Raw(text) => assert_eq!(text.lines().count(), 4),
        other => panic!("unexpected {other:?}"),
    }
    assert!(matches!(run(&mut l, cli(Command::Show { entry_id: 7 }), ""), Err(LedgerError::EntryNotFound(7))));
    assert!(matches!(run(&mut l, cli(Command::Group { id: "none".into() }), ""), Err(LedgerError::GroupNotFound(_))));
}

#[test]
fn json_is_wanted_for_the_flag_or_a_json_export() {
    let export = |format| Cli {
        db: None,
        json: false,
        actor: None,
        command: Command::Export(ExportArgs { account: "a".into(), format }),
    };
    assert!(wants_json(&export(ExportFormat::Json)));
    assert!(!wants_json(&export(ExportFormat::Csv)));
    let mut list = cli(Command::Account { command: AccountCommand::List });
    assert!(!wants_json(&list));
    list.json = true;
    assert!(wants_json(&list));
}

#[test]
fn pnl_with_a_marks_file_reads_the_marks_from_the_input() {
    let mut l = with_account();
    let mut a = add_args("poly-usdc", "-23.2", "trade");
    a.group = Some("farm:a".into());
    run(&mut l, cli(Command::Add(a)), "").unwrap();
    let p = PnlArgs {
        account: None,
        since: None,
        until: None,
        by: "group".into(),
        marks: Some("marks.json".into()),
    };
    match run(&mut l, cli(Command::Pnl(p)), r#"{"farm:a":"21.60"}"#).unwrap() {
        Output::Pnl { accounts, marked, total } => {
            assert!(marked && !total);
            let row = &accounts[0].rows[0];
            assert_eq!(row.open_value.as_deref(), Some("21.600000"));
            assert_eq!(row.mtm, "-1.600000");
        }
        other => panic!("unexpected {other:?}"),
    }
    let bad = PnlArgs { account: None, since: None, until: None, by: "group".into(), marks: Some("m".into()) };
    assert!(matches!(run(&mut l, cli(Command::Pnl(bad)), "[1]"), Err(LedgerError::InvalidJson(_))));
}
