use agent_ledger::ledger::{resolve_ts, resolve_ts_at, AccountRow, EntryRow, SnapshotRow};
use agent_ledger::model::Kind;
use agent_ledger::{Ledger, LedgerError};

fn account(id: i64, name: &str, decimals: u32) -> AccountRow {
    AccountRow {
        id,
        name: name.into(),
        currency: "USD".into(),
        decimals,
        note: None,
        created_at: "2026-09-01T00:00:00.000Z".into(),
    }
}

fn entry(id: i64, account_id: i64, amount: i64, reverses_id: Option<i64>) -> EntryRow {
    EntryRow {
        id,
        account_id,
        ts: "2026-09-01T00:00:00.000Z".into(),
        recorded_at: "2026-09-01T00:00:00.000Z".into(),
        kind: Kind::Deposit,
        amount,
        reference: None,
        memo: None,
        actor: None,
        group_id: None,
        meta: None,
        reverses_id,
    }
}

fn snapshot(id: i64, account_id: i64, adjustment: Option<i64>) -> SnapshotRow {
    SnapshotRow {
        id,
        account_id,
        ts: "2026-09-01T00:00:00.000Z".into(),
        observed: 0,
        book: 0,
        diff: 0,
        adjustment_entry_id: adjustment,
        source: None,
    }
}

fn malformed(r: Result<Ledger, LedgerError>) -> bool {
    matches!(r, Err(LedgerError::Db(m)) if m == "malformed ledger rows")
}

#[test]
fn rows_load_into_a_ledger() {
    let l = Ledger::from_rows(
        vec![account(1, "ops", 2), account(2, "fees", 2)],
        vec![entry(1, 1, 1050, None), entry(2, 2, -25, None)],
        vec![snapshot(1, 1, Some(2))],
    )
    .unwrap();
    assert_eq!(l.balance("ops", None).unwrap().balance, "10.50");
    assert_eq!(l.balance("fees", None).unwrap().balance, "-0.25");
    assert_eq!(l.account_rows().len(), 2);
    assert_eq!(l.entry_rows().len(), 2);
    assert_eq!(l.snapshot_rows().len(), 1);
}

#[test]
fn empty_rows_are_an_empty_ledger() {
    let l = Ledger::from_rows(vec![], vec![], vec![]).unwrap();
    assert!(l.list_accounts().unwrap().is_empty());
}

#[test]
fn rows_that_break_the_ledger_are_refused() {
    // ids out of sequence
    assert!(malformed(Ledger::from_rows(vec![account(2, "ops", 2)], vec![], vec![])));
    // too many fraction digits
    assert!(malformed(Ledger::from_rows(vec![account(1, "ops", 19)], vec![], vec![])));
    // an entry on a missing account
    assert!(malformed(Ledger::from_rows(
        vec![account(1, "ops", 2)],
        vec![entry(1, 2, 5, None)],
        vec![]
    )));
    // a zero entry
    assert!(malformed(Ledger::from_rows(
        vec![account(1, "ops", 2)],
        vec![entry(1, 1, 0, None)],
        vec![]
    )));
    // a reversal of a later entry
    assert!(malformed(Ledger::from_rows(
        vec![account(1, "ops", 2)],
        vec![entry(1, 1, 5, Some(2)), entry(2, 1, 5, None)],
        vec![]
    )));
    // a snapshot naming a missing adjustment
    assert!(malformed(Ledger::from_rows(
        vec![account(1, "ops", 2)],
        vec![entry(1, 1, 5, None)],
        vec![snapshot(1, 1, Some(2))]
    )));
}

#[test]
fn written_rows_load_back_unchanged() {
    let mut l = Ledger::open_in_memory().unwrap();
    l.add_account("ops", "USD", 2, None).unwrap();
    let before = l.balance("ops", None).unwrap().balance;
    let rebuilt = Ledger::from_rows(
        l.account_rows()
            .iter()
            .map(|a| account(a.id, a.name.as_str(), a.decimals))
            .collect(),
        vec![],
        vec![],
    )
    .unwrap();
    assert_eq!(rebuilt.balance("ops", None).unwrap().balance, before);
}

#[test]
fn resolve_ts_normalizes_given_text() {
    assert_eq!(
        resolve_ts(Some("2026-09-06T12:00:00+09:00")).unwrap(),
        "2026-09-06T03:00:00.000Z"
    );
    assert_eq!(
        resolve_ts_at(None, "2026-09-01T00:00:00.000Z").unwrap(),
        "2026-09-01T00:00:00.000Z"
    );
}

#[test]
fn resolve_ts_without_text_reads_the_clock() {
    let t = resolve_ts(None).unwrap();
    assert_eq!(t.len(), "2026-09-01T00:00:00.000Z".len());
    assert!(t.ends_with('Z'));
}

#[test]
fn resolve_ts_refuses_bad_text() {
    match resolve_ts(Some(" yesterday ")) {
        Err(LedgerError::InvalidTimestamp(t)) => assert_eq!(t, "yesterday"),
        other => panic!("unexpected {:?}", other),
    }
}
