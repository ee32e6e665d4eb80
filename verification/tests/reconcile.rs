use agent_ledger::ledger::{AddRequest, ReconcileRequest};
use agent_ledger::model::Kind;
use agent_ledger::{Ledger, LedgerError};

fn ledger_with(accounts: &[(&str, &str, u32)]) -> Ledger {
    let mut l = Ledger::open_in_memory().unwrap();
    for (name, ccy, dec) in accounts {
        l.add_account(name, ccy, *dec, None).unwrap();
    }
    l
}

fn req(account: &str, amount: &str, kind: Kind) -> AddRequest {
    AddRequest {
        account: account.into(),
        amount: amount.into(),
        kind,
        reference: None,
        memo: None,
        ts: None,
        group: None,
        meta: None,
        actor: None,
    }
}

fn rreq(observed: &str) -> ReconcileRequest {
    ReconcileRequest {
        account: "w".into(),
        observed: observed.into(),
        source: Some("chain".into()),
        ts: None,
        adjust: false,
        dry_run: false,
        memo: None,
        actor: Some("agent-7".into()),
    }
}

fn adjusting(observed: &str) -> ReconcileRequest {
    ReconcileRequest {
        adjust: true,
        ..rreq(observed)
    }
}

#[test]
fn posts_adjustment_so_book_matches_observed() {
    let mut l = ledger_with(&[("w", "USDC", 6)]);
    l.add(&req("w", "126.2", Kind::Deposit)).unwrap();
    let r = l.reconcile(&adjusting("124.70")).unwrap();
    assert!(!r.duplicate && !r.dry_run);
    assert_eq!(r.snapshot.observed, "124.700000");
    assert_eq!(r.snapshot.book, "126.200000");
    assert_eq!(r.snapshot.diff, "-1.500000");
    assert_eq!(r.snapshot.source.as_deref(), Some("chain"));
    let adj = r.adjustment.unwrap();
    assert_eq!(adj.kind, Kind::Adjustment);
    assert_eq!(adj.amount, "-1.500000");
    assert_eq!(adj.ts, r.snapshot.ts);
    assert_eq!(
        adj.memo.as_deref(),
        Some("reconcile: observed 124.700000, book 126.200000")
    );
    assert_eq!(r.snapshot.adjustment_entry_id, Some(adj.id));
    assert_eq!(l.balance("w", None).unwrap().balance, "124.700000");
    assert_eq!(
        l.balances().unwrap()[0].last_reconciled_at.as_deref(),
        Some(r.snapshot.ts.as_str())
    );
}

#[test]
fn zero_diff_and_the_default_write_no_entry() {
    let mut l = ledger_with(&[("w", "USDC", 6)]);
    l.add(&req("w", "10", Kind::Deposit)).unwrap();
    let same = l.reconcile(&adjusting("10")).unwrap();
    assert!(same.adjustment.is_none());
    assert_eq!(same.snapshot.diff, "0.000000");
    // Without adjust a nonzero diff is recorded on the snapshot and nothing else happens.
    let observed = l.reconcile(&rreq("12")).unwrap();
    assert!(observed.adjustment.is_none());
    assert_eq!(observed.snapshot.diff, "2.000000");
    assert!(observed.snapshot.adjustment_entry_id.is_none());
    assert_eq!(l.balance("w", None).unwrap().balance, "10.000000");
    assert_eq!(l.snapshots("w", 0).unwrap().snapshots.len(), 2);
}

#[test]
fn adjustment_memo_appends_the_callers_reason() {
    let mut l = ledger_with(&[("w", "USDC", 6)]);
    l.add(&AddRequest {
        ts: Some("2026-09-10T09:00:00Z".into()),
        ..req("w", "128.57", Kind::Deposit)
    })
    .unwrap();
    let r = l
        .reconcile(&ReconcileRequest {
            ts: Some("2026-09-10T10:00:00Z".into()),
            memo: Some("support: on-chain fee, no activity row".into()),
            ..adjusting("128")
        })
        .unwrap();
    assert_eq!(
        r.adjustment.unwrap().memo.as_deref(),
        Some("reconcile: observed 128.000000, book 128.570000; support: on-chain fee, no activity row")
    );
}

#[test]
fn dry_run_reports_the_diff_and_writes_nothing() {
    let mut l = ledger_with(&[("w", "USDC", 6)]);
    l.add(&AddRequest {
        ts: Some("2026-09-08T09:00:00Z".into()),
        ..req("w", "10", Kind::Deposit)
    })
    .unwrap();
    let r = l
        .reconcile(&ReconcileRequest {
            dry_run: true,
            adjust: true,
            ts: Some("2026-09-08T10:00:00Z".into()),
            ..rreq("12.5")
        })
        .unwrap();
    assert!(r.dry_run);
    assert!(!r.duplicate);
    assert_eq!(r.snapshot.id, None);
    assert_eq!(r.snapshot.ts, "2026-09-08T10:00:00.000Z");
    assert_eq!(r.snapshot.observed, "12.500000");
    assert_eq!(r.snapshot.book, "10.000000");
    assert_eq!(r.snapshot.diff, "2.500000");
    assert_eq!(r.snapshot.source.as_deref(), Some("chain"));
    assert!(r.adjustment.is_none());
    assert!(l.snapshots("w", 0).unwrap().snapshots.is_empty());
    assert_eq!(l.balance("w", None).unwrap().balance, "10.000000");
    assert_eq!(l.balances().unwrap()[0].entries, 1);
}

#[test]
fn same_observation_at_the_same_time_is_a_duplicate() {
    let mut l = ledger_with(&[("w", "USDC", 6)]);
    l.add(&AddRequest {
        ts: Some("2026-09-08T09:00:00Z".into()),
        ..req("w", "10", Kind::Deposit)
    })
    .unwrap();
    let at = || ReconcileRequest {
        ts: Some("2026-09-08T10:00:00Z".into()),
        ..rreq("9.5")
    };
    let first = l.reconcile(&at()).unwrap();
    assert!(!first.duplicate);
    let again = l.reconcile(&at()).unwrap();
    assert!(again.duplicate);
    assert_eq!(again.snapshot.id, first.snapshot.id);
    assert_eq!(again.snapshot.diff, "-0.500000");
    assert_eq!(l.snapshots("w", 0).unwrap().snapshots.len(), 1);
    // A dry run of the same observation says so without writing.
    let peek = l
        .reconcile(&ReconcileRequest {
            dry_run: true,
            ..at()
        })
        .unwrap();
    assert!(peek.dry_run && peek.duplicate);
    assert_eq!(peek.snapshot.id, None);
    assert_eq!(l.snapshots("w", 0).unwrap().snapshots.len(), 1);
}

#[test]
fn observe_then_adjust_at_the_same_time_is_not_a_duplicate() {
    let mut l = ledger_with(&[("w", "USDC", 6)]);
    l.add(&AddRequest {
        ts: Some("2026-09-08T09:00:00Z".into()),
        ..req("w", "10", Kind::Deposit)
    })
    .unwrap();
    let ts = Some("2026-09-08T10:00:00Z".to_string());
    let looked = l
        .reconcile(&ReconcileRequest {
            ts: ts.clone(),
            ..rreq("9.5")
        })
        .unwrap();
    assert!(looked.adjustment.is_none());
    let fixed = l
        .reconcile(&ReconcileRequest {
            ts: ts.clone(),
            ..adjusting("9.5")
        })
        .unwrap();
    assert!(!fixed.duplicate);
    let adj = fixed.adjustment.expect("adjustment posted");
    assert_eq!(adj.amount, "-0.500000");
    assert_eq!(fixed.snapshot.adjustment_entry_id, Some(adj.id));
    assert_eq!(l.snapshots("w", 0).unwrap().snapshots.len(), 2);
    assert_eq!(l.balance("w", None).unwrap().balance, "9.500000");
    // Replaying the adjusting call: the book now equals observed, so it is a fresh
    // zero-diff snapshot, and replaying that one is a duplicate.
    let replay = l
        .reconcile(&ReconcileRequest {
            ts: ts.clone(),
            ..adjusting("9.5")
        })
        .unwrap();
    assert!(!replay.duplicate);
    assert_eq!(replay.snapshot.diff, "0.000000");
    assert!(replay.adjustment.is_none());
    let replay2 = l
        .reconcile(&ReconcileRequest {
            ts,
            ..adjusting("9.5")
        })
        .unwrap();
    assert!(replay2.duplicate);
    assert_eq!(replay2.snapshot.id, replay.snapshot.id);
    assert_eq!(l.snapshots("w", 0).unwrap().snapshots.len(), 3);
}

#[test]
fn duplicate_needs_the_same_book_and_source() {
    let mut l = ledger_with(&[("w", "USD", 2)]);
    l.add(&AddRequest {
        ts: Some("2026-09-01".into()),
        ..req("w", "10", Kind::Deposit)
    })
    .unwrap();
    let at = |source: Option<&str>| ReconcileRequest {
        ts: Some("2026-09-08T10:00:00Z".into()),
        source: source.map(str::to_string),
        ..rreq("10")
    };
    l.reconcile(&at(None)).unwrap();
    assert!(
        l.reconcile(&at(None)).unwrap().duplicate,
        "null source matches null"
    );
    assert!(!l.reconcile(&at(Some("chain"))).unwrap().duplicate);
    // A back-dated entry changes the book as of that time, so the same observation is new.
    l.add(&AddRequest {
        ts: Some("2026-09-02".into()),
        ..req("w", "-1", Kind::Fee)
    })
    .unwrap();
    let r = l.reconcile(&at(None)).unwrap();
    assert!(!r.duplicate);
    assert_eq!(r.snapshot.book, "9.00");
    assert_eq!(l.snapshots("w", 0).unwrap().snapshots.len(), 3);
}

#[test]
fn ts_computes_book_as_of_that_time() {
    let mut l = ledger_with(&[("w", "USD", 2)]);
    l.add(&AddRequest {
        ts: Some("2026-09-01".into()),
        ..req("w", "10", Kind::Deposit)
    })
    .unwrap();
    l.add(&AddRequest {
        ts: Some("2026-09-05".into()),
        ..req("w", "-3", Kind::Trade)
    })
    .unwrap();
    let r = l
        .reconcile(&ReconcileRequest {
            ts: Some("2026-09-02".into()),
            ..adjusting("9")
        })
        .unwrap();
    assert_eq!(r.snapshot.book, "10.00");
    assert_eq!(r.snapshot.diff, "-1.00");
    assert_eq!(r.snapshot.ts, "2026-09-02T00:00:00.000Z");
    assert_eq!(l.balance("w", Some("2026-09-02")).unwrap().balance, "9.00");
    assert_eq!(l.balance("w", None).unwrap().balance, "6.00");
}

#[test]
fn default_ts_never_predates_booked_entries() {
    let mut l = ledger_with(&[("w", "USD", 2)]);
    l.add(&AddRequest {
        ts: Some("2999-01-01T00:00:00Z".into()),
        ..req("w", "10", Kind::Deposit)
    })
    .unwrap();
    let r = l.reconcile(&rreq("10")).unwrap();
    assert_eq!(r.snapshot.book, "10.00");
    assert_eq!(r.snapshot.diff, "0.00");
    assert_eq!(r.snapshot.ts, "2999-01-01T00:00:00.000Z");
    assert!(r.adjustment.is_none());
}

#[test]
fn observed_zero_is_allowed_and_snapshots_list_oldest_first_with_limit() {
    let mut l = ledger_with(&[("w", "USD", 2)]);
    l.add(&AddRequest {
        ts: Some("2026-08-31".into()),
        ..req("w", "5", Kind::Deposit)
    })
    .unwrap();
    // 09-01 sees book 5 and posts -5; the later two see book 0 and post nothing.
    l.reconcile(&ReconcileRequest {
        ts: Some("2026-09-01".into()),
        ..adjusting("0")
    })
    .unwrap();
    l.reconcile(&ReconcileRequest {
        ts: Some("2026-09-02".into()),
        ..adjusting("0")
    })
    .unwrap();
    l.reconcile(&ReconcileRequest {
        ts: Some("2026-09-03".into()),
        ..adjusting("0")
    })
    .unwrap();
    let s = l.snapshots("w", 2).unwrap();
    assert_eq!(s.snapshots.len(), 2);
    assert_eq!(s.snapshots[0].ts, "2026-09-02T00:00:00.000Z");
    assert_eq!(s.snapshots[1].ts, "2026-09-03T00:00:00.000Z");
    assert_eq!(l.balance("w", None).unwrap().balance, "0.00");
}

#[test]
fn reconcile_errors_name_the_bad_input() {
    let mut l = ledger_with(&[("w", "USD", 2)]);
    assert!(matches!(
        l.reconcile(&ReconcileRequest { account: "x".into(), ..rreq("1") }),
        Err(LedgerError::AccountNotFound(_))
    ));
    assert!(matches!(l.reconcile(&rreq("1.001")), Err(LedgerError::PrecisionExceeded { .. })));
    assert!(matches!(
        l.reconcile(&ReconcileRequest { ts: Some("nope".into()), ..rreq("1") }),
        Err(LedgerError::InvalidTimestamp(_))
    ));
    assert!(l.snapshots("w", 0).unwrap().snapshots.is_empty());
}
