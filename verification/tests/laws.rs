use agent_ledger::ledger::{AddRequest, HistoryFilter, PnlBucket, PnlFilter, ReconcileRequest, TransferRequest};
use agent_ledger::model::Kind;
use agent_ledger::{Ledger, LedgerError};

fn ledger_with(accounts: &[(&str, &str, u32)]) -> Ledger {
    let mut l = Ledger::open_in_memory().unwrap();
    for (name, ccy, dec) in accounts {
        l.add_account(name, ccy, *dec, None).unwrap();
    }
    l
}

fn req(account: &str, amount: &str, kind: Kind) -> AddRequest {
    AddRequest {
        account: account.into(),
        amount: amount.into(),
        kind,
        reference: None,
        memo: None,
        ts: None,
        group: None,
        meta: None,
        actor: None,
    }
}

fn total(l: &Ledger) -> String {
    l.pnl(Some("a"), &PnlFilter { since: None, until: None, by: PnlBucket::Total })
        .unwrap()[0]
        .rows[0]
        .net
        .clone()
}

#[test]
fn capital_movements_leave_every_pnl_figure_unchanged() {
    let mut l = ledger_with(&[("a", "USD", 2), ("b", "USD", 2)]);
    l.add(&req("a", "-3", Kind::Trade)).unwrap();
    let before = total(&l);
    l.add(&req("a", "50", Kind::Deposit)).unwrap();
    l.add(&req("a", "-5", Kind::Withdrawal)).unwrap();
    l.transfer(&TransferRequest {
        from: "a".into(),
        to: "b".into(),
        amount: "1".into(),
        reference: None,
        memo: None,
        ts: None,
        group: None,
        meta: None,
        actor: None,
    })
    .unwrap();
    let dep = l.add(&req("a", "2", Kind::Deposit)).unwrap();
    l.reverse_entry(dep.entry.id, None, None).unwrap();
    assert_eq!(total(&l), before);
    assert_eq!(before, "-3.00");
}

#[test]
fn a_reversal_nets_its_entry_to_zero_in_its_meta_row() {
    let mut l = ledger_with(&[("a", "USD", 2)]);
    let e = l
        .add(&AddRequest { meta: Some(r#"{"strategy":"x"}"#.into()), ..req("a", "-9", Kind::Fee) })
        .unwrap();
    l.reverse_entry(e.entry.id, None, None).unwrap();
    let rows = l
        .pnl(Some("a"), &PnlFilter { since: None, until: None, by: PnlBucket::Meta("strategy".into()) })
        .unwrap();
    let x = rows[0].rows.iter().find(|r| r.bucket.as_deref() == Some("x")).unwrap();
    assert_eq!((x.fees.as_str(), x.net.as_str()), ("0.00", "0.00"));
}

#[test]
fn an_adjusting_reconcile_makes_the_book_at_its_time_equal_observed() {
    let mut l = ledger_with(&[("a", "USD", 2)]);
    l.add(&AddRequest { ts: Some("2026-09-01".into()), ..req("a", "10", Kind::Deposit) }).unwrap();
    l.add(&AddRequest { ts: Some("2026-09-09".into()), ..req("a", "5", Kind::Deposit) }).unwrap();
    let r = l
        .reconcile(&ReconcileRequest {
            account: "a".into(),
            observed: "7.25".into(),
            source: None,
            ts: Some("2026-09-05".into()),
            adjust: true,
            dry_run: false,
            memo: None,
            actor: None,
        })
        .unwrap();
    assert_eq!(r.snapshot.diff, "-2.75");
    assert_eq!(l.balance("a", Some("2026-09-05")).unwrap().balance, "7.25");
    assert_eq!(l.balance("a", Some(&r.snapshot.ts)).unwrap().balance, r.snapshot.observed);
    assert_eq!(l.balance("a", None).unwrap().balance, "12.25");
}

#[test]
fn replaying_an_add_with_its_ref_changes_nothing() {
    let mut l = ledger_with(&[("a", "USD", 2)]);
    let q = || AddRequest { reference: Some(" r1 ".into()), ..req("a", "4", Kind::Other) };
    let first = l.add(&q()).unwrap();
    let again = l.add(&q()).unwrap();
    assert!(again.duplicate && !first.duplicate);
    assert_eq!(again.entry.id, first.entry.id);
    assert_eq!(again.entry.reference.as_deref(), Some("r1"));
    assert_eq!(l.history("a", &HistoryFilter::default()).unwrap().entries.len(), 1);
}

#[test]
fn a_transfer_moves_the_amount_between_the_two_accounts() {
    let mut l = ledger_with(&[("a", "USD", 2), ("b", "USD", 2)]);
    l.transfer(&TransferRequest {
        from: "a".into(),
        to: "b".into(),
        amount: "2.5".into(),
        reference: None,
        memo: None,
        ts: Some("2026-09-01".into()),
        group: Some("move".into()),
        meta: None,
        actor: None,
    })
    .unwrap();
    assert_eq!(l.balance("a", None).unwrap().balance, "-2.50");
    assert_eq!(l.balance("b", None).unwrap().balance, "2.50");
    assert_eq!(l.group("move").unwrap().net[0].1, "0.00");
}

#[test]
fn a_replay_with_another_amount_is_refused_and_writes_nothing() {
    let mut l = ledger_with(&[("a", "USD", 2)]);
    let first = l
        .add(&AddRequest { reference: Some("r1".into()), ..req("a", "4", Kind::Other) })
        .unwrap();
    let again = l.add(&AddRequest { reference: Some(" r1".into()), ..req("A", "5", Kind::Other) });
    match again {
        Err(LedgerError::RefConflict { existing_id, existing_amount, .. }) => {
            assert_eq!(existing_id, first.entry.id);
            assert_eq!(existing_amount, "4.00");
        }
        other => panic!("unexpected {:?}", other),
    }
    assert_eq!(l.history("a", &HistoryFilter::default()).unwrap().entries.len(), 1);
}

#[test]
fn replaying_a_transfer_with_its_ref_returns_its_legs() {
    let mut l = ledger_with(&[("a", "USD", 2), ("b", "USD", 2)]);
    let q = TransferRequest {
        from: "a".into(),
        to: "b".into(),
        amount: "1".into(),
        reference: Some("t1".into()),
        memo: None,
        ts: None,
        group: None,
        meta: None,
        actor: None,
    };
    let first = l.transfer(&q).unwrap();
    let again = l.transfer(&q).unwrap();
    assert!(!first.duplicate && again.duplicate);
    assert_eq!(again.entries[0].id, first.entries[0].id);
    assert_eq!(again.entries[1].id, first.entries[1].id);
    assert_eq!(l.balance("b", None).unwrap().balance, "1.00");
}

#[test]
fn an_account_added_again_with_another_currency_is_refused() {
    let mut l = ledger_with(&[("ops", "USD", 2)]);
    match l.add_account(" OPS ", "usdc", 2, None) {
        Err(LedgerError::AccountExists(n)) => assert_eq!(n, "OPS"),
        other => panic!("unexpected {:?}", other),
    }
    match l.add_account("ops", "USD", 6, None) {
        Err(LedgerError::AccountExists(n)) => assert_eq!(n, "ops"),
        other => panic!("unexpected {:?}", other),
    }
    assert_eq!(l.list_accounts().unwrap().len(), 1);
}

#[test]
fn a_transfer_without_a_group_gets_a_hyphenated_lower_case_id() {
    let mut l = ledger_with(&[("a", "USD", 2), ("b", "USD", 2)]);
    let r = l
        .transfer(&TransferRequest {
            from: "a".into(),
            to: "b".into(),
            amount: "1".into(),
            reference: None,
            memo: None,
            ts: None,
            group: None,
            meta: None,
            actor: None,
        })
        .unwrap();
    let g = r.entries[0].group_id.clone().unwrap();
    assert_eq!(g.len(), 36);
    for (i, c) in g.chars().enumerate() {
        if [8, 13, 18, 23].contains(&i) {
            assert_eq!(c, '-');
        } else {
            assert!(c.is_ascii_digit() || ('a'..='f').contains(&c));
        }
    }
    assert_eq!(r.entries[1].group_id.as_deref(), Some(g.as_str()));
    assert_eq!(l.group(&g).unwrap().entries.len(), 2);
}
