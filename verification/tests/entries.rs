use agent_ledger::ledger::{AddRequest, TransferRequest};
use agent_ledger::model::Kind;
use agent_ledger::{Ledger, LedgerError};

fn ledger_with(accounts: &[(&str, &str, u32)]) -> Ledger {
    let mut l = Ledger::open_in_memory().unwrap();
    for (name, ccy, dec) in accounts {
        l.add_account(name, ccy, *dec, None).unwrap();
    }
    l
}

fn req(account: &str, amount: &str, kind: Kind) -> AddRequest {
    AddRequest {
        account: account.into(),
        amount: amount.into(),
        kind,
        reference: None,
        memo: None,
        ts: None,
        group: None,
        meta: None,
        actor: None,
    }
}

fn treq(from: &str, to: &str, amount: &str) -> TransferRequest {
    TransferRequest {
        from: from.into(),
        to: to.into(),
        amount: amount.into(),
        reference: None,
        memo: None,
        ts: None,
        group: None,
        meta: None,
        actor: None,
    }
}

#[test]
fn add_returns_entry_and_running_balance() {
    let mut l = ledger_with(&[("poly-usdc", "USDC", 6)]);
    let r = l
        .add(&AddRequest {
            reference: Some("0xabc".into()),
            actor: Some("agent-7".into()),
            ..req("poly-usdc", "100", Kind::Deposit)
        })
        .unwrap();
    assert_eq!(r.entry.amount, "100.000000");
    assert_eq!(r.entry.currency, "USDC");
    assert_eq!(r.entry.actor.as_deref(), Some("agent-7"));
    assert_eq!(r.balance, "100.000000");
    assert!(!r.duplicate);
    let r2 = l.add(&req("POLY-USDC", "-25.5", Kind::Trade)).unwrap();
    assert_eq!(r2.balance, "74.500000");
    assert_eq!(r2.entry.id, 2);
}

#[test]
fn same_ref_same_amount_is_duplicate_different_amount_conflicts() {
    let mut l = ledger_with(&[("w", "USD", 2)]);
    let first = l
        .add(&AddRequest {
            reference: Some("tx1".into()),
            ..req("w", "10", Kind::Deposit)
        })
        .unwrap();
    let again = l
        .add(&AddRequest {
            reference: Some("tx1".into()),
            ..req("w", "10.00", Kind::Deposit)
        })
        .unwrap();
    assert!(again.duplicate);
    assert_eq!(again.entry.id, first.entry.id);
    assert_eq!(again.balance, "10.00");
    let conflict = l.add(&AddRequest {
        reference: Some("tx1".into()),
        ..req("w", "11", Kind::Deposit)
    });
    assert!(matches!(
        conflict,
        Err(LedgerError::RefConflict { existing_id: 1, .. })
    ));
    assert_eq!(l.balance("w", None).unwrap().balance, "10.00");
}

#[test]
fn validates_sign_precision_kind_group_meta_and_ts() {
    let mut l = ledger_with(&[("w", "USD", 2)]);
    assert!(matches!(
        l.add(&req("w", "-1", Kind::Deposit)),
        Err(LedgerError::InvalidSign { .. })
    ));
    assert!(matches!(
        l.add(&req("w", "1", Kind::Fee)),
        Err(LedgerError::InvalidSign { .. })
    ));
    assert!(matches!(
        l.add(&req("w", "0", Kind::Trade)),
        Err(LedgerError::ZeroAmount)
    ));
    assert!(matches!(
        l.add(&req("w", "1.001", Kind::Trade)),
        Err(LedgerError::PrecisionExceeded { scale: 3, .. })
    ));
    assert!(matches!(
        l.add(&req("w", "abc", Kind::Trade)),
        Err(LedgerError::InvalidAmount(_))
    ));
    assert!(matches!(
        l.add(&AddRequest {
            group: Some("  ".into()),
            ..req("w", "1", Kind::Trade)
        }),
        Err(LedgerError::InvalidGroup)
    ));
    assert!(matches!(
        l.add(&AddRequest {
            meta: Some("[1]".into()),
            ..req("w", "1", Kind::Trade)
        }),
        Err(LedgerError::InvalidMeta(_))
    ));
    assert!(matches!(
        l.add(&AddRequest {
            ts: Some("later".into()),
            ..req("w", "1", Kind::Trade)
        }),
        Err(LedgerError::InvalidTimestamp(_))
    ));
    assert!(matches!(
        l.add(&req("nope", "1", Kind::Trade)),
        Err(LedgerError::AccountNotFound(_))
    ));
    assert_eq!(l.balance("w", None).unwrap().balance, "0.00");
}

#[test]
fn stores_ts_group_and_meta_verbatim() {
    let mut l = ledger_with(&[("w", "USD", 2)]);
    let r = l
        .add(&AddRequest {
            ts: Some("2026-09-06T12:00:00+09:00".into()),
            group: Some("arb:1".into()),
            meta: Some(r#"{"market":"btc-5m","price":"0.51"}"#.into()),
            memo: Some("buy".into()),
            ..req("w", "-5", Kind::Trade)
        })
        .unwrap();
    assert_eq!(r.entry.ts, "2026-09-06T03:00:00.000Z");
    assert_eq!(r.entry.group_id.as_deref(), Some("arb:1"));
    let meta: serde_json::Value = serde_json::from_str(r.entry.meta.as_ref().unwrap()).unwrap();
    assert_eq!(meta["market"], "btc-5m");
    let shown = l.show(r.entry.id).unwrap();
    assert_eq!(shown.entry.memo.as_deref(), Some("buy"));
    assert_eq!(shown.balance, "-5.00");
    assert!(matches!(l.show(99), Err(LedgerError::EntryNotFound(99))));
}

#[test]
fn transfer_writes_two_linked_legs() {
    let mut l = ledger_with(&[("a", "USD", 2), ("b", "usd", 2)]);
    l.add(&req("a", "10", Kind::Deposit)).unwrap();
    let t = l.transfer(&treq("a", "b", "4")).unwrap();
    assert!(!t.duplicate);
    assert_eq!(t.entries.len(), 2);
    assert_eq!(t.entries[0].amount, "-4.00");
    assert_eq!(t.entries[1].amount, "4.00");
    assert_eq!(t.entries[0].kind, Kind::Transfer);
    assert_eq!(t.entries[0].group_id, t.entries[1].group_id);
    assert_eq!(t.entries[0].group_id.as_ref().unwrap().len(), 36);
    assert_eq!(t.entries[0].ts, t.entries[1].ts);
    assert_eq!(l.balance("a", None).unwrap().balance, "6.00");
    assert_eq!(l.balance("b", None).unwrap().balance, "4.00");
}

#[test]
fn transfer_rejects_mismatch_same_account_and_non_positive_amounts() {
    let mut l = ledger_with(&[("a", "USD", 2), ("c", "USDC", 6)]);
    assert!(matches!(
        l.transfer(&treq("a", "c", "1")),
        Err(LedgerError::CurrencyMismatch { .. })
    ));
    assert!(matches!(l.transfer(&treq("a", "A", "1")), Err(LedgerError::SameAccount)));
    assert!(matches!(l.transfer(&treq("a", "nope", "1")), Err(LedgerError::AccountNotFound(_))));
    assert!(matches!(l.transfer(&treq("a", "c", "0")), Err(LedgerError::CurrencyMismatch { .. })));
    let mut l2 = ledger_with(&[("a", "USD", 2), ("b", "USD", 2)]);
    assert!(matches!(l2.transfer(&treq("a", "b", "0")), Err(LedgerError::ZeroAmount)));
    assert!(matches!(l2.transfer(&treq("a", "b", "-1")), Err(LedgerError::InvalidSign { .. })));
    assert_eq!(l2.balance("a", None).unwrap().balance, "0.00");
}

#[test]
fn transfer_with_same_ref_is_a_duplicate() {
    let mut l = ledger_with(&[("a", "USD", 2), ("b", "USD", 2)]);
    let first = l
        .transfer(&TransferRequest { reference: Some("t1".into()), ..treq("a", "b", "2") })
        .unwrap();
    let again = l
        .transfer(&TransferRequest { reference: Some("t1".into()), ..treq("a", "b", "2") })
        .unwrap();
    assert!(again.duplicate);
    assert_eq!(again.entries[0].id, first.entries[0].id);
    assert_eq!(l.balance("b", None).unwrap().balance, "2.00");
}

#[test]
fn reversal_negates_links_and_inherits_ts_group_and_meta() {
    let mut l = ledger_with(&[("w", "USD", 2)]);
    let e = l
        .add(&AddRequest {
            ts: Some("2026-09-03".into()),
            group: Some("g".into()),
            meta: Some(r#"{"strategy":"arb"}"#.into()),
            ..req("w", "-7", Kind::Trade)
        })
        .unwrap()
        .entry;
    let r = l.reverse_entry(e.id, Some("typo".into()), Some("agent-7".into())).unwrap();
    assert_eq!(r.entries.len(), 1);
    let rev = &r.entries[0];
    assert_eq!(rev.kind, Kind::Reversal);
    assert_eq!(rev.amount, "7.00");
    assert_eq!(rev.reverses_id, Some(e.id));
    assert_eq!(rev.ts, "2026-09-03T00:00:00.000Z");
    assert_eq!(rev.group_id.as_deref(), Some("g"));
    assert_eq!(rev.meta, e.meta);
    assert_eq!(rev.memo.as_deref(), Some("typo"));
    assert_eq!(l.show(e.id).unwrap().entry.reversed_by, Some(rev.id));
    assert_eq!(l.balance("w", None).unwrap().balance, "0.00");
    assert!(matches!(
        l.reverse_entry(e.id, None, None),
        Err(LedgerError::AlreadyReversed(1, 2))
    ));
    assert!(matches!(
        l.reverse_entry(rev.id, None, None),
        Err(LedgerError::CannotReverseReversal(2))
    ));
    assert!(matches!(l.reverse_entry(9, None, None), Err(LedgerError::EntryNotFound(9))));
}

#[test]
fn reversing_one_transfer_leg_reverses_its_sibling() {
    let mut l = ledger_with(&[("a", "USD", 2), ("b", "USD", 2)]);
    let t = l.transfer(&treq("a", "b", "3")).unwrap();
    let r = l.reverse_entry(t.entries[1].id, None, None).unwrap();
    assert_eq!(r.entries.len(), 2);
    assert_eq!(l.balance("a", None).unwrap().balance, "0.00");
    assert_eq!(l.balance("b", None).unwrap().balance, "0.00");
}

#[test]
fn reverse_group_reverses_open_entries_then_reports_nothing_left() {
    let mut l = ledger_with(&[("w", "USD", 2)]);
    let g = Some("g1".to_string());
    let first = l.add(&AddRequest { group: g.clone(), ..req("w", "-4", Kind::Trade) }).unwrap();
    l.add(&AddRequest { group: g.clone(), ..req("w", "6", Kind::Settlement) }).unwrap();
    l.reverse_entry(first.entry.id, None, None).unwrap();
    let r = l.reverse_group("g1", None, None).unwrap();
    assert_eq!(r.entries.len(), 1);
    assert_eq!(r.entries[0].reverses_id, Some(2));
    assert!(matches!(
        l.reverse_group(" g1 ", None, None),
        Err(LedgerError::NothingToReverse(g)) if g == "g1"
    ));
    assert!(matches!(l.reverse_group("zz", None, None), Err(LedgerError::NothingToReverse(_))));
}
