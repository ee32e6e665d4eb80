use agent_ledger::ledger::{AddRequest, PnlBucket, PnlFilter, TransferRequest};
use agent_ledger::model::Kind;
use agent_ledger::{Ledger, LedgerError};

fn ledger_with(accounts: &[(&str, &str, u32)]) -> Ledger {
    let mut l = Ledger::open_in_memory().unwrap();
    for (name, ccy, dec) in accounts {
        l.add_account(name, ccy, *dec, None).unwrap();
    }
    l
}

fn req(account: &str, amount: &str, kind: Kind) -> AddRequest {
    AddRequest {
        account: account.into(),
        amount: amount.into(),
        kind,
        reference: None,
        memo: None,
        ts: None,
        group: None,
        meta: None,
        actor: None,
    }
}

fn f(by: PnlBucket) -> PnlFilter {
    PnlFilter {
        since: None,
        until: None,
        by,
    }
}

fn seeded() -> Ledger {
    let mut l = ledger_with(&[("a", "USD", 2), ("b", "USD", 2)]);
    let day = |d: &str, r: AddRequest| AddRequest {
        ts: Some(format!("2026-09-0{d}")),
        ..r
    };
    l.add(&day("1", req("a", "100", Kind::Deposit))).unwrap();
    l.add(&day(
        "1",
        AddRequest {
            group: Some("g1".into()),
            meta: Some(r#"{"strategy":"arb"}"#.into()),
            ..req("a", "-40", Kind::Trade)
        },
    ))
    .unwrap();
    l.add(&day(
        "2",
        AddRequest {
            group: Some("g1".into()),
            meta: Some(r#"{"strategy":"arb"}"#.into()),
            ..req("a", "48", Kind::Settlement)
        },
    ))
    .unwrap();
    l.add(&day(
        "2",
        AddRequest {
            meta: Some(r#"{"strategy":"mom"}"#.into()),
            ..req("a", "-2", Kind::Fee)
        },
    ))
    .unwrap();
    let bad = l.add(&day("3", req("a", "-7", Kind::Trade))).unwrap().entry;
    l.reverse_entry(bad.id, None, None).unwrap();
    l.transfer(&TransferRequest {
        from: "a".into(),
        to: "b".into(),
        amount: "10".into(),
        reference: None,
        memo: None,
        ts: Some("2026-09-03".into()),
        group: None,
        meta: None,
        actor: None,
    })
    .unwrap();
    l.add(&day("4", req("a", "-30", Kind::Withdrawal))).unwrap();
    l
}

#[test]
fn parses_buckets() {
    assert_eq!(PnlBucket::parse("total").unwrap(), PnlBucket::Total);
    assert_eq!(PnlBucket::parse("day").unwrap(), PnlBucket::Day);
    assert_eq!(
        PnlBucket::parse("meta:strategy").unwrap(),
        PnlBucket::Meta("strategy".into())
    );
    assert!(matches!(
        PnlBucket::parse("meta:"),
        Err(LedgerError::InvalidBucket(_))
    ));
    assert!(matches!(
        PnlBucket::parse("meta:a.b"),
        Err(LedgerError::InvalidBucket(_))
    ));
    assert!(matches!(
        PnlBucket::parse("hour"),
        Err(LedgerError::InvalidBucket(_))
    ));
}

#[test]
fn total_excludes_capital_movements_and_folds_reversals() {
    let l = seeded();
    let out = l.pnl(Some("a"), &f(PnlBucket::Total)).unwrap();
    assert_eq!(out.len(), 1);
    let row = &out[0].rows[0];
    assert_eq!(row.bucket, None);
    assert_eq!(row.trades, "-40.00");
    assert_eq!(row.settlements, "48.00");
    assert_eq!(row.fees, "-2.00");
    assert_eq!(row.adjustments, "0.00");
    assert_eq!(row.other, "0.00");
    assert_eq!(row.net, "6.00");
}

#[test]
fn empty_account_reports_one_zero_row_and_all_accounts_are_listed() {
    let l = seeded();
    let out = l.pnl(None, &f(PnlBucket::Total)).unwrap();
    assert_eq!(out.len(), 2);
    assert_eq!(out[1].account, "b");
    assert_eq!(out[1].rows.len(), 1);
    assert_eq!(out[1].rows[0].net, "0.00");
}

#[test]
fn buckets_by_day_group_and_meta_key() {
    let l = seeded();
    let by_day = l.pnl(Some("a"), &f(PnlBucket::Day)).unwrap();
    let days: Vec<(Option<String>, String)> = by_day[0]
        .rows
        .iter()
        .map(|r| (r.bucket.clone(), r.net.clone()))
        .collect();
    // The -7 trade and its reversal share the trade's movement time, so its day nets to zero.
    assert_eq!(
        days,
        vec![
            (Some("2026-09-01".into()), "-40.00".into()),
            (Some("2026-09-02".into()), "46.00".into()),
            (Some("2026-09-03".into()), "0.00".into()),
        ]
    );
    let by_group = l.pnl(Some("a"), &f(PnlBucket::Group)).unwrap();
    let g1 = by_group[0]
        .rows
        .iter()
        .find(|r| r.bucket.as_deref() == Some("g1"))
        .unwrap();
    assert_eq!(g1.net, "8.00");
    let ungrouped = by_group[0]
        .rows
        .iter()
        .find(|r| r.bucket.is_none())
        .unwrap();
    assert_eq!(ungrouped.net, "-2.00");
    let by_meta = l
        .pnl(Some("a"), &f(PnlBucket::Meta("strategy".into())))
        .unwrap();
    let arb = by_meta[0]
        .rows
        .iter()
        .find(|r| r.bucket.as_deref() == Some("arb"))
        .unwrap();
    assert_eq!(arb.net, "8.00");
    let mom = by_meta[0]
        .rows
        .iter()
        .find(|r| r.bucket.as_deref() == Some("mom"))
        .unwrap();
    assert_eq!(mom.fees, "-2.00");
}

#[test]
fn since_until_filter_on_ts() {
    let l = seeded();
    let out = l
        .pnl(
            Some("a"),
            &PnlFilter {
                since: Some("2026-09-02".into()),
                until: None,
                by: PnlBucket::Total,
            },
        )
        .unwrap();
    assert_eq!(out[0].rows[0].net, "46.00");
}

#[test]
fn rows_come_in_bucket_order_with_null_first_and_unmarked_mtm_equal_to_net() {
    let l = seeded();
    let by_group = l.pnl(Some("a"), &f(PnlBucket::Group)).unwrap();
    let buckets: Vec<Option<String>> = by_group[0].rows.iter().map(|r| r.bucket.clone()).collect();
    assert_eq!(buckets, vec![None, Some("g1".into())]);
    for r in &by_group[0].rows {
        assert_eq!(r.open_value, None);
        assert_eq!(r.mtm, r.net);
    }
}

#[test]
fn buckets_by_month_and_week() {
    let l = seeded();
    let by_month = l.pnl(Some("a"), &f(PnlBucket::Month)).unwrap();
    assert_eq!(by_month[0].rows.len(), 1);
    assert_eq!(by_month[0].rows[0].bucket.as_deref(), Some("2026-09"));
    assert_eq!(by_month[0].rows[0].net, "6.00");
    let by_week = l.pnl(Some("a"), &f(PnlBucket::Week)).unwrap();
    let weeks: Vec<Option<String>> = by_week[0].rows.iter().map(|r| r.bucket.clone()).collect();
    assert_eq!(weeks, vec![Some("2026-W35".into())]);
}

#[test]
fn pnl_rejects_unknown_account_and_bad_times() {
    let l = seeded();
    assert!(matches!(l.pnl(Some("zz"), &f(PnlBucket::Total)), Err(LedgerError::AccountNotFound(_))));
    assert!(matches!(
        l.pnl(None, &PnlFilter { since: Some("soon".into()), until: None, by: PnlBucket::Total }),
        Err(LedgerError::InvalidTimestamp(_))
    ));
}
