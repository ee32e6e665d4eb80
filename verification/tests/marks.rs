use agent_ledger::ledger::marks::parse_marks;
use agent_ledger::ledger::{AddRequest, PnlBucket, PnlFilter};
use agent_ledger::model::{AccountPnl, Kind, PnlRow};
use agent_ledger::{Ledger, LedgerError};

fn trade(l: &mut Ledger, account: &str, amount: &str, group: &str, strategy: &str) {
    l.add(&AddRequest {
        account: account.into(),
        amount: amount.into(),
        kind: Kind::Trade,
        reference: None,
        memo: None,
        ts: None,
        group: Some(group.into()),
        meta: Some(format!(r#"{{"strategy":"{strategy}"}}"#)),
        actor: None,
    })
    .unwrap();
}

fn seeded() -> Ledger {
    let mut l = Ledger::open_in_memory().unwrap();
    l.add_account("poly-usdc", "USDC", 6, None).unwrap();
    l.add_account("kalshi-usd", "USD", 2, None).unwrap();
    trade(&mut l, "poly-usdc", "-23.2", "farm:a", "farm");
    trade(&mut l, "poly-usdc", "-7.44", "farm:b", "farm");
    trade(&mut l, "poly-usdc", "-5", "dir:c", "dir");
    trade(&mut l, "poly-usdc", "-45", "arb:1", "arb");
    trade(&mut l, "kalshi-usd", "-52", "arb:1", "arb");
    l
}

fn by(b: PnlBucket) -> PnlFilter {
    PnlFilter { since: None, until: None, by: b }
}

fn row<'a>(a: &'a AccountPnl, bucket: &str) -> &'a PnlRow {
    a.rows.iter().find(|r| r.bucket.as_deref() == Some(bucket)).unwrap()
}

const MARKS: &str = r#"{"farm:a":"21.60","farm:b":"5.5","dir:c":"0"}"#;

#[test]
fn marks_add_open_value_and_mtm_by_group_and_strategy() {
    let l = seeded();
    let marks = parse_marks(MARKS).unwrap();
    let out = l.pnl_marked(Some("poly-usdc"), &by(PnlBucket::Group), &marks).unwrap();
    let a = &out[0];
    assert_eq!(row(a, "farm:a").net, "-23.200000");
    assert_eq!(row(a, "farm:a").open_value.as_deref(), Some("21.600000"));
    assert_eq!(row(a, "farm:a").mtm, "-1.600000");
    assert_eq!(row(a, "dir:c").open_value.as_deref(), Some("0.000000"));
    assert_eq!(row(a, "dir:c").mtm, "-5.000000");
    assert_eq!(row(a, "arb:1").open_value, None);
    assert_eq!(row(a, "arb:1").mtm, "-45.000000");

    let out = l
        .pnl_marked(Some("poly-usdc"), &by(PnlBucket::Meta("strategy".into())), &marks)
        .unwrap();
    let farm = row(&out[0], "farm");
    assert_eq!(farm.net, "-30.640000");
    assert_eq!(farm.open_value.as_deref(), Some("27.100000"));
    assert_eq!(farm.mtm, "-3.540000");
}

#[test]
fn without_marks_open_value_is_absent_and_mtm_is_net() {
    let l = seeded();
    let out = l.pnl_marked(Some("poly-usdc"), &by(PnlBucket::Group), &vec![]).unwrap();
    for r in &out[0].rows {
        assert_eq!(r.open_value, None);
        assert_eq!(r.mtm, r.net);
    }
}

#[test]
fn a_group_spanning_rows_is_ambiguous_and_an_unknown_group_is_not_found() {
    let l = seeded();
    let span = parse_marks(r#"{"arb:1":"10"}"#).unwrap();
    match l.pnl_marked(None, &by(PnlBucket::Group), &span) {
        Err(e) => assert_eq!(e.code(), "mark_ambiguous"),
        Ok(_) => panic!("expected mark_ambiguous"),
    }
    // On one account arb:1 falls in one row.
    let out = l.pnl_marked(Some("kalshi-usd"), &by(PnlBucket::Group), &span).unwrap();
    assert_eq!(row(&out[0], "arb:1").mtm, "-42.00");
    let typo = parse_marks(r#"{"farm:zzz":"1"}"#).unwrap();
    assert!(matches!(
        l.pnl_marked(None, &by(PnlBucket::Group), &typo),
        Err(LedgerError::GroupNotFound(g)) if g == "farm:zzz"
    ));
}

#[test]
fn a_mark_outside_the_report_is_ignored_and_precision_follows_the_account() {
    let l = seeded();
    let other = parse_marks(r#"{"farm:a":"1"}"#).unwrap();
    let out = l.pnl_marked(Some("kalshi-usd"), &by(PnlBucket::Total), &other).unwrap();
    assert_eq!(out[0].rows[0].open_value, None);
    let fine = parse_marks(r#"{"arb:1":"0.001"}"#).unwrap();
    assert!(matches!(
        l.pnl_marked(Some("kalshi-usd"), &by(PnlBucket::Total), &fine),
        Err(LedgerError::PrecisionExceeded { scale: 3, .. })
    ));
    let total = l.pnl_marked(Some("poly-usdc"), &by(PnlBucket::Total), &parse_marks(MARKS).unwrap()).unwrap();
    assert_eq!(total[0].rows[0].open_value.as_deref(), Some("27.100000"));
    assert_eq!(total[0].rows[0].mtm, "-53.540000");
}

#[test]
fn marks_must_be_an_object_of_strings() {
    assert!(matches!(parse_marks("[1]"), Err(LedgerError::InvalidJson(_))));
    assert!(matches!(parse_marks("{"), Err(LedgerError::InvalidJson(_))));
    match parse_marks(r#"{"g":1.5}"#) {
        Err(LedgerError::InvalidAmount(m)) => assert_eq!(m, "1.5 (amount must be a JSON string)"),
        other => panic!("unexpected {other:?}"),
    }
    let m = parse_marks(r#"{"b":"2","a":"1"}"#).unwrap();
    assert_eq!(m.len(), 2);
}
