use agent_ledger::ledger::HistoryFilter;
use agent_ledger::Ledger;

fn ledger_with(accounts: &[(&str, &str, u32)]) -> Ledger {
    let mut l = Ledger::open_in_memory().unwrap();
    for (name, ccy, dec) in accounts {
        l.add_account(name, ccy, *dec, None).unwrap();
    }
    l
}

const LINES: &str = r#"
{"account":"poly","amount":"100","kind":"deposit","ref":"0xdep","ts":"2026-09-01","actor":"backfill"}
{"account":"poly","amount":"-25.500000","kind":"trade","ref":"o1","group":"arb:1","meta":{"market":"btc-5m","side":"buy"}}

{"account":"kalshi","amount":"-24","kind":"trade","ref":"k1","group":"arb:1"}
"#;

#[test]
fn imports_all_lines_in_one_batch_and_skips_duplicates_on_replay() {
    let mut l = ledger_with(&[("poly", "USDC", 6), ("kalshi", "USD", 2)]);
    let r = l.import(LINES, false, Some("agent-7")).unwrap();
    assert_eq!(r.imported, 3);
    assert_eq!(r.duplicates, 0);
    assert!(!r.dry_run);
    assert_eq!(r.entries[0].actor.as_deref(), Some("backfill"));
    assert_eq!(r.entries[1].actor.as_deref(), Some("agent-7"));
    let meta: serde_json::Value = serde_json::from_str(r.entries[1].meta.as_ref().unwrap()).unwrap();
    assert_eq!(meta["side"], "buy");
    assert_eq!(l.balance("poly", None).unwrap().balance, "74.500000");

    let again = l.import(LINES, false, None).unwrap();
    assert_eq!(again.imported, 0);
    assert_eq!(again.duplicates, 3);
    assert_eq!(
        l.history("poly", &HistoryFilter::default())
            .unwrap()
            .entries
            .len(),
        2
    );
}

#[test]
fn dry_run_reports_but_writes_nothing() {
    let mut l = ledger_with(&[("poly", "USDC", 6), ("kalshi", "USD", 2)]);
    let r = l.import(LINES, true, None).unwrap();
    assert_eq!(r.imported, 3);
    assert!(r.dry_run);
    assert_eq!(l.balance("poly", None).unwrap().balance, "0.000000");
}

#[test]
fn any_error_rolls_back_everything_with_line_number() {
    let mut l = ledger_with(&[("poly", "USDC", 6)]);
    let bad = "{\"account\":\"poly\",\"amount\":\"1\",\"kind\":\"deposit\"}\n{\"account\":\"poly\",\"amount\":\"-1\",\"kind\":\"deposit\"}\n";
    let err = l.import(bad, false, None).unwrap_err();
    assert_eq!(err.line(), Some(2));
    assert_eq!(err.code(), "invalid_sign");
    assert_eq!(l.balance("poly", None).unwrap().balance, "0.000000");

    let not_json = "{\"account\":\"poly\",\"amount\":\"1\",\"kind\":\"deposit\"}\nnope\n";
    let err = l.import(not_json, false, None).unwrap_err();
    assert_eq!(err.line(), Some(2));
    assert_eq!(err.code(), "invalid_json");

    let numeric = "{\"account\":\"poly\",\"amount\":1.5,\"kind\":\"deposit\"}\n";
    let err = l.import(numeric, false, None).unwrap_err();
    assert_eq!(err.code(), "invalid_amount");

    let transfer = "{\"account\":\"poly\",\"amount\":\"1\",\"kind\":\"transfer\"}\n";
    assert_eq!(
        l.import(transfer, false, None)
            .unwrap_err()
            .code(),
        "invalid_kind"
    );

    let bad_meta =
        "{\"account\":\"poly\",\"amount\":\"1\",\"kind\":\"deposit\",\"meta\":[1]}\n";
    assert_eq!(
        l.import(bad_meta, false, None)
            .unwrap_err()
            .code(),
        "invalid_meta"
    );
    assert_eq!(l.balance("poly", None).unwrap().balance, "0.000000");
}

#[test]
fn same_ref_twice_in_one_batch_is_a_duplicate() {
    let mut l = ledger_with(&[("poly", "USDC", 6)]);
    let twice = "{\"account\":\"poly\",\"amount\":\"1\",\"kind\":\"deposit\",\"ref\":\"x\"}\n{\"account\":\"poly\",\"amount\":\"1\",\"kind\":\"deposit\",\"ref\":\"x\"}\n";
    let r = l.import(twice, false, None).unwrap();
    assert_eq!((r.imported, r.duplicates), (1, 1));
}

#[test]
fn missing_member_and_empty_input() {
    let mut l = ledger_with(&[("poly", "USDC", 6)]);
    let err = l.import("{\"amount\":\"1\",\"kind\":\"deposit\"}\r\n", false, None).unwrap_err();
    assert_eq!(err.line(), Some(1));
    assert_eq!(err.code(), "invalid_json");
    let r = l.import("\n  \n", false, None).unwrap();
    assert_eq!((r.imported, r.duplicates), (0, 0));
    assert!(r.entries.is_empty());
}
