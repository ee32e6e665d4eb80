use agent_ledger::ledger::{AddRequest, HistoryFilter};
use agent_ledger::model::{GroupView, Kind};
use agent_ledger::{Ledger, LedgerError};

fn ledger_with(accounts: &[(&str, &str, u32)]) -> Ledger {
    let mut l = Ledger::open_in_memory().unwrap();
    for (name, ccy, dec) in accounts {
        l.add_account(name, ccy, *dec, None).unwrap();
    }
    l
}

fn req(account: &str, amount: &str, kind: Kind) -> AddRequest {
    AddRequest {
        account: account.into(),
        amount: amount.into(),
        kind,
        reference: None,
        memo: None,
        ts: None,
        group: None,
        meta: None,
        actor: None,
    }
}

fn at(ts: &str, r: AddRequest) -> AddRequest {
    AddRequest {
        ts: Some(ts.into()),
        ..r
    }
}

/// The net of a currency in a group view.
fn net<'a>(v: &'a GroupView, ccy: &str) -> &'a str {
    v.net.iter().find(|(c, _)| c == ccy).map(|(_, n)| n.as_str()).unwrap()
}

#[test]
fn balances_lists_every_account_with_counts() {
    let mut l = ledger_with(&[("a", "USD", 2), ("b", "USDC", 6)]);
    l.add(&at("2026-09-01", req("a", "10", Kind::Deposit)))
        .unwrap();
    l.add(&at("2026-09-02", req("a", "-4", Kind::Trade)))
        .unwrap();
    let all = l.balances().unwrap();
    assert_eq!(all.len(), 2);
    assert_eq!(all[0].account, "a");
    assert_eq!(all[0].balance, "6.00");
    assert_eq!(all[0].entries, 2);
    assert_eq!(all[0].last_ts.as_deref(), Some("2026-09-02T00:00:00.000Z"));
    assert_eq!(all[0].last_reconciled_at, None);
    assert_eq!(all[1].balance, "0.000000");
    assert_eq!(all[1].entries, 0);
}

#[test]
fn balance_at_uses_movement_time() {
    let mut l = ledger_with(&[("a", "USD", 2)]);
    l.add(&at("2026-09-01T00:00:00Z", req("a", "10", Kind::Deposit)))
        .unwrap();
    l.add(&at("2026-09-03T00:00:00Z", req("a", "-4", Kind::Trade)))
        .unwrap();
    let b = l.balance("a", Some("2026-09-02")).unwrap();
    assert_eq!(b.balance, "10.00");
    assert_eq!(b.at.as_deref(), Some("2026-09-02T00:00:00.000Z"));
    assert_eq!(l.balance("a", None).unwrap().balance, "6.00");
    assert!(matches!(
        l.balance("a", Some("bad")),
        Err(LedgerError::InvalidTimestamp(_))
    ));
}

#[test]
fn history_has_true_running_balance_under_filters() {
    let mut l = ledger_with(&[("a", "USD", 2)]);
    l.add(&at("2026-09-01", req("a", "10", Kind::Deposit)))
        .unwrap();
    l.add(&at(
        "2026-09-02",
        AddRequest {
            group: Some("g".into()),
            ..req("a", "-4", Kind::Trade)
        },
    ))
    .unwrap();
    l.add(&at("2026-09-03", req("a", "-1", Kind::Fee))).unwrap();
    l.add(&at("2026-09-04", req("a", "3", Kind::Settlement)))
        .unwrap();

    let full = l.history("a", &HistoryFilter::default()).unwrap();
    let after: Vec<&str> = full
        .entries
        .iter()
        .map(|e| e.balance_after.as_str())
        .collect();
    assert_eq!(after, ["10.00", "6.00", "5.00", "8.00"]);

    let last_two = l
        .history(
            "a",
            &HistoryFilter {
                limit: 2,
                ..Default::default()
            },
        )
        .unwrap();
    assert_eq!(last_two.entries.len(), 2);
    assert_eq!(last_two.entries[0].balance_after, "5.00");
    assert_eq!(last_two.entries[1].balance_after, "8.00");

    let since = l
        .history(
            "a",
            &HistoryFilter {
                since: Some("2026-09-03".into()),
                ..Default::default()
            },
        )
        .unwrap();
    assert_eq!(since.entries.len(), 2);
    assert_eq!(since.entries[0].balance_after, "5.00");

    let fees = l
        .history(
            "a",
            &HistoryFilter {
                kind: Some(Kind::Fee),
                ..Default::default()
            },
        )
        .unwrap();
    assert_eq!(fees.entries.len(), 1);
    assert_eq!(fees.entries[0].balance_after, "5.00");

    let grouped = l
        .history(
            "a",
            &HistoryFilter {
                group: Some("g".into()),
                ..Default::default()
            },
        )
        .unwrap();
    assert_eq!(grouped.entries.len(), 1);
    assert_eq!(grouped.entries[0].entry.amount, "-4.00");

    let until = l
        .history(
            "a",
            &HistoryFilter {
                until: Some("2026-09-02".into()),
                ..Default::default()
            },
        )
        .unwrap();
    assert_eq!(until.entries.len(), 2);
}

#[test]
fn group_view_spans_accounts_and_nets_per_currency() {
    let mut l = ledger_with(&[
        ("poly", "USDC", 6),
        ("kalshi", "USD", 2),
        ("poly2", "USDC", 2),
    ]);
    let g = Some("arb:1".to_string());
    l.add(&AddRequest {
        group: g.clone(),
        ..req("poly", "-45", Kind::Trade)
    })
    .unwrap();
    l.add(&AddRequest {
        group: g.clone(),
        ..req("kalshi", "-52", Kind::Trade)
    })
    .unwrap();
    l.add(&AddRequest {
        group: g.clone(),
        ..req("poly", "100", Kind::Settlement)
    })
    .unwrap();
    l.add(&AddRequest {
        group: g.clone(),
        ..req("poly2", "0.5", Kind::Other)
    })
    .unwrap();
    let v = l.group("arb:1").unwrap();
    assert_eq!(v.entries.len(), 4);
    assert_eq!(net(&v, "USDC"), "55.500000");
    assert_eq!(net(&v, "USD"), "-52.00");
    assert!(matches!(
        l.group("nope"),
        Err(LedgerError::GroupNotFound(_))
    ));

    l.reverse_group("arb:1", None, None).unwrap();
    let after = l.group("arb:1").unwrap();
    assert_eq!(after.entries.len(), 8);
    assert_eq!(net(&after, "USDC"), "0.000000");
    assert_eq!(net(&after, "USD"), "0.00");
}

#[test]
fn group_nets_list_currencies_in_order() {
    let mut l = ledger_with(&[("u", "USDC", 6), ("d", "USD", 2)]);
    l.add(&AddRequest { group: Some("g".into()), ..req("u", "1", Kind::Other) }).unwrap();
    l.add(&AddRequest { group: Some("g".into()), ..req("d", "2", Kind::Other) }).unwrap();
    let v = l.group(" g ").unwrap();
    assert_eq!(v.group, "g");
    let currencies: Vec<&str> = v.net.iter().map(|(c, _)| c.as_str()).collect();
    assert_eq!(currencies, ["USD", "USDC"]);
    assert!(matches!(l.group("  "), Err(LedgerError::InvalidGroup)));
}

#[test]
fn last_running_balance_equals_the_balance() {
    let mut l = ledger_with(&[("a", "USD", 2)]);
    l.add(&at("2026-09-05", req("a", "10", Kind::Deposit))).unwrap();
    l.add(&at("2026-09-01", req("a", "-3", Kind::Trade))).unwrap();
    l.add(&at("2026-09-03", req("a", "2", Kind::Other))).unwrap();
    let h = l.history("a", &HistoryFilter::default()).unwrap();
    let ids: Vec<i64> = h.entries.iter().map(|x| x.entry.id).collect();
    assert_eq!(ids, [2, 3, 1]);
    assert_eq!(h.entries.last().unwrap().balance_after, l.balance("a", None).unwrap().balance);
    assert_eq!(h.entries[0].balance_after, "-3.00");
}
