use agent_ledger::ledger::{AddRequest, HistoryFilter};
use agent_ledger::model::{
    Account, AccountAddResult, AccountBalance, BalanceAt, Kind, PnlRow, AccountPnl, ImportResult,
};
use agent_ledger::render::{csv, csv_field, render, table, Output};
use agent_ledger::Ledger;

fn req(account: &str, amount: &str, kind: Kind) -> AddRequest {
    AddRequest {
        account: account.into(),
        amount: amount.into(),
        kind,
        reference: None,
        memo: None,
        ts: None,
        group: None,
        meta: None,
        actor: None,
    }
}

#[test]
fn table_aligns_columns_and_right_aligns_numbers() {
    let t = table(
        &["id", "amount"],
        &[
            vec!["1".into(), "-25.50".into()],
            vec!["12".into(), "100.00".into()],
        ],
        &[1],
    );
    let lines: Vec<&str> = t.lines().collect();
    assert_eq!(lines[0], "id  amount");
    assert_eq!(lines[1], "--  ------");
    assert_eq!(lines[2], "1   -25.50");
    assert_eq!(lines[3], "12  100.00");
}

#[test]
fn csv_quotes_only_when_needed() {
    assert_eq!(csv_field("plain"), "plain");
    assert_eq!(csv_field("a, b"), "\"a, b\"");
    assert_eq!(csv_field("say \"hi\""), "\"say \"\"hi\"\"\"");
    assert_eq!(csv_field("two\nlines"), "\"two\nlines\"");
}

#[test]
fn table_trims_trailing_padding_and_fills_short_rows() {
    let t = table(&["name", "note"], &[vec!["a".into()], vec!["bbb".into(), "x".into()]], &[]);
    assert_eq!(t, "name  note\n----  ----\na\nbbb   x\n");
}

#[test]
fn table_ignores_cells_past_the_last_header() {
    let t = table(&["id"], &[vec!["7".into(), "extra".into()]], &[0]);
    assert_eq!(t, "id\n--\n 7\n");
}

#[test]
fn csv_field_with_only_a_quote_is_quoted_and_doubled() {
    assert_eq!(csv_field("\""), "\"\"\"\"");
    assert_eq!(csv_field(""), "");
}

#[test]
fn renders_account_line_with_duplicate_note() {
    let out = Output::Account(AccountAddResult {
        account: Account {
            id: 3,
            name: "poly-usdc".into(),
            currency: "USDC".into(),
            decimals: 6,
            note: None,
            created_at: "2026-09-06T00:00:00.000Z".into(),
        },
        duplicate: true,
    });
    assert_eq!(
        render(&out),
        "account poly-usdc (USDC, 6 decimals) id=3  (duplicate: account already existed)\n"
    );
}

#[test]
fn renders_balance_lines_and_balance_table() {
    let one = Output::Balance(BalanceAt {
        account: "w".into(),
        currency: "USD".into(),
        balance: "6.00".into(),
        at: Some("2026-09-02T00:00:00.000Z".into()),
    });
    assert_eq!(render(&one), "w 6.00 USD at 2026-09-02T00:00:00.000Z\n");
    let all = Output::Balances {
        accounts: vec![AccountBalance {
            account: "w".into(),
            currency: "USD".into(),
            balance: "6.00".into(),
            entries: 2,
            last_ts: None,
            last_reconciled_at: None,
        }],
    };
    assert_eq!(
        render(&all),
        "account  currency  balance  entries  last_ts  last_reconciled_at\n\
         -------  --------  -------  -------  -------  ------------------\n\
         w        USD          6.00        2\n"
    );
}

#[test]
fn renders_pnl_with_total_label_and_right_aligned_sums() {
    let row = PnlRow {
        bucket: None,
        trades: "-40.00".into(),
        settlements: "48.00".into(),
        fees: "-2.00".into(),
        adjustments: "0.00".into(),
        other: "0.00".into(),
        net: "6.00".into(),
        open_value: None,
        mtm: "6.00".into(),
    };
    let out = Output::Pnl {
        accounts: vec![AccountPnl { account: "a".into(), currency: "USD".into(), rows: vec![row] }],
        marked: false,
        total: true,
    };
    assert_eq!(
        render(&out),
        "a (USD)\n\
         bucket  trades  settlements   fees  adjustments  other   net\n\
         ------  ------  -----------  -----  -----------  -----  ----\n\
         total   -40.00        48.00  -2.00         0.00   0.00  6.00\n"
    );
}

#[test]
fn renders_import_summary_then_entries() {
    let out = Output::Import(ImportResult {
        imported: 0,
        duplicates: 2,
        dry_run: true,
        entries: vec![],
    });
    assert_eq!(
        render(&out),
        "imported 0 duplicates 2  (dry run, nothing written)\n\
         id  account  ts  kind  amount  ref  group  memo  actor  reversal\n\
         --  -------  --  ----  ------  ---  -----  ----  -----  --------\n"
    );
}

#[test]
fn raw_output_is_printed_verbatim() {
    assert_eq!(render(&Output::Raw("a,b\n".into())), "a,b\n");
}

#[test]
fn renders_added_entry_with_balance() {
    let mut l = Ledger::open_in_memory().unwrap();
    l.add_account("w", "USD", 2, None).unwrap();
    let r = l
        .add(&AddRequest {
            ts: Some("2026-09-01".into()),
            memo: Some("first".into()),
            ..req("w", "10", Kind::Deposit)
        })
        .unwrap();
    let text = render(&Output::Add(r));
    assert_eq!(
        text,
        "id  ts                        kind     amount  ref  group  memo   actor  reversal\n\
         --  ------------------------  -------  ------  ---  -----  -----  -----  --------\n \
         1  2026-09-01T00:00:00.000Z  deposit   10.00              first\n\
         balance 10.00 USD\n"
    );
}

#[test]
fn export_csv_quotes_memo_and_lists_running_balance() {
    let mut l = Ledger::open_in_memory().unwrap();
    l.add_account("w", "USD", 2, None).unwrap();
    l.add(&AddRequest {
        ts: Some("2026-09-01".into()),
        memo: Some("a, \"quoted\"".into()),
        ..req("w", "1", Kind::Deposit)
    })
    .unwrap();
    let h = l.export("w").unwrap();
    let text = csv(&h);
    let lines: Vec<&str> = text.lines().collect();
    assert_eq!(
        lines[0],
        "id,ts,recorded_at,kind,amount,balance_after,ref,memo,actor,group_id,meta,reverses_id,reversed_by"
    );
    let recorded = &h.entries[0].entry.recorded_at;
    assert_eq!(
        lines[1],
        format!("1,2026-09-01T00:00:00.000Z,{recorded},deposit,1.00,1.00,,\"a, \"\"quoted\"\"\",,,,,")
    );
    let full = l.history("w", &HistoryFilter::default()).unwrap();
    assert_eq!(full.entries[0].balance_after, "1.00");
}
