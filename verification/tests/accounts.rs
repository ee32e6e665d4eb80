use agent_ledger::{Ledger, LedgerError};

#[test]
fn adds_and_lists_with_uppercase_currency() {
    let mut l = Ledger::open_in_memory().unwrap();
    let a = l
        .add_account(" poly-usdc ", "usdc", 6, Some("polymarket proxy wallet"))
        .unwrap()
        .account;
    assert_eq!(a.name, "poly-usdc");
    assert_eq!(a.currency, "USDC");
    assert_eq!(a.decimals, 6);
    assert_eq!(a.note.as_deref(), Some("polymarket proxy wallet"));
    l.add_account("kalshi-usd", "USD", 2, None).unwrap();
    let names: Vec<String> = l
        .list_accounts()
        .unwrap()
        .into_iter()
        .map(|a| a.name)
        .collect();
    assert_eq!(names, vec!["kalshi-usd", "poly-usdc"]);
}

#[test]
fn identical_readd_is_duplicate_including_case_insensitive_name() {
    let mut l = Ledger::open_in_memory().unwrap();
    let first = l.add_account("Wallet", "USD", 2, Some("kept")).unwrap();
    assert!(!first.duplicate);
    let again = l.add_account("wallet", "usd", 2, Some("ignored")).unwrap();
    assert!(again.duplicate);
    assert_eq!(again.account.id, first.account.id);
    assert_eq!(again.account.name, "Wallet");
    assert_eq!(again.account.note.as_deref(), Some("kept"));
}

#[test]
fn different_currency_or_decimals_is_still_exists() {
    let mut l = Ledger::open_in_memory().unwrap();
    l.add_account("poly-usdc", "USDC", 6, None).unwrap();
    assert!(matches!(
        l.add_account("poly-usdc", "USD", 6, None),
        Err(LedgerError::AccountExists(_))
    ));
    assert!(matches!(
        l.add_account("poly-usdc", "USDC", 2, None),
        Err(LedgerError::AccountExists(_))
    ));
}

#[test]
fn rejects_empty_name_or_currency() {
    let mut l = Ledger::open_in_memory().unwrap();
    assert!(matches!(
        l.add_account("  ", "USD", 2, None),
        Err(LedgerError::InvalidAccountName)
    ));
    assert!(matches!(
        l.add_account("x", " ", 2, None),
        Err(LedgerError::InvalidCurrency)
    ));
}

#[test]
fn lookup_is_case_insensitive() {
    let mut l = Ledger::open_in_memory().unwrap();
    l.add_account("Poly-USDC", "USDC", 6, None).unwrap();
    let row = l.balance("poly-usdc", None).unwrap();
    assert_eq!(row.account, "Poly-USDC");
    assert!(matches!(
        l.balance("nope", None),
        Err(LedgerError::AccountNotFound(_))
    ));
}

#[test]
fn accounts_list_in_case_insensitive_name_order_then_id() {
    let mut l = Ledger::open_in_memory().unwrap();
    l.add_account("beta", "USD", 2, None).unwrap();
    l.add_account("Alpha", "USD", 2, None).unwrap();
    l.add_account("alpha2", "USD", 2, None).unwrap();
    let names: Vec<String> = l.list_accounts().unwrap().into_iter().map(|a| a.name).collect();
    assert_eq!(names, vec!["Alpha", "alpha2", "beta"]);
}

#[test]
fn note_is_trimmed_and_ids_count_up() {
    let mut l = Ledger::open_in_memory().unwrap();
    let a = l.add_account("a", "usd", 0, Some("  cash  ")).unwrap().account;
    let b = l.add_account("b", "eur", 18, None).unwrap().account;
    assert_eq!(a.note.as_deref(), Some("cash"));
    assert_eq!((a.id, b.id), (1, 2));
    assert_eq!(b.currency, "EUR");
}
