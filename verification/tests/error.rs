use agent_ledger::LedgerError;

#[test]
fn domain_errors_exit_2_and_infra_errors_exit_1() {
    assert_eq!(LedgerError::ZeroAmount.exit_code(), 2);
    assert_eq!(LedgerError::Io("x".to_string()).exit_code(), 1);
}

#[test]
fn import_wrapper_delegates_code_and_exposes_line() {
    let e = LedgerError::Import {
        line: 3,
        source: Box::new(LedgerError::InvalidGroup),
    };
    assert_eq!(e.code(), "invalid_group");
    assert_eq!(e.line(), Some(3));
    assert_eq!(e.exit_code(), 2);
    assert_eq!(e.message(), "line 3: group id must not be empty");
}

#[test]
fn codes_and_messages_of_structured_errors() {
    let e = LedgerError::PrecisionExceeded {
        amount: "1.001".into(),
        scale: 3,
        account: "w".into(),
        decimals: 2,
    };
    assert_eq!(e.code(), "precision_exceeded");
    assert_eq!(e.message(), "amount 1.001 has 3 decimals; account 'w' allows 2");
    let c = LedgerError::CurrencyMismatch {
        from: "a".into(),
        from_currency: "USD".into(),
        to: "b".into(),
        to_currency: "USDC".into(),
    };
    assert_eq!(c.message(), "currency mismatch: 'a' is USD, 'b' is USDC");
    assert_eq!(LedgerError::AlreadyReversed(4, 9).message(), "entry 4 is already reversed by entry 9");
    assert_eq!(LedgerError::Db("disk".into()).code(), "database_error");
    assert_eq!(LedgerError::Db("disk".into()).line(), None);
}
