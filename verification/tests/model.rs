use agent_ledger::model::Kind;
use agent_ledger::LedgerError;

#[test]
fn kind_round_trips_through_text() {
    for k in Kind::ALL {
        assert_eq!(Kind::parse(k.as_str()), Some(k));
    }
    assert_eq!(Kind::parse("bogus"), None);
}

#[test]
fn transfer_and_reversal_are_not_addable() {
    assert!(matches!(
        Kind::parse_addable("transfer"),
        Err(LedgerError::InvalidKind(_))
    ));
    assert!(matches!(
        Kind::parse_addable("reversal"),
        Err(LedgerError::InvalidKind(_))
    ));
    assert_eq!(Kind::parse_addable("settlement").unwrap(), Kind::Settlement);
}

#[test]
fn sign_rules() {
    assert!(matches!(
        Kind::Deposit.check_sign(0, 2),
        Err(LedgerError::ZeroAmount)
    ));
    assert!(matches!(
        Kind::Deposit.check_sign(-1, 2),
        Err(LedgerError::InvalidSign { .. })
    ));
    assert!(matches!(
        Kind::Fee.check_sign(5, 2),
        Err(LedgerError::InvalidSign { .. })
    ));
    assert!(matches!(
        Kind::Withdrawal.check_sign(5, 2),
        Err(LedgerError::InvalidSign { .. })
    ));
    assert!(Kind::Trade.check_sign(-5, 2).is_ok());
    assert!(Kind::Trade.check_sign(5, 2).is_ok());
    assert!(Kind::Settlement.check_sign(-5, 2).is_ok());
}

#[test]
fn parse_trims_and_invalid_kind_carries_the_trimmed_text() {
    assert_eq!(Kind::parse("  fee\n"), Some(Kind::Fee));
    match Kind::parse_addable(" Deposit ") {
        Err(LedgerError::InvalidKind(t)) => assert_eq!(t, "Deposit"),
        other => panic!("unexpected {other:?}"),
    }
}

#[test]
fn invalid_sign_names_kind_rule_and_formatted_amount() {
    match Kind::Fee.check_sign(250, 2) {
        Err(LedgerError::InvalidSign { kind, expected, amount }) => {
            assert_eq!(kind, "fee");
            assert_eq!(expected, "negative");
            assert_eq!(amount, "2.50");
        }
        other => panic!("unexpected {other:?}"),
    }
}
