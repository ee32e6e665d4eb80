use agent_ledger::time::{normalize, now};

#[test]
fn normalizes_offset_to_utc_millis() {
    assert_eq!(
        normalize("2026-09-06T12:00:00+09:00").unwrap(),
        "2026-09-06T03:00:00.000Z"
    );
}

#[test]
fn accepts_date_only_as_utc_midnight() {
    assert_eq!(
        normalize(" 2026-09-01 ").unwrap(),
        "2026-09-01T00:00:00.000Z"
    );
}

#[test]
fn keeps_millis() {
    assert_eq!(
        normalize("2026-09-06T03:12:45.117Z").unwrap(),
        "2026-09-06T03:12:45.117Z"
    );
}

#[test]
fn time_rejects_garbage() {
    assert!(normalize("yesterday").is_none());
    assert!(normalize("2026-13-01").is_none());
}

#[test]
fn now_is_storage_format() {
    let n = now();
    assert_eq!(n.len(), 24);
    assert!(n.ends_with('Z'));
    assert_eq!(normalize(&n).unwrap(), n);
}
