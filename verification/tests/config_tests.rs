use headr::resolve;
use headr::HeadError;

#[test]
fn both_counts_always_conflict() {
    let r = resolve(
        vec!["a.txt".to_string()],
        Some("3".to_string()),
        Some("5".to_string()),
    );
    assert!(matches!(r, Err(HeadError::UsageConflict)));

    // the conflict wins regardless of the values, even invalid ones
    let r = resolve(vec![], Some("x".to_string()), Some("-2".to_string()));
    assert!(matches!(r, Err(HeadError::UsageConflict)));

    let r = resolve(vec![], Some("0".to_string()), Some("10".to_string()));
    assert!(matches!(r, Err(HeadError::UsageConflict)));
}

#[test]
fn defaults_apply_when_nothing_is_given() {
    let c = resolve(vec![], None, None).unwrap();
    assert_eq!(c.files, vec!["-".to_string()]);
    assert_eq!(c.lines, 10);
    assert!(c.bytes.is_none());
}

#[test]
fn line_count_is_parsed() {
    let c = resolve(vec!["a".to_string()], Some("3".to_string()), None).unwrap();
    assert_eq!(c.files, vec!["a".to_string()]);
    assert_eq!(c.lines, 3);
    assert!(c.bytes.is_none());
}

#[test]
fn byte_count_is_parsed_and_line_default_kept() {
    let c = resolve(vec!["a".to_string()], None, Some("12".to_string())).unwrap();
    assert_eq!(c.bytes, Some(12));
    assert_eq!(c.lines, 10);
}

#[test]
fn illegal_line_count_echoes_literal() {
    let e = resolve(vec!["a".to_string()], Some("foo".to_string()), None).unwrap_err();
    match &e {
        HeadError::IllegalLineCount(lit) => assert_eq!(lit, "foo"),
        _ => panic!("expected an illegal line count"),
    }
    assert_eq!(e.message(), "illegal line count -- foo");
}

#[test]
fn illegal_byte_count_echoes_literal() {
    let e = resolve(vec!["a".to_string()], None, Some("0".to_string())).unwrap_err();
    match &e {
        HeadError::IllegalByteCount(lit) => assert_eq!(lit, "0"),
        _ => panic!("expected an illegal byte count"),
    }
    assert_eq!(e.message(), "illegal byte count -- 0");
}

#[test]
fn conflict_has_a_message() {
    assert_eq!(
        HeadError::UsageConflict.message(),
        "the line and byte count options cannot be used together"
    );
}
