use headr::parse_positive_int;

#[test]
fn test_parse_positive_int() {
    // 12 is a valid positive integer
    let res = parse_positive_int("12");
    assert!(res.is_ok());
    assert_eq!(res.unwrap(), 12);

    // Any non-numeric string is error
    let res = parse_positive_int("E33or");
    assert!(res.is_err());
    assert_eq!(res.unwrap_err().to_string(), "E33or".to_string());

    // 0 is error
    let res = parse_positive_int("0");
    assert!(res.is_err());
    assert_eq!(res.unwrap_err().to_string(), "0".to_string());
}

#[test]
fn parse_accepts_positive_integers() {
    assert_eq!(parse_positive_int("1").unwrap(), 1);
    assert_eq!(parse_positive_int("10").unwrap(), 10);
    assert_eq!(parse_positive_int("007").unwrap(), 7);
    assert_eq!(parse_positive_int("+5").unwrap(), 5);
    assert_eq!(parse_positive_int("4294967296").unwrap(), 4294967296);
}

#[test]
fn parse_rejects_with_input_echoed() {
    let cases = [
        "", "-1", "abc", "1x", "+", "0", "000", "+0", " 1", "1 ", "1.5", "ten",
    ];
    for s in cases {
        let e = parse_positive_int(s).unwrap_err();
        assert_eq!(e, s);
    }
    // a value too large for the machine is rejected, echoed verbatim
    let e = parse_positive_int("999999999999999999999999").unwrap_err();
    assert_eq!(e, "999999999999999999999999");
}
