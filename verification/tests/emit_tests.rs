use headr::emit::diagnostic_line;
use headr::emit::header_line;
use headr::render;
use headr::resolve;

#[test]
fn two_lines_of_a_five_line_source() {
    let cfg = resolve(vec!["a.txt".to_string()], Some("2".to_string()), None).unwrap();
    let outs = vec![Ok(b"l1\nl2\nl3\nl4\nl5\n".to_vec())];
    let r = render(&cfg, &outs);
    assert_eq!(r.output, b"l1\nl2\n".to_vec());
    assert!(r.diagnostics.is_empty());
    assert!(r.success);
}

#[test]
fn five_bytes_of_hello_world() {
    let cfg = resolve(vec!["a.txt".to_string()], None, Some("5".to_string())).unwrap();
    let outs = vec![Ok(b"hello world".to_vec())];
    let r = render(&cfg, &outs);
    assert_eq!(r.output, b"hello".to_vec());
    assert!(r.diagnostics.is_empty());
    assert!(r.success);
}

#[test]
fn two_sources_get_headers_and_a_separator() {
    let cfg = resolve(
        vec!["a.txt".to_string(), "b.txt".to_string()],
        None,
        None,
    )
    .unwrap();
    let outs = vec![Ok(b"a1\na2\na3\n".to_vec()), Ok(b"b1\nb2\nb3\n".to_vec())];
    let r = render(&cfg, &outs);
    let expected = b"==> a.txt <==\na1\na2\na3\n\n==> b.txt <==\nb1\nb2\nb3\n".to_vec();
    assert_eq!(r.output, expected);
    assert!(r.diagnostics.is_empty());
    assert!(r.success);
}

#[test]
fn a_missing_source_is_reported_and_isolated() {
    let cfg = resolve(
        vec!["missing.txt".to_string(), "a.txt".to_string()],
        None,
        None,
    )
    .unwrap();
    let outs = vec![
        Err("No such file or directory (os error 2)".to_string()),
        Ok(b"a1\na2\na3\n".to_vec()),
    ];
    let r = render(&cfg, &outs);
    assert_eq!(
        r.diagnostics,
        vec!["head: missing.txt: No such file or directory (os error 2)".to_string()]
    );
    assert_eq!(r.output, b"\n==> a.txt <==\na1\na2\na3\n".to_vec());
    assert!(!r.success);
}

#[test]
fn standard_input_default_takes_ten_lines() {
    let cfg = resolve(vec![], None, None).unwrap();
    assert_eq!(cfg.files, vec!["-".to_string()]);
    let mut content = String::new();
    for i in 1..=20 {
        content.push_str(&format!("line {}\n", i));
    }
    let outs = vec![Ok(content.into_bytes())];
    let r = render(&cfg, &outs);
    let mut expected = String::new();
    for i in 1..=10 {
        expected.push_str(&format!("line {}\n", i));
    }
    assert_eq!(r.output, expected.into_bytes());
    assert!(r.diagnostics.is_empty());
    assert!(r.success);
}

#[test]
fn a_single_source_gets_no_header() {
    let cfg = resolve(vec!["a.txt".to_string()], None, None).unwrap();
    let outs = vec![Ok(b"x\n".to_vec())];
    let r = render(&cfg, &outs);
    assert_eq!(r.output, b"x\n".to_vec());
}

#[test]
fn byte_mode_passes_raw_bytes_through() {
    let cfg = resolve(vec!["a".to_string()], None, Some("3".to_string())).unwrap();
    let outs = vec![Ok(vec![0xff, 0xfe, 0x00, 0x41])];
    let r = render(&cfg, &outs);
    assert_eq!(r.output, vec![0xff, 0xfe, 0x00]);
}

#[test]
fn all_sources_failing_leaves_output_empty() {
    let cfg = resolve(vec!["x".to_string(), "y".to_string()], None, None).unwrap();
    let outs = vec![Err("gone".to_string()), Err("gone too".to_string())];
    let r = render(&cfg, &outs);
    assert!(r.output.is_empty());
    assert_eq!(
        r.diagnostics,
        vec![
            "head: x: gone".to_string(),
            "head: y: gone too".to_string(),
        ]
    );
    assert!(!r.success);
}

#[test]
fn formatting_helpers_match_the_fixed_forms() {
    assert_eq!(header_line("a.txt"), "==> a.txt <==");
    assert_eq!(diagnostic_line("a.txt", "denied"), "head: a.txt: denied");
}
