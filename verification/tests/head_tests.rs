use headr::head_bytes;
use headr::head_lines;

#[test]
fn head_bytes_takes_a_prefix() {
    let data = b"hello world".to_vec();
    assert_eq!(head_bytes(&data, 5), b"hello".to_vec());
    assert_eq!(head_bytes(&data, 0), Vec::<u8>::new());
    assert_eq!(head_bytes(&data, 11), data);
    assert_eq!(head_bytes(&data, 100), data);
    assert_eq!(head_bytes(&Vec::new(), 4), Vec::<u8>::new());
}

#[test]
fn head_lines_keeps_terminators() {
    let data = b"one\ntwo\nthree\n".to_vec();
    assert_eq!(head_lines(&data, 1), b"one\n".to_vec());
    assert_eq!(head_lines(&data, 2), b"one\ntwo\n".to_vec());
    assert_eq!(head_lines(&data, 3), data);
    assert_eq!(head_lines(&data, 9), data);
    assert_eq!(head_lines(&data, 0), Vec::<u8>::new());
}

#[test]
fn final_unterminated_run_counts_as_a_record() {
    let data = b"a\nb".to_vec();
    assert_eq!(head_lines(&data, 1), b"a\n".to_vec());
    assert_eq!(head_lines(&data, 2), b"a\nb".to_vec());
    assert_eq!(head_lines(&data, 3), b"a\nb".to_vec());
}

#[test]
fn empty_lines_are_records_too() {
    let data = b"\n\nx\n".to_vec();
    assert_eq!(head_lines(&data, 1), b"\n".to_vec());
    assert_eq!(head_lines(&data, 2), b"\n\n".to_vec());
    assert_eq!(head_lines(&data, 3), data);
}
