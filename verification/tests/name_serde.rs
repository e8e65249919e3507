use dnsl::error::Error;
use dnsl::utils::name_serde::{de_name, de_name_at, join_dotted, name_byte_len, ser_name};

#[test]
fn ser_name_writes_length_prefixed_labels() {
    assert_eq!(
        ser_name("www.example.com"),
        vec![3, b'w', b'w', b'w', 7, b'e', b'x', b'a', b'm', b'p', b'l', b'e', 3, b'c', b'o', b'm']
    );
}

#[test]
fn ser_name_of_empty_name_is_one_empty_label() {
    assert_eq!(ser_name(""), vec![0]);
}

#[test]
fn ser_name_keeps_empty_labels() {
    assert_eq!(ser_name("a..b."), vec![1, b'a', 0, 1, b'b', 0]);
}

#[test]
fn ser_name_cuts_long_label_length_to_a_byte() {
    let label = "x".repeat(300);
    let bytes = ser_name(&label);
    assert_eq!(bytes.len(), 301);
    assert_eq!(bytes[0], (300 % 256) as u8);
}

#[test]
fn ser_name_utf8_label_counts_bytes() {
    assert_eq!(ser_name("é.a"), vec![2, 0xc3, 0xa9, 1, b'a']);
}

#[test]
fn de_name_joins_labels() {
    let buf = [3, b'w', b'w', b'w', 2, b'm', b'e', 0, 0xff];
    assert_eq!(de_name(&buf).unwrap(), "www.me");
}

#[test]
fn de_name_at_reports_end() {
    let buf = [9, 9, 1, b'a', 0, 7];
    let (name, end) = de_name_at(&buf, 2).unwrap();
    assert_eq!(name, "a");
    assert_eq!(end, 5);
}

#[test]
fn de_name_root_is_empty() {
    assert_eq!(de_name(&[0]).unwrap(), "");
}

#[test]
fn de_name_empty_buffer_is_eof() {
    assert_eq!(de_name(&[]), Err(Error::UnexpectedEof));
}

#[test]
fn de_name_truncated_label_is_eof() {
    assert_eq!(de_name(&[3, b'a', b'b']), Err(Error::UnexpectedEof));
}

#[test]
fn de_name_missing_terminator_is_eof() {
    assert_eq!(de_name(&[1, b'a']), Err(Error::UnexpectedEof));
}

#[test]
fn de_name_invalid_utf8_label() {
    assert_eq!(de_name(&[1, 0xff, 0]), Err(Error::Utf8));
}

#[test]
fn de_name_utf8_error_comes_before_later_eof() {
    assert_eq!(de_name(&[1, 0xff, 5, b'a']), Err(Error::Utf8));
}

#[test]
fn name_round_trip() {
    for name in ["example.com", "a", "www.xn--bcher-kva.ch", "é.ü.com", ""] {
        let mut wire = ser_name(name);
        wire.push(0);
        assert_eq!(de_name(&wire).unwrap(), name);
    }
}

#[test]
fn name_byte_len_counts_terminator() {
    assert_eq!(name_byte_len(&[3, b'a', b'b', b'c', 0, 9, 9]), 5);
    assert_eq!(name_byte_len(&[0]), 1);
}

#[test]
fn join_dotted_joins() {
    let parts = vec!["a".to_string(), "b".to_string(), "c".to_string()];
    assert_eq!(join_dotted(&parts), "a.b.c");
    assert_eq!(join_dotted(&vec![]), "");
}
