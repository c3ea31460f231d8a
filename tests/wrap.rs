use base65536::{decode, encode, encode_buf, Error, WrapOptions};

const HELLO_TEXT: &str = "\u{9A68}\u{A36C}\u{556F}\u{12077}\u{A372}\u{1564}";

#[test]
fn wrap_every_code_point() {
    assert_eq!(encode(&[1, 2, 3], WrapOptions::WrapAt(1)), "\u{3601}\n\u{1503}");
    assert_eq!(encode(b"hello world", WrapOptions::WrapAt(3)), "\u{9A68}\u{A36C}\u{556F}\n\u{12077}\u{A372}\u{1564}");
}

#[test]
fn wrap_with_custom_line_ending() {
    assert_eq!(encode(&[1, 2, 3], WrapOptions::WrapAtWith(1, "\r\n")), "\u{3601}\r\n\u{1503}");
    assert_eq!(
        encode(b"hello world", WrapOptions::WrapAtWith(3, "\r\n")),
        "\u{9A68}\u{A36C}\u{556F}\r\n\u{12077}\u{A372}\u{1564}"
    );
}

#[test]
fn no_line_ending_after_the_last_line() {
    assert_eq!(encode(b"hello world", WrapOptions::WrapAt(6)), HELLO_TEXT);
    assert_eq!(encode(b"hello world", WrapOptions::WrapAt(100)), HELLO_TEXT);
    assert_eq!(encode(b"hello world", WrapOptions::WrapAt(2)), "\u{9A68}\u{A36C}\n\u{556F}\u{12077}\n\u{A372}\u{1564}");
}

#[test]
fn wrapped_lines_have_the_width() {
    let bytes: Vec<u8> = (0..1000u32).map(|i| (i * 13) as u8).collect();
    let text = encode(&bytes, WrapOptions::WrapAt(80));
    let lines: Vec<&str> = text.split('\n').collect();
    assert_eq!(lines.len(), 7);
    for line in &lines[..6] {
        assert_eq!(line.chars().count(), 80);
    }
    assert_eq!(lines[6].chars().count(), 20);
}

#[test]
fn wrapped_text_refused_when_strict_and_accepted_when_ignoring_garbage() {
    for columns in 1..8usize {
        let text = encode(b"hello world", WrapOptions::WrapAt(columns));
        if 6 > columns {
            assert_eq!(decode(&text, false), Err(Error::InvalidCodePoint(columns, '\n')));
        } else {
            assert_eq!(decode(&text, false).unwrap(), b"hello world");
        }
        assert_eq!(decode(&text, true).unwrap(), b"hello world");
    }
}

#[test]
fn wrap_encode_buf_appends() {
    let mut buf = String::from("x");
    encode_buf(&[1, 2, 3], &mut buf, WrapOptions::WrapAt(1));
    assert_eq!(buf, "x\u{3601}\n\u{1503}");
}
