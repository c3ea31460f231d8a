use base65536::{decode, decode_buf, decode_slice};

const BIN: &[&[u8]] = &[
    &[1, 2, 3],
    b"hello world",
    b"hello world",
    b"hello world",
    b"hello world",
    b"hello world",
    b"hello world",
    b"hello world",
    b"hello world",
];

const TXT: &[&str] = &[
    // letters between the code points
    "\u{3601}abc\u{1503}",
    // a combining mark after the end
    "\u{9A68}\u{A36C}\u{556F}\u{12077}\u{A372}\u{1564}\u{0301}",
    // a line break
    "\u{9A68}\u{A36C}\u{556F}\n\u{12077}\u{A372}\u{1564}",
    // line breaks
    "\u{9A68}\n\u{A36C}\r\n\u{556F}\n\u{12077}\n\u{A372}\n\u{1564}\n",
    // quoted
    "\"\u{9A68}\u{A36C}\u{556F}\u{12077}\u{A372}\u{1564}\"",
    // random alphanumeric interference
    "x7\u{9A68}q\u{A36C}0Z\u{556F}\u{12077}k\u{A372}9\u{1564}w",
    // space after
    "\u{9A68}\u{A36C}\u{556F}\u{12077}\u{A372}\u{1564} ",
    // space before
    " \u{9A68}\u{A36C}\u{556F}\u{12077}\u{A372}\u{1564}",
    // spaces everywhere
    " \u{9A68} \u{A36C} \u{556F} \u{12077} \u{A372} \u{1564} ",
];

#[test]
fn ignore_garbage_sanity() {
    assert_eq!(BIN.len(), TXT.len());
}

#[test]
fn ignore_garbage_decode() {
    for i in 0..TXT.len() {
        let input = TXT[i];
        let expected = BIN[i];

        assert_eq!(decode(input, true).unwrap(), expected, "Failed at i = {}", i);
    }
}

#[test]
fn ignore_garbage_decode_buf() {
    for i in 0..TXT.len() {
        let input = TXT[i];
        let expected = BIN[i];

        let mut buf = Vec::new();
        decode_buf(input, &mut buf, true).unwrap();
        assert_eq!(buf, expected, "Failed at i = {}", i);
    }
}

#[test]
fn ignore_garbage_decode_slice() {
    for i in 0..TXT.len() {
        let input = TXT[i];
        let expected = BIN[i];

        let mut buf = vec![0; expected.len()].into_boxed_slice();
        decode_slice(input, &mut buf, true).unwrap();
        assert_eq!(&*buf, expected, "Failed at i = {}", i);
    }
}

#[test]
fn ignore_garbage_texts_are_refused_when_strict() {
    for i in 0..TXT.len() {
        assert!(decode(TXT[i], false).is_err(), "Failed at i = {}", i);
    }
}
