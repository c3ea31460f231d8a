use base65536::{decode, decode_buf, decode_slice, Error};

// Texts that a strict decode refuses.
const TXT: &[&str] = &[
    // line break
    "\u{9A68}\u{A36C}\n\u{556F}\u{12077}\u{A372}\u{1564}",
    // end of stream begins stream
    "\u{1564}\u{9A68}\u{A36C}",
    // end of stream mid stream
    "\u{9A68}\u{1564}\u{A36C}",
    // two ends of stream
    "\u{9A68}\u{1564}\u{1564}",
    // end of stream then junk
    "\u{9A68}\u{1564}junk",
    // junk on end
    "\u{9A68}\u{A36C}junk",
    // plain ASCII
    "abc",
    // end of stream earlier mid stream
    "\u{9A68}\u{1564}\u{A36C}\u{556F}\u{12077}",
    // a lone end-of-stream character between pairs
    "\u{9A68}\u{A36C}\u{1500}\u{556F}\u{12077}\u{A372}",
];

#[test]
fn bad_decode() {
    for enctx in TXT {
        assert!(decode(enctx, false).is_err());
    }
}

#[test]
fn bad_decode_buf() {
    for enctx in TXT {
        let mut buf = Vec::new();
        assert!(decode_buf(enctx, &mut buf, false).is_err());
    }
}

#[test]
fn bad_decode_slice() {
    for enctx in TXT {
        let mut buf = vec![0; enctx.len()].into_boxed_slice();
        assert!(decode_slice(enctx, &mut buf, false).is_err());
    }
}

#[test]
fn bad_errors_are_the_expected_kind() {
    let expected = [
        Error::InvalidCodePoint(2, '\n'),
        Error::InvalidLength,
        Error::InvalidLength,
        Error::InvalidLength,
        Error::InvalidCodePoint(2, 'j'),
        Error::InvalidCodePoint(2, 'j'),
        Error::InvalidCodePoint(0, 'a'),
        Error::InvalidLength,
        Error::InvalidLength,
    ];
    for (enctx, e) in TXT.iter().zip(expected.iter()) {
        assert_eq!(decode(enctx, false), Err(*e), "input {:?}", enctx);
    }
}
