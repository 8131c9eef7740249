//! Texts and digests, held against what the standard library and the hash say.
use faktor::digest::{
    decode_digest_hex, digest_bytes, hex, normalize_digest, same_digest, FileHash, StreamHash,
};
use faktor::error::PathText;
use faktor::text::{
    char_width, chars_of, decimal_text, is_control, is_whitespace, parse_unsigned, push_one,
    split_lines, str_len, string_of, trimmed,
};

#[test]
fn characters_are_classified_as_by_std() {
    for c in '\0'..=char::MAX {
        assert_eq!(is_whitespace(c), c.is_whitespace(), "{c:?}");
        assert_eq!(is_control(c), c.is_control(), "{c:?}");
        assert_eq!(char_width(c), c.len_utf8(), "{c:?}");
    }
}

#[test]
fn texts_are_cut_as_by_std() {
    for s in ["", "a", " a b \n", "one\ntwo\r\n\nthree", "é😀\u{3000}", "\n", "\r\n", "a\r"] {
        let chars = chars_of(s);
        assert_eq!(string_of(&chars), s);
        assert_eq!(str_len(s), s.len());
        assert_eq!(string_of(trimmed(&chars)), s.trim());
        let lines: Vec<String> = split_lines(&chars).iter().map(|l| string_of(l)).collect();
        assert_eq!(lines, s.lines().map(str::to_string).collect::<Vec<_>>(), "{s:?}");
    }
    let mut out = String::from("a");
    push_one(&mut out, 'é');
    assert_eq!(out, "aé");
}

#[test]
fn numbers_are_written_and_read_as_by_std() {
    for n in [0, 1, 9, 10, 12345, u64::MAX] {
        assert_eq!(decimal_text(n), n.to_string());
    }
    for s in ["0", "+7", "007", "", "+", "-1", " 1", "1 ", "18446744073709551615", "18446744073709551616"] {
        assert_eq!(parse_unsigned(&chars_of(s), u64::MAX), s.parse::<u64>().ok(), "{s:?}");
    }
    assert_eq!(parse_unsigned(&chars_of("300"), 255), None);
}

#[test]
fn paths_are_quoted_as_by_std() {
    for s in ["a b", "tab\t\"q\"", "é\u{7}\\"] {
        let p = PathText::of(s);
        assert_eq!(p.shown, s);
        assert_eq!(p.quoted, format!("{s:?}"));
    }
}

#[test]
fn digests_are_those_of_blake3() {
    for bytes in [&b""[..], b"a", b"the quick brown fox"] {
        let expected = blake3::hash(bytes);
        assert_eq!(&digest_bytes(bytes), expected.as_bytes());
        assert_eq!(FileHash::of(bytes).0, *expected.as_bytes());
        assert_eq!(hex(expected.as_bytes()), expected.to_hex().to_string());
        assert_eq!(decode_digest_hex(&expected.to_hex()), Ok(*expected.as_bytes()));
    }
    assert!(same_digest(&[1; 32], &[1; 32]));
    assert!(!same_digest(&[1; 32], &[2; 32]));
}

#[test]
fn streamed_digests_do_not_depend_on_the_pieces() {
    let bytes: Vec<u8> = (0..200_000u32).map(|i| (i % 251) as u8).collect();
    for piece in [1000, 1024, 65_536, 200_000] {
        let mut s = StreamHash::new();
        for part in bytes.chunks(piece) {
            s.push(part);
        }
        assert_eq!(s.count(), bytes.len() as u64);
        assert_eq!(s.finish().0, *blake3::hash(&bytes).as_bytes());
    }
    assert_eq!(StreamHash::new().finish(), FileHash::of(b""));
}

#[test]
fn digest_texts_are_folded_and_bounded() {
    let upper = "AB".repeat(32);
    assert_eq!(normalize_digest(&upper), Ok("ab".repeat(32)));
    for bad in ["", "zz", &"A".repeat(63), &"g".repeat(64), &"é".repeat(32)] {
        assert!(normalize_digest(bad).is_err(), "{bad:?}");
        assert!(decode_digest_hex(bad).is_err(), "{bad:?}");
    }
}
