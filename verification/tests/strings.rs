use tiny_json_parser::{key, parse, string, ErrorKind, Val};

fn text(source: &[u8]) -> Result<(Vec<u8>, usize), ErrorKind> {
    let mut p = parse(source);
    match p.parse_string() {
        Ok(s) => Ok((s.as_bytes().to_vec(), p.offset())),
        Err(e) => Err(e.kind()),
    }
}

#[test]
fn plain_strings() {
    assert_eq!(text(b"\"\""), Ok((b"".to_vec(), 2)));
    assert_eq!(text(b"\"test\""), Ok((b"test".to_vec(), 6)));
    assert_eq!(text(b"\"a b\" rest"), Ok((b"a b".to_vec(), 5)));
    assert_eq!(text(b"\"[{,:}]\""), Ok((b"[{,:}]".to_vec(), 8)));
    // 127 is no control character here
    assert_eq!(text(b"\"\x7f\""), Ok((b"\x7f".to_vec(), 3)));
}

#[test]
fn escapes_are_checked_and_left_as_they_stand() {
    assert_eq!(text(br#""\"""#), Ok((br#"\""#.to_vec(), 4)));
    assert_eq!(text(br#""\\""#), Ok((br#"\\"#.to_vec(), 4)));
    assert_eq!(text(br#""\/\b\f\n\r\t""#), Ok((br#"\/\b\f\n\r\t"#.to_vec(), 14)));
    assert_eq!(text(br#""\u00e9""#), Ok((br#"\u00e9"#.to_vec(), 8)));
    assert_eq!(text(br#""\uABCD\uabcd\u0129""#), Ok((br#"\uABCD\uabcd\u0129"#.to_vec(), 20)));
    // a lone surrogate is a well-formed escape
    assert_eq!(text(br#""\uD800""#), Ok((br#"\uD800"#.to_vec(), 8)));
    // an escaped quote does not end the string
    assert_eq!(text(br#""a\"b" x"#), Ok((br#"a\"b"#.to_vec(), 6)));
}

#[test]
fn invalid_escapes() {
    assert_eq!(text(br#""\a""#), Err(ErrorKind::InvalidEscape));
    assert_eq!(text(br#""\x41""#), Err(ErrorKind::InvalidEscape));
    assert_eq!(text(br#""\U0041""#), Err(ErrorKind::InvalidEscape));
    assert_eq!(text(br#""\u12g4""#), Err(ErrorKind::InvalidEscape));
    assert_eq!(text(br#""\u123""#), Err(ErrorKind::InvalidEscape));
    assert_eq!(text(br#""\u""#), Err(ErrorKind::InvalidEscape));
    assert_eq!(text(b"\"\\ \""), Err(ErrorKind::InvalidEscape));
}

#[test]
fn control_characters() {
    assert_eq!(text(b"\"a\nb\""), Err(ErrorKind::ControlCharacterInString));
    assert_eq!(text(b"\"\t\""), Err(ErrorKind::ControlCharacterInString));
    assert_eq!(text(b"\"\x00\""), Err(ErrorKind::ControlCharacterInString));
    assert_eq!(text(b"\"\x1f\""), Err(ErrorKind::ControlCharacterInString));
    assert_eq!(text(b"\" \""), Ok((b" ".to_vec(), 3)));
}

#[test]
fn unterminated_strings() {
    assert_eq!(text(b"\""), Err(ErrorKind::UnterminatedString));
    assert_eq!(text(b"\"abc"), Err(ErrorKind::UnterminatedString));
    assert_eq!(text(b"\"abc\\"), Err(ErrorKind::UnterminatedString));
    assert_eq!(text(b"\"abc\\\""), Err(ErrorKind::UnterminatedString));
    assert_eq!(text(b"\"\\u"), Err(ErrorKind::UnterminatedString));
    assert_eq!(text(b"\"\\u12"), Err(ErrorKind::UnterminatedString));
    assert_eq!(text(b"\"\\u1234"), Err(ErrorKind::UnterminatedString));
}

#[test]
fn a_string_starts_with_a_quote() {
    assert_eq!(text(b""), Err(ErrorKind::EndOfInput));
    assert_eq!(text(b"abc"), Err(ErrorKind::UnexpectedToken));
    assert_eq!(text(b" \"a\""), Err(ErrorKind::UnexpectedToken));
}

#[test]
fn the_first_violation_decides() {
    // the control character comes before the bad escape
    assert_eq!(text(b"\"\x01\\q\""), Err(ErrorKind::ControlCharacterInString));
    // the bad escape comes before the control character
    assert_eq!(text(b"\"\\q\x01\""), Err(ErrorKind::InvalidEscape));
    // bytes that are no UTF-8 are found only when the string has ended
    assert_eq!(text(b"\"\xff\x01\""), Err(ErrorKind::ControlCharacterInString));
    assert_eq!(text(b"\"\xff"), Err(ErrorKind::UnterminatedString));
}

#[test]
fn utf8_is_validated() {
    assert_eq!(text("\"é\"".as_bytes()), Ok(("é".as_bytes().to_vec(), 4)));
    assert_eq!(text("\"日本語\"".as_bytes()), Ok(("日本語".as_bytes().to_vec(), 11)));
    assert_eq!(text("\"😀\"".as_bytes()), Ok(("😀".as_bytes().to_vec(), 6)));
    assert_eq!(text(b"\"\xff\""), Err(ErrorKind::InvalidUtf8));
    assert_eq!(text(b"\"\x80\""), Err(ErrorKind::InvalidUtf8));
    // truncated two-byte sequence
    assert_eq!(text(b"\"\xc3\""), Err(ErrorKind::InvalidUtf8));
    // overlong encoding of '/'
    assert_eq!(text(b"\"\xc0\xaf\""), Err(ErrorKind::InvalidUtf8));
    // an encoded surrogate
    assert_eq!(text(b"\"\xed\xa0\x80\""), Err(ErrorKind::InvalidUtf8));
    // beyond U+10FFFF
    assert_eq!(text(b"\"\xf4\x90\x80\x80\""), Err(ErrorKind::InvalidUtf8));
}

#[test]
fn string_text_is_the_source_text_between_the_quotes() {
    let source = "  \"a\\n\\u00e9 é\"  ".as_bytes();
    let mut p = parse(source);
    match p.value().unwrap() {
        Val::String(s) => {
            assert_eq!(s.as_bytes(), &source[3..source.len() - 3]);
            assert_eq!(s.as_str(), "a\\n\\u00e9 é");
            assert_eq!(s.as_str().as_bytes(), s.as_bytes());
        }
        _ => panic!(),
    }
    assert_eq!(p.offset(), source.len() - 2);
}

#[test]
fn value_reads_a_string() {
    let mut p = parse(b"\"test\"");
    match p.value().unwrap() {
        Val::String(s) => assert_eq!(s.as_str(), "test"),
        _ => panic!(),
    }
    assert_eq!(p.finalize(), Ok(()));
}

#[test]
fn made_strings_and_keys_hold_their_text() {
    assert_eq!(string("abc").as_str(), "abc");
    assert_eq!(string("abc").as_bytes(), b"abc");
    assert_eq!(string("é").as_bytes(), "é".as_bytes());
    assert_eq!(string("a"), string("a"));
    assert_ne!(string("a"), string("b"));
    assert_eq!(key("a"), key("a"));
    assert_ne!(key("a"), key("b"));
}

#[test]
fn keys_are_ordered_by_their_text() {
    assert!(key("a") < key("b"));
    assert!(key("a") < key("ab"));
    assert!(key("B") < key("a"));
    assert!(key("") < key("a"));
    assert!(key("b") > key("a"));
    let mut keys = vec![key("c"), key("a"), key("b")];
    keys.sort();
    assert_eq!(keys, vec![key("a"), key("b"), key("c")]);
}
