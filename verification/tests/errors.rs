use tiny_json_parser::{parse, Error, ErrorKind, Val};

fn first_error(json: &[u8]) -> Option<ErrorKind> {
    fn drain(v: Val) -> Result<(), Error> {
        match v {
            Val::Array(mut a) => {
                while let Some(child) = a.next()? {
                    drain(child)?;
                }
            }
            Val::Object(mut o) => {
                while let Some((_, child)) = o.next()? {
                    drain(child)?;
                }
            }
            _ => {}
        }
        Ok(())
    }
    fn run(json: &[u8]) -> Result<(), Error> {
        let mut p = parse(json);
        drain(p.value()?)?;
        p.finalize()
    }
    run(json).err().map(|e| e.kind())
}

#[test]
fn end_of_input() {
    assert_eq!(first_error(b""), Some(ErrorKind::EndOfInput));
    assert_eq!(first_error(b"   "), Some(ErrorKind::EndOfInput));
    assert_eq!(first_error(b"["), Some(ErrorKind::EndOfInput));
    assert_eq!(first_error(b"[1"), Some(ErrorKind::EndOfInput));
    assert_eq!(first_error(b"[1, "), Some(ErrorKind::EndOfInput));
    assert_eq!(first_error(b"{"), Some(ErrorKind::EndOfInput));
    assert_eq!(first_error(b"{\"a\""), Some(ErrorKind::EndOfInput));
    assert_eq!(first_error(b"{\"a\":"), Some(ErrorKind::EndOfInput));
    assert_eq!(first_error(b"{\"a\":1"), Some(ErrorKind::EndOfInput));
    assert_eq!(first_error(b"{\"a\":1,"), Some(ErrorKind::EndOfInput));
}

#[test]
fn unexpected_token() {
    assert_eq!(first_error(b"x"), Some(ErrorKind::UnexpectedToken));
    assert_eq!(first_error(b"]"), Some(ErrorKind::UnexpectedToken));
    assert_eq!(first_error(b"}"), Some(ErrorKind::UnexpectedToken));
    assert_eq!(first_error(b","), Some(ErrorKind::UnexpectedToken));
    assert_eq!(first_error(b"nul"), Some(ErrorKind::UnexpectedToken));
    assert_eq!(first_error(b"nulL"), Some(ErrorKind::UnexpectedToken));
    assert_eq!(first_error(b"tru"), Some(ErrorKind::UnexpectedToken));
    assert_eq!(first_error(b"fals"), Some(ErrorKind::UnexpectedToken));
    assert_eq!(first_error(b"True"), Some(ErrorKind::UnexpectedToken));
    assert_eq!(first_error(b"[,1]"), Some(ErrorKind::UnexpectedToken));
    assert_eq!(first_error(b"[1,]"), Some(ErrorKind::UnexpectedToken));
    assert_eq!(first_error(b"[}"), Some(ErrorKind::UnexpectedToken));
    assert_eq!(first_error(b"{\"a\":}"), Some(ErrorKind::UnexpectedToken));
    assert_eq!(first_error(b"+1"), Some(ErrorKind::UnexpectedToken));
    assert_eq!(first_error(b".5"), Some(ErrorKind::UnexpectedToken));
    assert_eq!(first_error(b"\xef\xbb\xbfnull"), Some(ErrorKind::UnexpectedToken));
}

#[test]
fn invalid_number() {
    assert_eq!(first_error(b"-"), Some(ErrorKind::InvalidNumber));
    assert_eq!(first_error(b"-a"), Some(ErrorKind::InvalidNumber));
    assert_eq!(first_error(b"1."), Some(ErrorKind::InvalidNumber));
    assert_eq!(first_error(b"[1.]"), Some(ErrorKind::InvalidNumber));
    assert_eq!(first_error(b"1e"), Some(ErrorKind::InvalidNumber));
    assert_eq!(first_error(b"[1e+]"), Some(ErrorKind::InvalidNumber));
    assert_eq!(first_error(b"{\"a\": -.5}"), Some(ErrorKind::InvalidNumber));
}

#[test]
fn invalid_escape() {
    assert_eq!(first_error(br#""\q""#), Some(ErrorKind::InvalidEscape));
    assert_eq!(first_error(br#"["\u12x4"]"#), Some(ErrorKind::InvalidEscape));
    assert_eq!(first_error(br#"{"\x": 1}"#), Some(ErrorKind::InvalidEscape));
}

#[test]
fn control_character_in_string() {
    assert_eq!(first_error(b"\"a\tb\""), Some(ErrorKind::ControlCharacterInString));
    assert_eq!(first_error(b"[\"\n\"]"), Some(ErrorKind::ControlCharacterInString));
    assert_eq!(first_error(b"{\"\x00\": 1}"), Some(ErrorKind::ControlCharacterInString));
}

#[test]
fn unterminated_string() {
    assert_eq!(first_error(b"\"abc"), Some(ErrorKind::UnterminatedString));
    assert_eq!(first_error(b"[\"abc]"), Some(ErrorKind::UnterminatedString));
    assert_eq!(first_error(b"{\"abc"), Some(ErrorKind::UnterminatedString));
    assert_eq!(first_error(b"{\"a\": \"b\\"), Some(ErrorKind::UnterminatedString));
}

#[test]
fn invalid_utf8() {
    assert_eq!(first_error(b"\"\xff\""), Some(ErrorKind::InvalidUtf8));
    assert_eq!(first_error(b"[\"\xc3\"]"), Some(ErrorKind::InvalidUtf8));
    assert_eq!(first_error(b"{\"\xe2\x82\": 1}"), Some(ErrorKind::InvalidUtf8));
}

#[test]
fn expected_key() {
    assert_eq!(first_error(b"{1: 2}"), Some(ErrorKind::ExpectedKey));
    assert_eq!(first_error(b"{a: 2}"), Some(ErrorKind::ExpectedKey));
    assert_eq!(first_error(b"{,}"), Some(ErrorKind::ExpectedKey));
    assert_eq!(first_error(b"{\"a\": 1, }"), Some(ErrorKind::ExpectedKey));
    assert_eq!(first_error(b"{\"a\": 1, null: 2}"), Some(ErrorKind::ExpectedKey));
    assert_eq!(first_error(b"{]"), Some(ErrorKind::ExpectedKey));
}

#[test]
fn expected_colon() {
    assert_eq!(first_error(b"{\"a\" 1}"), Some(ErrorKind::ExpectedColon));
    assert_eq!(first_error(b"{\"a\"}"), Some(ErrorKind::ExpectedColon));
    assert_eq!(first_error(b"{\"a\", \"b\"}"), Some(ErrorKind::ExpectedColon));
    assert_eq!(first_error(b"{\"a\" = 1}"), Some(ErrorKind::ExpectedColon));
}

#[test]
fn expected_comma_or_close_bracket() {
    assert_eq!(first_error(b"[1 2]"), Some(ErrorKind::ExpectedCommaOrCloseBracket));
    assert_eq!(first_error(b"[1}"), Some(ErrorKind::ExpectedCommaOrCloseBracket));
    assert_eq!(first_error(b"[01]"), Some(ErrorKind::ExpectedCommaOrCloseBracket));
    assert_eq!(first_error(b"[nullx]"), Some(ErrorKind::ExpectedCommaOrCloseBracket));
    assert_eq!(first_error(b"[\"a\" \"b\"]"), Some(ErrorKind::ExpectedCommaOrCloseBracket));
    assert_eq!(first_error(b"{\"a\": 1 \"b\": 2}"), Some(ErrorKind::ExpectedCommaOrCloseBracket));
    assert_eq!(first_error(b"{\"a\": 1]"), Some(ErrorKind::ExpectedCommaOrCloseBracket));
    assert_eq!(first_error(b"[[1] [2]]"), Some(ErrorKind::ExpectedCommaOrCloseBracket));
}

#[test]
fn trailing_data() {
    assert_eq!(first_error(b"null null"), Some(ErrorKind::TrailingData));
    assert_eq!(first_error(b"[] []"), Some(ErrorKind::TrailingData));
    assert_eq!(first_error(b"[]]"), Some(ErrorKind::TrailingData));
    assert_eq!(first_error(b"{}}"), Some(ErrorKind::TrailingData));
    assert_eq!(first_error(b"1 2"), Some(ErrorKind::TrailingData));
    assert_eq!(first_error(b"01"), Some(ErrorKind::TrailingData));
    assert_eq!(first_error(b"\"a\" x"), Some(ErrorKind::TrailingData));
    assert_eq!(first_error(b"{\"a\": 1} trailing"), Some(ErrorKind::TrailingData));
}

#[test]
fn no_error() {
    assert_eq!(first_error(b"null"), None);
    assert_eq!(first_error(b" [ ] "), None);
    assert_eq!(first_error(b"{\"a\": [1, 2, {\"b\": null}], \"c\": \"d\"}"), None);
}

#[test]
fn parse_array_and_parse_object_want_their_delimiter() {
    let mut p = parse(b"{}");
    assert_eq!(p.parse_array().unwrap_err().kind(), ErrorKind::UnexpectedToken);
    assert_eq!(p.offset(), 0);
    assert_eq!(p.depth(), 0);
    let mut q = parse(b"[]");
    assert_eq!(q.parse_object().unwrap_err().kind(), ErrorKind::UnexpectedToken);
    assert_eq!(q.offset(), 0);
    let mut r = parse(b"");
    assert_eq!(r.parse_array().unwrap_err().kind(), ErrorKind::EndOfInput);
    assert_eq!(r.parse_object().unwrap_err().kind(), ErrorKind::EndOfInput);
}

#[test]
fn parse_array_and_parse_object_enter_the_container() {
    let mut p = parse(b"[1]");
    {
        let mut a = p.parse_array().unwrap();
        assert_eq!(a.start, 1);
        assert_eq!(a.depth, 1);
        assert!(a.next().unwrap().is_some());
        assert_eq!(a.next().unwrap(), None);
    }
    assert_eq!(p.offset(), 3);
    assert_eq!(p.depth(), 0);
    let mut q = parse(b"{}");
    {
        let o = q.parse_object().unwrap();
        assert_eq!(o.start, 1);
        assert_eq!(o.depth, 1);
    }
    assert_eq!(q.offset(), 1);
    assert_eq!(q.depth(), 1);
}

#[test]
fn errors_describe_themselves() {
    let e = Error { kind: ErrorKind::TrailingData };
    assert_eq!(e.kind(), ErrorKind::TrailingData);
    assert_eq!(e.message(), "trailing data after the document");
    assert_eq!(Error { kind: ErrorKind::EndOfInput }.message(), "unexpected end of input");
    assert_eq!(Error { kind: ErrorKind::UnexpectedToken }.message(), "unexpected token");
    assert_eq!(Error { kind: ErrorKind::InvalidNumber }.message(), "invalid number");
    assert_eq!(Error { kind: ErrorKind::InvalidEscape }.message(), "invalid escape sequence");
    assert_eq!(
        Error { kind: ErrorKind::ControlCharacterInString }.message(),
        "control character in string"
    );
    assert_eq!(Error { kind: ErrorKind::UnterminatedString }.message(), "unterminated string");
    assert_eq!(Error { kind: ErrorKind::InvalidUtf8 }.message(), "invalid UTF-8 in string");
    assert_eq!(Error { kind: ErrorKind::ExpectedKey }.message(), "expected an object key");
    assert_eq!(Error { kind: ErrorKind::ExpectedColon }.message(), "expected a colon");
    assert_eq!(
        Error { kind: ErrorKind::ExpectedCommaOrCloseBracket }.message(),
        "expected a comma or a closing delimiter"
    );
}
