use tiny_json_parser::{parse, ErrorKind};

#[test]
fn parse_starts_at_the_beginning_with_nothing_open() {
    let p = parse(b"[1]");
    assert_eq!(p.offset(), 0);
    assert_eq!(p.depth(), 0);
}

#[test]
fn peek_does_not_move_the_cursor() {
    let p = parse(b"null");
    assert_eq!(p.peek(), Ok(b'n'));
    assert_eq!(p.peek(), Ok(b'n'));
    assert_eq!(p.peek(), Ok(b'n'));
    assert_eq!(p.offset(), 0);
    assert_eq!(p.depth(), 0);
}

#[test]
fn peek_at_the_end_fails_every_time() {
    let p = parse(b"");
    assert_eq!(p.peek().unwrap_err().kind(), ErrorKind::EndOfInput);
    assert_eq!(p.peek().unwrap_err().kind(), ErrorKind::EndOfInput);
    assert_eq!(p.offset(), 0);
}

#[test]
fn step_after_peek_succeeds() {
    let mut p = parse(b"ab");
    assert_eq!(p.peek(), Ok(b'a'));
    assert_eq!(p.step(), Ok(()));
    assert_eq!(p.offset(), 1);
    assert_eq!(p.peek(), Ok(b'b'));
    assert_eq!(p.step(), Ok(()));
    assert_eq!(p.offset(), 2);
}

#[test]
fn step_past_the_end_fails() {
    let mut p = parse(b"a");
    assert_eq!(p.step(), Ok(()));
    assert_eq!(p.step().unwrap_err().kind(), ErrorKind::EndOfInput);
    assert_eq!(p.peek().unwrap_err().kind(), ErrorKind::EndOfInput);
    assert_eq!(p.offset(), 1);
}

#[test]
fn descend_and_ascend_count_by_one() {
    let mut p = parse(b"");
    p.descend();
    p.descend();
    assert_eq!(p.depth(), 2);
    p.ascend();
    assert_eq!(p.depth(), 1);
    assert_eq!(p.offset(), 0);
}

#[test]
fn skip_ws_stops_at_the_first_other_byte() {
    let mut p = parse(b" \t\r\n x ");
    p.skip_ws();
    assert_eq!(p.offset(), 5);
    p.skip_ws();
    assert_eq!(p.offset(), 5);
}

#[test]
fn skip_ws_without_whitespace_is_no_error() {
    let mut p = parse(b"x");
    p.skip_ws();
    assert_eq!(p.offset(), 0);
    let mut q = parse(b"");
    q.skip_ws();
    assert_eq!(q.offset(), 0);
}

#[test]
fn skip_ws_leaves_other_blank_bytes() {
    // form feed and vertical tab are no JSON whitespace
    let mut p = parse(b"\x0c");
    p.skip_ws();
    assert_eq!(p.offset(), 0);
    let mut q = parse(b" \x0b");
    q.skip_ws();
    assert_eq!(q.offset(), 1);
}

#[test]
fn parse_word_consumes_a_matching_word() {
    let mut p = parse(b"nullx");
    assert_eq!(p.parse_word(b"null"), Ok(()));
    assert_eq!(p.offset(), 4);
}

#[test]
fn parse_word_consumes_nothing_on_a_mismatch() {
    let mut p = parse(b"nulx");
    assert_eq!(p.parse_word(b"null").unwrap_err().kind(), ErrorKind::UnexpectedToken);
    assert_eq!(p.offset(), 0);
    let mut q = parse(b"nul");
    assert_eq!(q.parse_word(b"null").unwrap_err().kind(), ErrorKind::UnexpectedToken);
    assert_eq!(q.offset(), 0);
}

#[test]
fn parse_word_with_the_empty_word_succeeds() {
    let mut p = parse(b"abc");
    assert_eq!(p.parse_word(b""), Ok(()));
    assert_eq!(p.offset(), 0);
}
