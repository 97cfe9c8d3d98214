use tiny_json_parser::{parse, ErrorKind, Val};

fn number(text: &[u8]) -> Result<(Vec<u8>, usize), ErrorKind> {
    let mut p = parse(text);
    match p.parse_number() {
        Ok(n) => Ok((n.as_bytes().to_vec(), p.offset())),
        Err(e) => Err(e.kind()),
    }
}

#[test]
fn integers() {
    assert_eq!(number(b"0"), Ok((b"0".to_vec(), 1)));
    assert_eq!(number(b"7"), Ok((b"7".to_vec(), 1)));
    assert_eq!(number(b"1234567890"), Ok((b"1234567890".to_vec(), 10)));
    assert_eq!(number(b"-0"), Ok((b"-0".to_vec(), 2)));
    assert_eq!(number(b"-12"), Ok((b"-12".to_vec(), 3)));
}

#[test]
fn fractions_and_exponents() {
    assert_eq!(number(b"1.0"), Ok((b"1.0".to_vec(), 3)));
    assert_eq!(number(b"0.5"), Ok((b"0.5".to_vec(), 3)));
    assert_eq!(number(b"1.0e5"), Ok((b"1.0e5".to_vec(), 5)));
    assert_eq!(number(b"1E5"), Ok((b"1E5".to_vec(), 3)));
    assert_eq!(number(b"1e+5"), Ok((b"1e+5".to_vec(), 4)));
    assert_eq!(number(b"1e-5"), Ok((b"1e-5".to_vec(), 4)));
    assert_eq!(number(b"-1.25e-10"), Ok((b"-1.25e-10".to_vec(), 9)));
    assert_eq!(number(b"0e0"), Ok((b"0e0".to_vec(), 3)));
}

#[test]
fn a_number_ends_where_its_grammar_ends() {
    // a leading zero stands alone: the scan stops behind it
    assert_eq!(number(b"01"), Ok((b"0".to_vec(), 1)));
    assert_eq!(number(b"12,"), Ok((b"12".to_vec(), 2)));
    assert_eq!(number(b"1]"), Ok((b"1".to_vec(), 1)));
    assert_eq!(number(b"1 2"), Ok((b"1".to_vec(), 1)));
    assert_eq!(number(b"1.5.5"), Ok((b"1.5".to_vec(), 3)));
    assert_eq!(number(b"1e5e5"), Ok((b"1e5".to_vec(), 3)));
    assert_eq!(number(b"1-2"), Ok((b"1".to_vec(), 1)));
}

#[test]
fn a_missing_part_is_an_invalid_number() {
    assert_eq!(number(b""), Err(ErrorKind::InvalidNumber));
    assert_eq!(number(b"-"), Err(ErrorKind::InvalidNumber));
    assert_eq!(number(b"-x"), Err(ErrorKind::InvalidNumber));
    assert_eq!(number(b"+1"), Err(ErrorKind::InvalidNumber));
    assert_eq!(number(b".5"), Err(ErrorKind::InvalidNumber));
    assert_eq!(number(b"1."), Err(ErrorKind::InvalidNumber));
    assert_eq!(number(b"1.e5"), Err(ErrorKind::InvalidNumber));
    assert_eq!(number(b"1.x"), Err(ErrorKind::InvalidNumber));
    assert_eq!(number(b"1e"), Err(ErrorKind::InvalidNumber));
    assert_eq!(number(b"1e+"), Err(ErrorKind::InvalidNumber));
    assert_eq!(number(b"1e-"), Err(ErrorKind::InvalidNumber));
    assert_eq!(number(b"1ex"), Err(ErrorKind::InvalidNumber));
    assert_eq!(number(b"abc"), Err(ErrorKind::InvalidNumber));
}

#[test]
fn a_number_starts_at_the_cursor() {
    let mut p = parse(b"[42]");
    p.step().unwrap();
    let n = p.parse_number().unwrap();
    assert_eq!(n.as_bytes(), b"42");
    assert_eq!(n.as_str(), "42");
    assert_eq!(p.offset(), 3);
    assert_eq!(p.depth(), 0);
}

#[test]
fn number_text_is_the_source_text() {
    let source = b"  -12.5E+3  ";
    let mut p = parse(source);
    match p.value().unwrap() {
        Val::Number(n) => {
            assert_eq!(n.as_bytes(), &source[2..10]);
            assert_eq!(n.as_str(), "-12.5E+3");
            assert_eq!(n.as_str().as_bytes(), n.as_bytes());
        }
        _ => panic!(),
    }
    assert_eq!(p.offset(), 10);
}

#[test]
fn value_reads_a_number_span() {
    let mut p = parse(b"1.0e5");
    match p.value().unwrap() {
        Val::Number(n) => {
            assert_eq!(n.as_bytes(), b"1.0e5");
            assert_eq!(n.as_str(), "1.0e5");
        }
        _ => panic!(),
    }
    assert_eq!(p.finalize(), Ok(()));
}

#[test]
fn numbers_compare_by_their_text() {
    let mut p = parse(b"10");
    let mut q = parse(b"10");
    let mut r = parse(b"1e1");
    let a = p.parse_number().unwrap();
    let b = q.parse_number().unwrap();
    let c = r.parse_number().unwrap();
    assert_eq!(a, b);
    assert_ne!(a, c);
}
