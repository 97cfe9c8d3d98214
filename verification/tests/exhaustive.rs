use tiny_json_parser::validate;

// A recursive-descent recognizer written for these tests alone, to hold
// `validate` against on every short input over a small alphabet.
struct Reference<'a> {
    s: &'a [u8],
    i: usize,
}

impl<'a> Reference<'a> {
    fn peek(&self) -> Option<u8> {
        self.s.get(self.i).copied()
    }

    fn ws(&mut self) {
        while let Some(b' ' | b'\t' | b'\r' | b'\n') = self.peek() {
            self.i += 1;
        }
    }

    fn digits(&mut self) -> bool {
        let from = self.i;
        while let Some(b'0'..=b'9') = self.peek() {
            self.i += 1;
        }
        self.i > from
    }

    fn number(&mut self) -> bool {
        if self.peek() == Some(b'-') {
            self.i += 1;
        }
        match self.peek() {
            Some(b'0') => self.i += 1,
            Some(b'1'..=b'9') => {
                self.digits();
            }
            _ => return false,
        }
        if self.peek() == Some(b'.') {
            self.i += 1;
            if !self.digits() {
                return false;
            }
        }
        if let Some(b'e' | b'E') = self.peek() {
            self.i += 1;
            if let Some(b'+' | b'-') = self.peek() {
                self.i += 1;
            }
            if !self.digits() {
                return false;
            }
        }
        true
    }

    fn string(&mut self) -> bool {
        if self.peek() != Some(b'"') {
            return false;
        }
        self.i += 1;
        let from = self.i;
        loop {
            match self.peek() {
                None => return false,
                Some(b'"') => {
                    let ok = std::str::from_utf8(&self.s[from..self.i]).is_ok();
                    self.i += 1;
                    return ok;
                }
                Some(b'\\') => {
                    self.i += 1;
                    match self.peek() {
                        Some(b'"' | b'\\' | b'/' | b'b' | b'f' | b'n' | b'r' | b't') => {
                            self.i += 1
                        }
                        Some(b'u') => {
                            self.i += 1;
                            for _ in 0..4 {
                                match self.peek() {
                                    Some(h) if h.is_ascii_hexdigit() => self.i += 1,
                                    _ => return false,
                                }
                            }
                        }
                        _ => return false,
                    }
                }
                Some(c) if c < 32 => return false,
                Some(_) => self.i += 1,
            }
        }
    }

    fn word(&mut self, w: &[u8]) -> bool {
        if self.s[self.i..].starts_with(w) {
            self.i += w.len();
            true
        } else {
            false
        }
    }

    fn value(&mut self) -> bool {
        match self.peek() {
            Some(b'n') => self.word(b"null"),
            Some(b't') => self.word(b"true"),
            Some(b'f') => self.word(b"false"),
            Some(b'-' | b'0'..=b'9') => self.number(),
            Some(b'"') => self.string(),
            Some(b'[') => {
                self.i += 1;
                self.ws();
                if self.peek() == Some(b']') {
                    self.i += 1;
                    return true;
                }
                loop {
                    self.ws();
                    if !self.value() {
                        return false;
                    }
                    self.ws();
                    match self.peek() {
                        Some(b',') => self.i += 1,
                        Some(b']') => {
                            self.i += 1;
                            return true;
                        }
                        _ => return false,
                    }
                }
            }
            Some(b'{') => {
                self.i += 1;
                self.ws();
                if self.peek() == Some(b'}') {
                    self.i += 1;
                    return true;
                }
                loop {
                    self.ws();
                    if !self.string() {
                        return false;
                    }
                    self.ws();
                    if self.peek() != Some(b':') {
                        return false;
                    }
                    self.i += 1;
                    self.ws();
                    if !self.value() {
                        return false;
                    }
                    self.ws();
                    match self.peek() {
                        Some(b',') => self.i += 1,
                        Some(b'}') => {
                            self.i += 1;
                            return true;
                        }
                        _ => return false,
                    }
                }
            }
            _ => false,
        }
    }

    fn text(s: &[u8]) -> bool {
        let mut r = Reference { s, i: 0 };
        r.ws();
        if !r.value() {
            return false;
        }
        r.ws();
        r.i == s.len()
    }
}

fn every_input(alphabet: &[u8], max_len: usize, check: &mut dyn FnMut(&[u8])) {
    let mut buf: Vec<u8> = Vec::new();
    fn go(alphabet: &[u8], left: usize, buf: &mut Vec<u8>, check: &mut dyn FnMut(&[u8])) {
        check(buf);
        if left == 0 {
            return;
        }
        for &b in alphabet {
            buf.push(b);
            go(alphabet, left - 1, buf, check);
            buf.pop();
        }
    }
    go(alphabet, max_len, &mut buf, check);
}

#[test]
fn structure_up_to_six_bytes() {
    let mut accepted = 0;
    let mut seen = 0;
    every_input(b"[]{},:\"1 ", 6, &mut |s| {
        seen += 1;
        let expected = Reference::text(s);
        if expected {
            accepted += 1;
        }
        assert_eq!(validate(s).is_ok(), expected, "{:?}", String::from_utf8_lossy(s));
    });
    assert_eq!(seen, 597_871);
    assert!(accepted > 100);
}

#[test]
fn numbers_up_to_six_bytes() {
    every_input(b"0127-+.eE", 6, &mut |s| {
        assert_eq!(validate(s).is_ok(), Reference::text(s), "{:?}", String::from_utf8_lossy(s));
    });
}

#[test]
fn strings_up_to_five_bytes() {
    every_input(b"\"\\u0fnx\x1f\xc3\xa9\x80", 5, &mut |s| {
        assert_eq!(validate(s).is_ok(), Reference::text(s), "{:?}", s);
    });
}

#[test]
fn words_up_to_five_bytes() {
    every_input(b"nultrefas ,[]", 5, &mut |s| {
        assert_eq!(validate(s).is_ok(), Reference::text(s), "{:?}", String::from_utf8_lossy(s));
    });
}
