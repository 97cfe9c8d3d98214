//! The cursor, the depth counter and the scanners built on them.

use vstd::prelude::*;
use vstd::slice::slice_subrange;
use crate::ascii::{
    BACKSLASH, CLOSE_BRACE, CLOSE_BRACKET, COMMA, CR, DIGIT_0, DIGIT_9, DOT, LF, LOWER_A,
    LOWER_B, LOWER_E, LOWER_F, LOWER_N, LOWER_R, LOWER_T, LOWER_U, MINUS, OPEN_BRACE,
    OPEN_BRACKET, PLUS, QUOTE, SLASH, SPACE, TAB, UPPER_A, UPPER_E, UPPER_F,
};
use crate::error::{Error, ErrorKind};
use crate::grammar::{
    digits1_end, digits_end, has_word, hex_fail, hex_run, is_digit, lemma_digits_end,
    lemma_hex_run, lemma_ws_end, number_end, number_fail, string_close, string_close_fail,
    string_token, string_token_fail, ws_end,
};
use crate::model::{
    element_slot, finalize_fail, finalize_spec, lemma_skip_step, lemma_skip_to, peek_spec,
    skip_fail, skip_to, slot_fail, value_at, value_fail, Slot, State,
};
use crate::span::{string, Number, String};
use crate::value::{handle_wf, Array, Object, Val};

verus! {

/// How many containers are open around the cursor.
#[derive(Debug, Clone, PartialEq, Eq)]
pub struct Nesting {
    depth: usize,
}

/// The input and the read position in it.
#[derive(Debug, Clone, PartialEq, Eq)]
pub struct Buffer<'buf> {
    offset: usize,
    buffer: &'buf [u8],
}

/// A pull parser over one byte buffer.
#[derive(Debug, Clone, PartialEq, Eq)]
pub struct Parser<'buf> {
    nesting: Nesting,
    json: Buffer<'buf>,
}

impl<'buf> View for Parser<'buf> {
    type V = State;

    closed spec fn view(&self) -> State {
        State {
            input: self.json.buffer@,
            offset: self.json.offset as int,
            depth: self.nesting.depth as int,
        }
    }
}

/// A parser at the start of `json`, with nothing open.
pub fn parse(json: &[u8]) -> (p: Parser<'_>)
    ensures
        p@ == (State { input: json@, offset: 0, depth: 0 }),
        p.wf(),
{
    Parser { nesting: Nesting { depth: 0 }, json: Buffer { offset: 0, buffer: json } }
}

impl<'buf> Parser<'buf> {
    /// The cursor lies within the input, and no more containers are open than
    /// bytes were read.
    pub open spec fn wf(&self) -> bool {
        self@.wf()
    }

    /// Enters a container.
    pub fn descend(&mut self)
        requires
            old(self)@.depth < usize::MAX,
        ensures
            final(self)@ == old(self)@.at(old(self)@.offset, old(self)@.depth + 1),
    {
        self.nesting.depth += 1;
    }

    /// Leaves a container.
    pub fn ascend(&mut self)
        requires
            old(self)@.depth > 0,
        ensures
            final(self)@ == old(self)@.at(old(self)@.offset, old(self)@.depth - 1),
    {
        self.nesting.depth -= 1;
    }

    /// The read position.
    pub fn offset(&self) -> (o: usize)
        ensures
            o == self@.offset,
    {
        self.json.offset
    }

    /// The number of containers that are open around the cursor.
    pub fn depth(&self) -> (d: usize)
        ensures
            d == self@.depth,
    {
        self.nesting.depth
    }

    /// The byte under the cursor. Looking never moves the cursor, so looking
    /// again gives the same answer.
    pub fn peek(&self) -> (r: Result<u8, Error>)
        ensures
            r == peek_spec(self@),
    {
        if self.json.offset < self.json.buffer.len() {
            Ok(self.json.buffer[self.json.offset])
        } else {
            Err(Error { kind: ErrorKind::EndOfInput })
        }
    }

    /// Moves the cursor one byte forward. After a successful [`Parser::peek`]
    /// this cannot fail.
    pub fn step(&mut self) -> (r: Result<(), Error>)
        ensures
            r is Ok <==> peek_spec(old(self)@) is Ok,
            r is Ok ==> final(self)@ == old(self)@.at(old(self)@.offset + 1, old(self)@.depth),
            r is Err ==> final(self)@ == old(self)@,
            r is Err ==> r == Err::<(), Error>(Error { kind: ErrorKind::EndOfInput }),
    {
        if self.json.offset >= self.json.buffer.len() {
            return Err(Error { kind: ErrorKind::EndOfInput });
        }
        self.json.offset += 1;
        Ok(())
    }

    /// Moves the cursor past any whitespace. Finding none is no error.
    pub fn skip_ws(&mut self)
        ensures
            final(self)@ == old(self)@.skip_ws(),
    {
        let ghost from = self@;
        while self.sees(SPACE) || self.sees(TAB) || self.sees(CR) || self.sees(LF)
            invariant
                self@.input == from.input,
                self@.depth == from.depth,
                ws_end(from.input, self@.offset) == ws_end(from.input, from.offset),
            decreases self@.input.len() - self@.offset,
        {
            let _ = self.step();
        }
    }

    /// Whether the byte under the cursor is `b`.
    pub(crate) fn sees(&self, b: u8) -> (r: bool)
        ensures
            r == self@.sees(b),
    {
        let next = self.peek();
        match next {
            Ok(found) => found == b,
            Err(_) => false,
        }
    }

    /// Whether the byte under the cursor is a digit.
    fn sees_digit(&self) -> (r: bool)
        ensures
            r == (!self@.at_end() && is_digit(self@.input[self@.offset])),
    {
        let next = self.peek();
        match next {
            Ok(found) => DIGIT_0 <= found && found <= DIGIT_9,
            Err(_) => false,
        }
    }

    /// Moves the cursor past any digits.
    fn skip_digits(&mut self)
        ensures
            final(self)@ == old(self)@.at(
                digits_end(old(self)@.input, old(self)@.offset),
                old(self)@.depth,
            ),
    {
        let ghost from = self@;
        while self.sees_digit()
            invariant
                self@.input == from.input,
                self@.depth == from.depth,
                digits_end(from.input, self@.offset) == digits_end(from.input, from.offset),
            decreases self@.input.len() - self@.offset,
        {
            let _ = self.step();
        }
    }

    /// Reads one digit and any digits after it.
    fn digits1(&mut self) -> (r: Result<(), Error>)
        ensures
            final(self)@.ahead_of(old(self)@),
            final(self)@.depth == old(self)@.depth,
            match digits1_end(old(self)@.input, old(self)@.offset) {
                Some(end) => r is Ok && final(self)@.offset == end && old(self)@.offset < end
                    <= old(self)@.input.len() && forall|k: int|
                    old(self)@.offset <= k < end ==> is_digit(#[trigger] old(self)@.input[k]),
                None => r matches Err(e) && e.kind == ErrorKind::InvalidNumber && final(self)@
                    == old(self)@,
            },
    {
        if !self.sees_digit() {
            return Err(Error { kind: ErrorKind::InvalidNumber });
        }
        self.step()?;
        proof {
            lemma_digits_end(self@.input, self@.offset);
        }
        self.skip_digits();
        Ok(())
    }

    /// Scans a number: an optional `-`; a single `0`, or a digit from 1 to 9
    /// and any digits; an optional `.` with one or more digits; an optional
    /// exponent with an optional sign and one or more digits. The number spans
    /// exactly the bytes read. Where a part is missing, the cursor is left
    /// where the missing digit should have been.
    pub fn parse_number(&mut self) -> (r: Result<Number<'buf>, Error>)
        ensures
            final(self)@.ahead_of(old(self)@),
            final(self)@.depth == old(self)@.depth,
            match number_end(old(self)@.input, old(self)@.offset) {
                Some(end) => r matches Ok(n) && n@ == old(self)@.input.subrange(
                    old(self)@.offset,
                    end,
                ) && final(self)@.offset == end,
                None => r matches Err(e) && e.kind == ErrorKind::InvalidNumber
                    && final(self)@.offset == number_fail(old(self)@.input, old(self)@.offset),
            },
    {
        let start = self.offset();
        if self.sees(MINUS) {
            self.step()?;
        }
        if self.sees(DIGIT_0) {
            self.step()?;
        } else {
            self.digits1()?;
        }
        if self.sees(DOT) {
            self.step()?;
            self.digits1()?;
        }
        if self.sees(LOWER_E) || self.sees(UPPER_E) {
            self.step()?;
            if self.sees(PLUS) || self.sees(MINUS) {
                self.step()?;
            }
            self.digits1()?;
        }
        Ok(Number::new(slice_subrange(self.json.buffer, start, self.json.offset)))
    }

    /// Reads the four hexadecimal digits of a `\u` escape.
    fn hex4(&mut self) -> (r: Result<(), Error>)
        ensures
            final(self)@.ahead_of(old(self)@),
            final(self)@.depth == old(self)@.depth,
            match hex_run(old(self)@.input, old(self)@.offset, 4) {
                None => r is Ok && final(self)@.offset == old(self)@.offset + 4,
                Some(kind) => r matches Err(e) && e.kind == kind && final(self)@.offset
                    == hex_fail(old(self)@.input, old(self)@.offset, 4),
            },
    {
        let ghost from = self@;
        let mut n: usize = 0;
        while n < 4
            invariant
                n <= 4,
                from == old(self)@,
                self@.input == from.input,
                self@.depth == from.depth,
                self@.offset == from.offset + n,
                n > 0 ==> self@.offset <= self@.input.len(),
                hex_run(from.input, from.offset, 4) == hex_run(
                    from.input,
                    self@.offset,
                    (4 - n) as nat,
                ),
                hex_fail(from.input, from.offset, 4) == hex_fail(
                    from.input,
                    self@.offset,
                    (4 - n) as nat,
                ),
            decreases 4 - n,
        {
            let next = self.peek();
            match next {
                Err(_) => {
                    return Err(Error { kind: ErrorKind::UnterminatedString });
                },
                Ok(b) => {
                    if (DIGIT_0 <= b && b <= DIGIT_9) || (UPPER_A <= b && b <= UPPER_F) || (LOWER_A
                        <= b && b <= LOWER_F) {
                        self.step()?;
                    } else {
                        return Err(Error { kind: ErrorKind::InvalidEscape });
                    }
                },
            }
            n += 1;
        }
        Ok(())
    }

    /// Scans a string. It starts with `"`; a `"` ends it; a backslash is
    /// followed by one of `" \ / b f n r t`, or by `u` and four hexadecimal
    /// digits; no raw byte is below 32; and the bytes between the quotes are
    /// UTF-8. The string is those bytes, with the escapes as they stand. On
    /// failure the cursor is left on the byte at fault, and behind the closing
    /// quote where the bytes are no UTF-8.
    pub fn parse_string(&mut self) -> (r: Result<String<'buf>, Error>)
        ensures
            final(self)@.ahead_of(old(self)@),
            final(self)@.depth == old(self)@.depth,
            match string_token(old(self)@.input, old(self)@.offset) {
                Ok(close) => r matches Ok(t) && t@ == old(self)@.input.subrange(
                    old(self)@.offset + 1,
                    close,
                ) && final(self)@.offset == close + 1,
                Err(kind) => r matches Err(e) && e.kind == kind && final(self)@.offset
                    == string_token_fail(old(self)@.input, old(self)@.offset),
            },
    {
        let ghost from = self@;
        let next = self.peek();
        match next {
            Err(e) => {
                return Err(e);
            },
            Ok(b) => {
                if b == QUOTE {
                    self.step()?;
                } else {
                    return Err(Error { kind: ErrorKind::UnexpectedToken });
                }
            },
        }
        let start = self.offset();
        loop
            invariant
                from == old(self)@,
                self@.input == from.input,
                self@.depth == from.depth,
                0 <= from.offset,
                start == from.offset + 1,
                start <= self@.offset <= self@.input.len(),
                from.input[from.offset] == QUOTE,
                string_close(from.input, start as int) == string_close(from.input, self@.offset),
                string_close_fail(from.input, start as int) == string_close_fail(
                    from.input,
                    self@.offset,
                ),
            decreases self@.input.len() - self@.offset,
        {
            let next = self.peek();
            match next {
                Err(_) => {
                    return Err(Error { kind: ErrorKind::UnterminatedString });
                },
                Ok(b) => {
                    if b == QUOTE {
                        let contents = slice_subrange(self.json.buffer, start, self.json.offset);
                        self.step()?;
                        return match core::str::from_utf8(contents) {
                            Ok(validated) => Ok(string(validated)),
                            Err(_) => Err(Error { kind: ErrorKind::InvalidUtf8 }),
                        };
                    } else if b == BACKSLASH {
                        self.step()?;
                        let next = self.peek();
                        match next {
                            Err(_) => {
                                return Err(Error { kind: ErrorKind::UnterminatedString });
                            },
                            Ok(c) => {
                                if c == QUOTE || c == BACKSLASH || c == SLASH || c == LOWER_B || c
                                    == LOWER_F || c == LOWER_N || c == LOWER_R || c == LOWER_T {
                                    self.step()?;
                                } else if c == LOWER_U {
                                    self.step()?;
                                    proof {
                                        lemma_hex_run(self@.input, self@.offset, 4);
                                    }
                                    self.hex4()?;
                                } else {
                                    return Err(Error { kind: ErrorKind::InvalidEscape });
                                }
                            },
                        }
                    } else if b < 32 {
                        return Err(Error { kind: ErrorKind::ControlCharacterInString });
                    } else {
                        self.step()?;
                    }
                },
            }
        }
    }

    /// Moves the cursor past `word` if the rest of the input starts with it,
    /// and fails without moving otherwise.
    pub fn parse_word(&mut self, word: &[u8]) -> (r: Result<(), Error>)
        ensures
            has_word(old(self)@.input, old(self)@.offset, word@) ==> r is Ok && final(self)@
                == old(self)@.at(old(self)@.offset + word@.len(), old(self)@.depth),
            !has_word(old(self)@.input, old(self)@.offset, word@) ==> final(self)@ == old(self)@,
            !has_word(old(self)@.input, old(self)@.offset, word@) ==> (r matches Err(e) && e.kind
                == ErrorKind::UnexpectedToken),
    {
        let ghost s = self@.input;
        let at = self.json.offset;
        let len = self.json.buffer.len();
        let n = word.len();
        if at > len || n > len - at {
            return Err(Error { kind: ErrorKind::UnexpectedToken });
        }
        let mut i: usize = 0;
        while i < n
            invariant
                i <= n,
                n == word@.len(),
                at + n <= len,
                len == s.len(),
                s == self@.input,
                s == self.json.buffer@,
                at == self@.offset,
                self@ == old(self)@,
                s.subrange(at as int, at + i) == word@.subrange(0, i as int),
            decreases n - i,
        {
            if self.json.buffer[at + i] != word[i] {
                proof {
                    if has_word(s, at as int, word@) {
                        assert(s.subrange(at as int, at + n)[i as int] == word@[i as int]);
                    }
                }
                return Err(Error { kind: ErrorKind::UnexpectedToken });
            }
            assert(s.subrange(at as int, at + i + 1) == s.subrange(at as int, at + i).push(
                s[at + i],
            ));
            assert(word@.subrange(0, i + 1) == word@.subrange(0, i as int).push(word@[i as int]));
            i += 1;
        }
        assert(word@.subrange(0, n as int) == word@);
        self.json.offset += n;
        Ok(())
    }

    /// Opens the array at the cursor: reads the `[` and enters it.
    pub fn parse_array<'a>(&'a mut self) -> (r: Result<Array<'a, 'buf>, Error>)
        requires
            old(self).wf(),
        ensures
            old(self)@.sees(OPEN_BRACKET) ==> {
                &&& r matches Ok(a)
                &&& a.start == old(self)@.offset + 1
                &&& a.depth == old(self)@.depth + 1
                &&& a.parser@ == old(self)@.at(old(self)@.offset + 1, old(self)@.depth + 1)
                &&& *final(self) == *final(a.parser)
            },
            !old(self)@.sees(OPEN_BRACKET) ==> {
                &&& r matches Err(e)
                &&& e.kind == if old(self)@.at_end() {
                    ErrorKind::EndOfInput
                } else {
                    ErrorKind::UnexpectedToken
                }
                &&& final(self)@ == old(self)@
            },
    {
        let next = self.peek();
        match next {
            Err(e) => Err(e),
            Ok(b) => {
                if b == OPEN_BRACKET {
                    self.step()?;
                    self.descend();
                    Ok(Array { start: self.json.offset, depth: self.nesting.depth, parser: self })
                } else {
                    Err(Error { kind: ErrorKind::UnexpectedToken })
                }
            },
        }
    }

    /// Opens the object at the cursor: reads the `{` and enters it.
    pub fn parse_object<'a>(&'a mut self) -> (r: Result<Object<'a, 'buf>, Error>)
        requires
            old(self).wf(),
        ensures
            old(self)@.sees(OPEN_BRACE) ==> {
                &&& r matches Ok(o)
                &&& o.start == old(self)@.offset + 1
                &&& o.depth == old(self)@.depth + 1
                &&& o.parser@ == old(self)@.at(old(self)@.offset + 1, old(self)@.depth + 1)
                &&& *final(self) == *final(o.parser)
            },
            !old(self)@.sees(OPEN_BRACE) ==> {
                &&& r matches Err(e)
                &&& e.kind == if old(self)@.at_end() {
                    ErrorKind::EndOfInput
                } else {
                    ErrorKind::UnexpectedToken
                }
                &&& final(self)@ == old(self)@
            },
    {
        let next = self.peek();
        match next {
            Err(e) => Err(e),
            Ok(b) => {
                if b == OPEN_BRACE {
                    self.step()?;
                    self.descend();
                    Ok(Object { start: self.json.offset, depth: self.nesting.depth, parser: self })
                } else {
                    Err(Error { kind: ErrorKind::UnexpectedToken })
                }
            },
        }
    }

    /// Skips ahead until no more than `depth` containers are open. Opening
    /// and closing delimiters are counted, strings are scanned whole so that
    /// a delimiter inside one does not count, and every other byte is passed
    /// over. On failure the cursor is left at the end of the input, or where
    /// the scan of a string stopped.
    pub fn ascend_to(&mut self, depth: usize) -> (r: Result<(), Error>)
        requires
            old(self).wf(),
        ensures
            final(self).wf(),
            final(self)@.ahead_of(old(self)@),
            match skip_to(old(self)@, depth as int) {
                Ok(reached) => r is Ok && final(self)@ == reached,
                Err(kind) => {
                    &&& r matches Err(e)
                    &&& e.kind == kind
                    &&& final(self)@ == skip_fail(old(self)@, depth as int)
                    &&& final(self)@.depth > depth
                },
            },
    {
        while depth < self.nesting.depth
            invariant
                self.wf(),
                self@.ahead_of(old(self)@),
                skip_to(self@, depth as int) == skip_to(old(self)@, depth as int),
                skip_fail(self@, depth as int) == skip_fail(old(self)@, depth as int),
            decreases self@.input.len() - self@.offset,
        {
            let next = self.peek();
            let b = match next {
                Ok(b) => b,
                Err(e) => {
                    return Err(e);
                },
            };
            proof {
                lemma_skip_step(self@);
                assert(self@.input.len() == self.json.buffer.len());
            }
            if b == CLOSE_BRACE || b == CLOSE_BRACKET {
                self.ascend();
                self.step()?;
            } else if b == OPEN_BRACE || b == OPEN_BRACKET {
                self.descend();
                self.step()?;
            } else if b == QUOTE {
                self.parse_string()?;
            } else {
                self.step()?;
            }
        }
        Ok(())
    }

    /// The part of a container's `next` that comes before an element: for a
    /// container that has ended nothing; for a new one the look for its
    /// closing delimiter; otherwise the skip over what is left of the previous
    /// element, and the separator. Returns whether an element follows.
    pub(crate) fn next_slot(&mut self, start: usize, depth: usize, close: u8) -> (r: Result<
        bool,
        Error,
    >)
        requires
            handle_wf(start as int, depth as int, old(self)@),
        ensures
            final(self)@.ahead_of(old(self)@),
            handle_wf(start as int, depth as int, final(self)@),
            match element_slot(old(self)@, start as int, depth as int, close) {
                Ok(Slot::Element(at)) => {
                    &&& r == Ok::<bool, Error>(true)
                    &&& final(self)@ == at
                    &&& at.depth == depth
                    &&& at.skip_ws() == at
                },
                Ok(Slot::Closed(after)) => {
                    &&& r == Ok::<bool, Error>(false)
                    &&& final(self)@ == after
                    &&& after.depth < depth
                },
                Err(kind) => {
                    &&& r matches Err(e)
                    &&& e.kind == kind
                    &&& final(self)@ == slot_fail(old(self)@, start as int, depth as int)
                },
            },
    {
        if self.depth() < depth {
            return Ok(false);
        }
        proof {
            lemma_ws_end(self@.input, self@.offset);
            lemma_skip_to(self@, depth as int);
        }
        if self.offset() == start {
            self.skip_ws();
            let next = self.peek();
            let b = match next {
                Ok(b) => b,
                Err(e) => {
                    return Err(e);
                },
            };
            if b == close {
                self.step()?;
                self.ascend();
                return Ok(false);
            }
        } else {
            self.ascend_to(depth)?;
            proof {
                lemma_ws_end(self@.input, self@.offset);
            }
            self.skip_ws();
            let next = self.peek();
            let b = match next {
                Ok(b) => b,
                Err(e) => {
                    return Err(e);
                },
            };
            if b == COMMA {
                self.step()?;
                proof {
                    lemma_ws_end(self@.input, self@.offset);
                }
                self.skip_ws();
            } else if b == close {
                self.step()?;
                self.ascend();
                return Ok(false);
            } else {
                return Err(Error { kind: ErrorKind::ExpectedCommaOrCloseBracket });
            }
        }
        Ok(true)
    }

    /// The value at the cursor, after any whitespace. Where no value starts
    /// there, nothing but the whitespace is read.
    pub fn value<'a>(&'a mut self) -> (r: Result<Val<'a, 'buf>, Error>)
        requires
            old(self).wf(),
        ensures
            match value_at(old(self)@.skip_ws()) {
                Ok((token, after)) => {
                    &&& r matches Ok(v)
                    &&& v.token() == token
                    &&& v.opened_in(after)
                    &&& v.wf()
                    &&& (v matches Val::Array(a) ==> *final(self) == *final(a.parser))
                    &&& (v matches Val::Object(o) ==> *final(self) == *final(o.parser))
                    &&& (!v.is_handle() ==> final(self)@ == after)
                },
                Err(kind) => {
                    &&& r matches Err(e)
                    &&& e.kind == kind
                    &&& final(self)@ == value_fail(old(self)@.skip_ws())
                    &&& (kind == ErrorKind::EndOfInput || kind == ErrorKind::UnexpectedToken)
                        ==> final(self)@ == old(self)@.skip_ws()
                    &&& final(self)@.ahead_of(old(self)@)
                    &&& final(self)@.depth == old(self)@.depth
                },
            },
    {
        Val::from(self)
    }

    /// Ends the parse: skips what is still open, then whitespace, and
    /// succeeds if the input ends there. On failure the cursor is left where
    /// the skip failed, or on the first byte of the trailing data.
    pub fn finalize(&mut self) -> (r: Result<(), Error>)
        requires
            old(self).wf(),
        ensures
            final(self).wf(),
            final(self)@.ahead_of(old(self)@),
            match finalize_spec(old(self)@) {
                Ok(end) => r is Ok && final(self)@ == end,
                Err(kind) => r matches Err(e) && e.kind == kind && final(self)@ == finalize_fail(
                    old(self)@,
                ),
            },
    {
        self.ascend_to(0)?;
        proof {
            lemma_ws_end(self@.input, self@.offset);
        }
        self.skip_ws();
        if self.offset() != self.json.buffer.len() {
            return Err(Error { kind: ErrorKind::TrailingData });
        }
        Ok(())
    }
}

} // verus!
