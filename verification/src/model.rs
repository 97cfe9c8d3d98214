//! The traversal, as functions on the parser's mathematical state.
//!
//! Every operation of the parser is a function from the state before it to
//! the state after it and what it returns. The contracts of the executable
//! functions are stated over the functions defined here.

use vstd::prelude::*;
use crate::ascii::{
    CLOSE_BRACE, CLOSE_BRACKET, COLON, COMMA, LOWER_A, LOWER_E, LOWER_F, LOWER_L, LOWER_N,
    LOWER_R, LOWER_S, LOWER_T, LOWER_U, MINUS, OPEN_BRACE, OPEN_BRACKET, QUOTE,
};
use crate::error::{Error, ErrorKind};
use crate::grammar::{
    has_word, is_close, is_digit, is_open, lemma_number_end, lemma_string_token,
    lemma_string_token_kinds, number_end, number_fail, string_token, string_token_fail, ws_end,
};

verus! {

/// The mathematical state of a parser: the input, the read position and the
/// number of containers open around it.
pub struct State {
    pub input: Seq<u8>,
    pub offset: int,
    pub depth: int,
}

impl State {
    /// The same input with the cursor elsewhere.
    pub open spec fn at(self, offset: int, depth: int) -> State {
        State { input: self.input, offset, depth }
    }

    /// The same input, with the cursor where it was in `old` or further on,
    /// and not past the end.
    pub open spec fn ahead_of(self, old: State) -> bool {
        &&& self.input == old.input
        &&& old.offset <= self.offset
        &&& (self.offset <= self.input.len() || self.offset == old.offset)
    }

    /// The cursor lies within the input, and no more containers are open than
    /// bytes were read.
    pub open spec fn wf(self) -> bool {
        0 <= self.depth <= self.offset <= self.input.len()
    }

    /// The state after any whitespace at the cursor.
    pub open spec fn skip_ws(self) -> State {
        self.at(ws_end(self.input, self.offset), self.depth)
    }

    /// Whether the cursor is on the byte `b`.
    pub open spec fn sees(self, b: u8) -> bool {
        0 <= self.offset < self.input.len() && self.input[self.offset] == b
    }

    /// Whether the input has ended at the cursor.
    pub open spec fn at_end(self) -> bool {
        !(0 <= self.offset < self.input.len())
    }
}

/// What a value is, apart from where it lies: a scalar with its contents, or
/// the opening of a container.
pub enum Token {
    Null,
    Boolean(bool),
    String(Seq<u8>),
    Number(Seq<u8>),
    Array,
    Object,
}

/// What looking at the cursor gives in state `s`.
pub open spec fn peek_spec(s: State) -> Result<u8, Error> {
    if s.at_end() {
        Err(Error { kind: ErrorKind::EndOfInput })
    } else {
        Ok(s.input[s.offset])
    }
}

/// The word `null`.
pub open spec fn null_word() -> Seq<u8> {
    seq![LOWER_N, LOWER_U, LOWER_L, LOWER_L]
}

/// The word `true`.
pub open spec fn true_word() -> Seq<u8> {
    seq![LOWER_T, LOWER_R, LOWER_U, LOWER_E]
}

/// The word `false`.
pub open spec fn false_word() -> Seq<u8> {
    seq![LOWER_F, LOWER_A, LOWER_L, LOWER_S, LOWER_E]
}

/// Reading the word that the cursor's first byte announces.
pub open spec fn word_at(st: State, word: Seq<u8>, token: Token) -> Result<
    (Token, State),
    ErrorKind,
> {
    if has_word(st.input, st.offset, word) {
        Ok((token, st.at(st.offset + word.len(), st.depth)))
    } else {
        Err(ErrorKind::UnexpectedToken)
    }
}

/// The value that starts at the cursor, and the state after it was read. The
/// first byte decides what is expected. A scalar is read whole; of a container
/// only the opening delimiter is read, and the depth grows by one.
pub open spec fn value_at(st: State) -> Result<(Token, State), ErrorKind> {
    let s = st.input;
    let o = st.offset;
    if st.at_end() {
        Err(ErrorKind::EndOfInput)
    } else if s[o] == LOWER_N {
        word_at(st, null_word(), Token::Null)
    } else if s[o] == LOWER_F {
        word_at(st, false_word(), Token::Boolean(false))
    } else if s[o] == LOWER_T {
        word_at(st, true_word(), Token::Boolean(true))
    } else if s[o] == MINUS || is_digit(s[o]) {
        match number_end(s, o) {
            Some(end) => Ok((Token::Number(s.subrange(o, end)), st.at(end, st.depth))),
            None => Err(ErrorKind::InvalidNumber),
        }
    } else if s[o] == QUOTE {
        match string_token(s, o) {
            Ok(close) => Ok((Token::String(s.subrange(o + 1, close)), st.at(close + 1, st.depth))),
            Err(kind) => Err(kind),
        }
    } else if s[o] == OPEN_BRACE {
        Ok((Token::Object, st.at(o + 1, st.depth + 1)))
    } else if s[o] == OPEN_BRACKET {
        Ok((Token::Array, st.at(o + 1, st.depth + 1)))
    } else {
        Err(ErrorKind::UnexpectedToken)
    }
}

/// The state in which reading the value at the cursor leaves the parser
/// when it fails: where the scan of the number or of the string stopped, and
/// otherwise the state it began in, with nothing read.
pub open spec fn value_fail(st: State) -> State {
    let s = st.input;
    let o = st.offset;
    if st.at_end() {
        st
    } else if s[o] == MINUS || is_digit(s[o]) {
        st.at(number_fail(s, o), st.depth)
    } else if s[o] == QUOTE {
        st.at(string_token_fail(s, o), st.depth)
    } else {
        st
    }
}

/// Reading a value fails for want of input, or for a byte or a word that
/// is no value, only with nothing read.
pub proof fn lemma_value_fail(st: State)
    ensures
        value_at(st) matches Err(kind) ==> (kind == ErrorKind::EndOfInput || kind
            == ErrorKind::UnexpectedToken) ==> value_fail(st) == st,
{
    if !st.at_end() && st.input[st.offset] == QUOTE {
        lemma_string_token_kinds(st.input, st.offset);
    }
}

impl Token {
    /// Whether the token opens an array or an object.
    pub open spec fn opens(self) -> bool {
        self is Array || self is Object
    }
}

/// Reading a value moves the cursor forward within the input. A scalar
/// leaves the depth as it was; a container raises it by one.
pub proof fn lemma_value_at(st: State)
    requires
        0 <= st.offset,
    ensures
        value_at(st) matches Ok((token, after)) ==> after.input == st.input && st.offset
            < after.offset <= st.input.len() && after.depth == if token.opens() {
            st.depth + 1
        } else {
            st.depth
        },
{
    lemma_number_end(st.input, st.offset);
    lemma_string_token(st.input, st.offset);
}

/// One step of skipping: a closing delimiter lowers the depth, an opening one
/// raises it, a string is crossed whole, any other byte is passed over.
pub open spec fn skip_step(st: State) -> Result<State, ErrorKind> {
    let s = st.input;
    let o = st.offset;
    if st.at_end() {
        Err(ErrorKind::EndOfInput)
    } else if is_close(s[o]) {
        Ok(st.at(o + 1, st.depth - 1))
    } else if is_open(s[o]) {
        Ok(st.at(o + 1, st.depth + 1))
    } else if s[o] == QUOTE {
        match string_token(s, o) {
            Ok(close) => Ok(st.at(close + 1, st.depth)),
            Err(kind) => Err(kind),
        }
    } else {
        Ok(st.at(o + 1, st.depth))
    }
}

/// Skipping ahead until the depth is `target` or less: the state reached, or
/// the first error.
pub open spec fn skip_to(st: State, target: int) -> Result<State, ErrorKind>
    decreases st.input.len() - st.offset,
{
    if st.depth <= target {
        Ok(st)
    } else {
        match skip_step(st) {
            Err(kind) => Err(kind),
            Ok(next) => {
                proof {
                    lemma_skip_step(st);
                }
                skip_to(next, target)
            },
        }
    }
}

/// The state in which skipping ahead leaves the parser when it fails: at
/// the end of the input, or where the scan of a string stopped.
pub open spec fn skip_fail(st: State, target: int) -> State
    decreases st.input.len() - st.offset,
{
    if st.depth <= target {
        st
    } else {
        match skip_step(st) {
            Ok(next) => {
                proof {
                    lemma_skip_step(st);
                }
                skip_fail(next, target)
            },
            Err(_) => if st.sees(QUOTE) {
                st.at(string_token_fail(st.input, st.offset), st.depth)
            } else {
                st
            },
        }
    }
}

/// A step of skipping moves the cursor forward, within the input, and
/// changes the depth by one at most.
pub proof fn lemma_skip_step(st: State)
    ensures
        skip_step(st) matches Ok(next) ==> next.input == st.input && st.offset < next.offset
            <= st.input.len() && st.depth - 1 <= next.depth <= st.depth + 1,
{
    if !st.at_end() && st.input[st.offset] == QUOTE {
        lemma_string_token(st.input, st.offset);
    }
}

/// Skipping stays within the input and ends at the target depth, or where
/// it started if the depth was no more than that.
pub proof fn lemma_skip_to(st: State, target: int)
    requires
        st.offset <= st.input.len(),
    ensures
        skip_to(st, target) matches Ok(reached) ==> reached.ahead_of(st) && reached.offset
            <= st.input.len() && if st.depth <= target {
            reached == st
        } else {
            reached.depth == target && st.offset < reached.offset
        },
    decreases st.input.len() - st.offset,
{
    if st.depth > target {
        lemma_skip_step(st);
        if let Ok(next) = skip_step(st) {
            lemma_skip_to(next, target);
        }
    }
}

/// Where a container's traversal stands before an element is read.
pub enum Slot {
    /// The container has ended: the closing delimiter was read, now or
    /// before. The state is the one after it.
    Closed(State),
    /// An element starts at the cursor of this state.
    Element(State),
}

/// What a container's `next` does before it reads an element. Where the
/// depth is less than `depth`, the container has ended before, and nothing
/// is read. With the cursor still at `start`, the container is new:
/// whitespace is skipped, and either the closing delimiter follows or the
/// first element does. Otherwise what is left of the previous element is
/// skipped until the depth is `depth`; then, after whitespace, a comma
/// announces the next element and the closing delimiter ends the container.
pub open spec fn element_slot(st: State, start: int, depth: int, close: u8) -> Result<
    Slot,
    ErrorKind,
> {
    if st.depth < depth {
        Ok(Slot::Closed(st))
    } else if st.offset == start {
        let w = st.skip_ws();
        if w.at_end() {
            Err(ErrorKind::EndOfInput)
        } else if w.sees(close) {
            Ok(Slot::Closed(w.at(w.offset + 1, w.depth - 1)))
        } else {
            Ok(Slot::Element(w))
        }
    } else {
        match skip_to(st, depth) {
            Err(kind) => Err(kind),
            Ok(k) => {
                let w = k.skip_ws();
                if w.at_end() {
                    Err(ErrorKind::EndOfInput)
                } else if w.sees(COMMA) {
                    Ok(Slot::Element(w.at(w.offset + 1, w.depth).skip_ws()))
                } else if w.sees(close) {
                    Ok(Slot::Closed(w.at(w.offset + 1, w.depth - 1)))
                } else {
                    Err(ErrorKind::ExpectedCommaOrCloseBracket)
                }
            },
        }
    }
}

/// The state in which what comes before an element leaves the parser when
/// it fails: where the skip failed, or behind the whitespace where neither a
/// comma nor the closing delimiter follows.
pub open spec fn slot_fail(st: State, start: int, depth: int) -> State {
    if st.depth < depth {
        st
    } else if st.offset == start {
        st.skip_ws()
    } else {
        match skip_to(st, depth) {
            Err(_) => skip_fail(st, depth),
            Ok(k) => k.skip_ws(),
        }
    }
}

/// What an array's `next` yields.
pub enum Pull {
    /// The array has ended.
    End(State),
    /// The next element.
    Element(Token, State),
}

/// An array's `next`, for the array that was opened at `start` with its
/// elements at `depth`.
pub open spec fn array_next(st: State, start: int, depth: int) -> Result<Pull, ErrorKind> {
    match element_slot(st, start, depth, CLOSE_BRACKET) {
        Err(kind) => Err(kind),
        Ok(Slot::Closed(after)) => Ok(Pull::End(after)),
        Ok(Slot::Element(at)) => match value_at(at) {
            Err(kind) => Err(kind),
            Ok((token, after)) => Ok(Pull::Element(token, after)),
        },
    }
}

/// The state in which an array's `next` leaves the parser when it fails.
pub open spec fn array_next_fail(st: State, start: int, depth: int) -> State {
    match element_slot(st, start, depth, CLOSE_BRACKET) {
        Ok(Slot::Element(at)) => value_fail(at),
        _ => slot_fail(st, start, depth),
    }
}

/// What an object's `next` yields.
pub enum PullMember {
    /// The object has ended.
    End(State),
    /// The next member: its key and its value.
    Member(Seq<u8>, Token, State),
}

/// The key at the cursor and the state after its colon and the whitespace
/// that follows.
pub open spec fn key_at(st: State) -> Result<(Seq<u8>, State), ErrorKind> {
    if st.at_end() {
        Err(ErrorKind::EndOfInput)
    } else if !st.sees(QUOTE) {
        Err(ErrorKind::ExpectedKey)
    } else {
        match string_token(st.input, st.offset) {
            Err(kind) => Err(kind),
            Ok(close) => {
                let w = st.at(close + 1, st.depth).skip_ws();
                if w.at_end() {
                    Err(ErrorKind::EndOfInput)
                } else if !w.sees(COLON) {
                    Err(ErrorKind::ExpectedColon)
                } else {
                    Ok(
                        (
                            st.input.subrange(st.offset + 1, close),
                            w.at(w.offset + 1, w.depth).skip_ws(),
                        ),
                    )
                }
            },
        }
    }
}

/// The state in which reading a key and its colon leaves the parser when
/// it fails: at the byte that starts no key, where the scan of the key
/// stopped, or behind the key and the whitespace where no colon follows.
pub open spec fn key_fail(st: State) -> State {
    if st.at_end() || !st.sees(QUOTE) {
        st
    } else {
        match string_token(st.input, st.offset) {
            Err(_) => st.at(string_token_fail(st.input, st.offset), st.depth),
            Ok(close) => st.at(close + 1, st.depth).skip_ws(),
        }
    }
}

/// The state in which an object's `next` leaves the parser when it fails.
pub open spec fn object_next_fail(st: State, start: int, depth: int) -> State {
    match element_slot(st, start, depth, CLOSE_BRACE) {
        Ok(Slot::Element(at)) => match key_at(at) {
            Ok((_, colon)) => value_fail(colon),
            Err(_) => key_fail(at),
        },
        _ => slot_fail(st, start, depth),
    }
}

/// An object's `next`, for the object that was opened at `start` with its
/// members at `depth`.
pub open spec fn object_next(st: State, start: int, depth: int) -> Result<PullMember, ErrorKind> {
    match element_slot(st, start, depth, CLOSE_BRACE) {
        Err(kind) => Err(kind),
        Ok(Slot::Closed(after)) => Ok(PullMember::End(after)),
        Ok(Slot::Element(at)) => match key_at(at) {
            Err(kind) => Err(kind),
            Ok((key, colon)) => match value_at(colon) {
                Err(kind) => Err(kind),
                Ok((token, after)) => Ok(PullMember::Member(key, token, after)),
            },
        },
    }
}

/// Ending the parse: what is still open is skipped, then whitespace, and the
/// input must end there.
pub open spec fn finalize_spec(st: State) -> Result<State, ErrorKind> {
    match skip_to(st, 0) {
        Err(kind) => Err(kind),
        Ok(k) => if k.skip_ws().offset == st.input.len() {
            Ok(k.skip_ws())
        } else {
            Err(ErrorKind::TrailingData)
        },
    }
}

/// The state in which ending the parse leaves the parser when it fails:
/// where the skip failed, or behind the whitespace where the input goes on.
pub open spec fn finalize_fail(st: State) -> State {
    match skip_to(st, 0) {
        Err(_) => skip_fail(st, 0),
        Ok(k) => k.skip_ws(),
    }
}

} // verus!
