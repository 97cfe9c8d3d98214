//! Values, and the handles through which arrays and objects are traversed.

use vstd::prelude::*;
use crate::ascii::{
    CLOSE_BRACE, CLOSE_BRACKET, COLON, DIGIT_0, DIGIT_9, LOWER_A, LOWER_E, LOWER_F, LOWER_L,
    LOWER_N, LOWER_R, LOWER_S, LOWER_T, LOWER_U, MINUS, OPEN_BRACE, OPEN_BRACKET, QUOTE,
};
use crate::error::{Error, ErrorKind};
use crate::grammar::{lemma_string_token, lemma_ws_end};
use crate::model::{
    array_next, array_next_fail, false_word, lemma_value_at, lemma_value_fail, null_word,
    object_next, object_next_fail, true_word, value_at, value_fail, Pull, PullMember, State,
    Token,
};
use crate::parser::Parser;
use crate::span::{key, Key, Number, String};

verus! {

/// An array under traversal. It borrows the parser for as long as it lives,
/// so that nothing else can move the cursor meanwhile.
#[derive(Debug, PartialEq, Eq)]
pub struct Array<'a, 'buf> {
    /// The offset just behind the opening bracket.
    pub start: usize,
    /// The depth at which the elements lie.
    pub depth: usize,
    /// The parser that is traversed.
    pub parser: &'a mut Parser<'buf>,
}

/// An object under traversal. It borrows the parser for as long as it lives,
/// so that nothing else can move the cursor meanwhile.
#[derive(Debug, PartialEq, Eq)]
pub struct Object<'a, 'buf> {
    /// The offset just behind the opening brace.
    pub start: usize,
    /// The depth at which the members lie.
    pub depth: usize,
    /// The parser that is traversed.
    pub parser: &'a mut Parser<'buf>,
}

/// A JSON value. A scalar is complete; an array or an object is a handle from
/// which the children are pulled one by one.
#[derive(Debug, PartialEq, Eq)]
pub enum Val<'pstate, 'buf> {
    Null,
    Boolean(bool),
    String(String<'buf>),
    Number(Number<'buf>),
    Array(Array<'pstate, 'buf>),
    Object(Object<'pstate, 'buf>),
}

/// Whether a handle with the given fields may be used: the parser is well
/// formed, the container was entered, the cursor is not before its start,
/// and nothing was read yet if it is still at `start`.
pub open spec fn handle_wf(start: int, depth: int, st: State) -> bool {
    &&& st.wf()
    &&& 1 <= depth
    &&& start <= st.offset
    &&& (st.offset == start ==> st.depth == depth)
}

/// Whether the container of a handle with the given fields has not ended:
/// the handle may be used, and the cursor has not left the container.
pub open spec fn handle_open(start: int, depth: int, st: State) -> bool {
    handle_wf(start, depth, st) && depth <= st.depth
}

impl<'pstate, 'buf> Val<'pstate, 'buf> {
    /// What this value is, apart from where it lies.
    pub open spec fn token(&self) -> Token {
        match self {
            Val::Null => Token::Null,
            Val::Boolean(b) => Token::Boolean(*b),
            Val::String(s) => Token::String(s@),
            Val::Number(n) => Token::Number(n@),
            Val::Array(_) => Token::Array,
            Val::Object(_) => Token::Object,
        }
    }

    /// A handle is usable; a scalar always is.
    pub open spec fn wf(&self) -> bool {
        match self {
            Val::Array(a) => a.wf(),
            Val::Object(o) => o.wf(),
            _ => true,
        }
    }

    /// Whether this value is a handle.
    pub open spec fn is_handle(&self) -> bool {
        self is Array || self is Object
    }

    /// For a handle: it was opened in state `st`, which its parser is in.
    pub open spec fn opened_in(&self, st: State) -> bool {
        match self {
            Val::Array(a) => a.start == st.offset && a.depth == st.depth && a.parser@ == st,
            Val::Object(o) => o.start == st.offset && o.depth == st.depth && o.parser@ == st,
            _ => true,
        }
    }

    /// Reads the value at the cursor, after any whitespace. The first byte
    /// behind the whitespace decides: `n`, `f` and `t` announce the words
    /// `null`, `false` and `true`; `-` or a digit a number; `"` a string; `{`
    /// and `[` a container, of which only the opening delimiter is read.
    /// Where the input ends there, or the byte or the word is no value,
    /// nothing but the whitespace is read.
    pub fn from(parser: &'pstate mut Parser<'buf>) -> (r: Result<Val<'pstate, 'buf>, Error>)
        requires
            old(parser).wf(),
        ensures
            match value_at(old(parser)@.skip_ws()) {
                Ok((token, after)) => {
                    &&& r matches Ok(v)
                    &&& v.token() == token
                    &&& v.opened_in(after)
                    &&& v.wf()
                    &&& (v matches Val::Array(a) ==> *final(parser) == *final(a.parser))
                    &&& (v matches Val::Object(o) ==> *final(parser) == *final(o.parser))
                    &&& (!v.is_handle() ==> final(parser)@ == after)
                },
                Err(kind) => {
                    &&& r matches Err(e)
                    &&& e.kind == kind
                    &&& final(parser)@ == value_fail(old(parser)@.skip_ws())
                    &&& (kind == ErrorKind::EndOfInput || kind == ErrorKind::UnexpectedToken)
                        ==> final(parser)@ == old(parser)@.skip_ws()
                    &&& final(parser)@.ahead_of(old(parser)@)
                    &&& final(parser)@.depth == old(parser)@.depth
                },
            },
    {
        proof {
            lemma_ws_end(parser@.input, parser@.offset);
            lemma_value_fail(parser@.skip_ws());
        }
        parser.skip_ws();
        let next = parser.peek();
        let b = match next {
            Ok(b) => b,
            Err(e) => {
                return Err(e);
            },
        };
        if b == LOWER_N {
            let word: [u8; 4] = [LOWER_N, LOWER_U, LOWER_L, LOWER_L];
            assert(word@ == null_word());
            parser.parse_word(word.as_slice())?;
            Ok(Val::Null)
        } else if b == LOWER_F {
            let word: [u8; 5] = [LOWER_F, LOWER_A, LOWER_L, LOWER_S, LOWER_E];
            assert(word@ == false_word());
            parser.parse_word(word.as_slice())?;
            Ok(Val::Boolean(false))
        } else if b == LOWER_T {
            let word: [u8; 4] = [LOWER_T, LOWER_R, LOWER_U, LOWER_E];
            assert(word@ == true_word());
            parser.parse_word(word.as_slice())?;
            Ok(Val::Boolean(true))
        } else if b == MINUS || (DIGIT_0 <= b && b <= DIGIT_9) {
            Ok(Val::Number(parser.parse_number()?))
        } else if b == QUOTE {
            Ok(Val::String(parser.parse_string()?))
        } else if b == OPEN_BRACE {
            Ok(Val::Object(parser.parse_object()?))
        } else if b == OPEN_BRACKET {
            Ok(Val::Array(parser.parse_array()?))
        } else {
            Err(Error { kind: ErrorKind::UnexpectedToken })
        }
    }
}

impl<'a, 'buf> Array<'a, 'buf> {
    /// The handle may be used. It still may when the array has ended.
    pub open spec fn wf(&self) -> bool {
        handle_wf(self.start as int, self.depth as int, self.parser@)
    }

    /// The next element, or `None` at the end of the array. What is left of
    /// the element handed out before, read or not, is skipped first. Once the
    /// array has ended, every further call returns `None` and reads nothing.
    pub fn next<'b>(&'b mut self) -> (r: Result<Option<Val<'b, 'buf>>, Error>)
        requires
            old(self).wf(),
        ensures
            final(self).start == old(self).start,
            final(self).depth == old(self).depth,
            *final(final(self).parser) == *final(old(self).parser),
            old(self).parser@.depth < old(self).depth ==> r matches Ok(None),
            old(self).parser@.depth < old(self).depth ==> final(self).parser@ == old(self).parser@,
            match array_next(old(self).parser@, old(self).start as int, old(self).depth as int) {
                Ok(Pull::Element(token, after)) => {
                    &&& r matches Ok(Some(v))
                    &&& v.token() == token
                    &&& v.opened_in(after)
                    &&& v.wf()
                    &&& (v matches Val::Array(a) ==> *final(self).parser == *final(a.parser))
                    &&& (v matches Val::Object(o) ==> *final(self).parser == *final(o.parser))
                    &&& (!v.is_handle() ==> final(self).parser@ == after && final(self).wf()
                        && after.ahead_of(old(self).parser@))
                },
                Ok(Pull::End(after)) => {
                    &&& r matches Ok(None)
                    &&& final(self).parser@ == after
                    &&& final(self).parser@.ahead_of(old(self).parser@)
                    &&& final(self).wf()
                },
                Err(kind) => {
                    &&& r matches Err(e)
                    &&& e.kind == kind
                    &&& final(self).parser@ == array_next_fail(
                        old(self).parser@,
                        old(self).start as int,
                        old(self).depth as int,
                    )
                    &&& final(self).parser@.ahead_of(old(self).parser@)
                    &&& final(self).wf()
                },
            },
    {
        let more = self.parser.next_slot(self.start, self.depth, CLOSE_BRACKET)?;
        if !more {
            return Ok(None);
        }
        proof {
            lemma_value_at(self.parser@);
        }
        let v = Val::from(self.parser)?;
        Ok(Some(v))
    }
}

impl<'a, 'buf> Object<'a, 'buf> {
    /// The handle may be used. It still may when the object has ended.
    pub open spec fn wf(&self) -> bool {
        handle_wf(self.start as int, self.depth as int, self.parser@)
    }

    /// The next member, or `None` at the end of the object. What is left of
    /// the value handed out before, read or not, is skipped first. A member is
    /// a key, a colon and a value, with whitespace allowed around the colon.
    /// Keys are handed out as they come; a repeated key is no error. Once the
    /// object has ended, every further call returns `None` and reads nothing.
    pub fn next<'b>(&'b mut self) -> (r: Result<Option<(Key<'buf>, Val<'b, 'buf>)>, Error>)
        requires
            old(self).wf(),
        ensures
            final(self).start == old(self).start,
            final(self).depth == old(self).depth,
            *final(final(self).parser) == *final(old(self).parser),
            old(self).parser@.depth < old(self).depth ==> r matches Ok(None),
            old(self).parser@.depth < old(self).depth ==> final(self).parser@ == old(self).parser@,
            match object_next(old(self).parser@, old(self).start as int, old(self).depth as int) {
                Ok(PullMember::Member(name, token, after)) => {
                    &&& r matches Ok(Some((k, v)))
                    &&& k@ == name
                    &&& v.token() == token
                    &&& v.opened_in(after)
                    &&& v.wf()
                    &&& (v matches Val::Array(a) ==> *final(self).parser == *final(a.parser))
                    &&& (v matches Val::Object(o) ==> *final(self).parser == *final(o.parser))
                    &&& (!v.is_handle() ==> final(self).parser@ == after && final(self).wf()
                        && after.ahead_of(old(self).parser@))
                },
                Ok(PullMember::End(after)) => {
                    &&& r matches Ok(None)
                    &&& final(self).parser@ == after
                    &&& final(self).parser@.ahead_of(old(self).parser@)
                    &&& final(self).wf()
                },
                Err(kind) => {
                    &&& r matches Err(e)
                    &&& e.kind == kind
                    &&& final(self).parser@ == object_next_fail(
                        old(self).parser@,
                        old(self).start as int,
                        old(self).depth as int,
                    )
                    &&& final(self).parser@.ahead_of(old(self).parser@)
                    &&& final(self).wf()
                },
            },
    {
        let more = self.parser.next_slot(self.start, self.depth, CLOSE_BRACE)?;
        if !more {
            return Ok(None);
        }
        let next = self.parser.peek();
        let b = match next {
            Ok(b) => b,
            Err(e) => {
                return Err(e);
            },
        };
        if b != QUOTE {
            return Err(Error { kind: ErrorKind::ExpectedKey });
        }
        proof {
            lemma_string_token(self.parser@.input, self.parser@.offset);
        }
        let name = key(self.parser.parse_string()?.as_str());
        proof {
            lemma_ws_end(self.parser@.input, self.parser@.offset);
        }
        self.parser.skip_ws();
        let next = self.parser.peek();
        let c = match next {
            Ok(c) => c,
            Err(e) => {
                return Err(e);
            },
        };
        if c != COLON {
            return Err(Error { kind: ErrorKind::ExpectedColon });
        }
        self.parser.step()?;
        proof {
            lemma_ws_end(self.parser@.input, self.parser@.offset);
        }
        self.parser.skip_ws();
        proof {
            lemma_value_at(self.parser@);
        }
        let v = Val::from(self.parser)?;
        Ok(Some((name, v)))
    }
}

} // verus!
