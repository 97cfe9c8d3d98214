//! Borrowed views into the input: numbers, strings and keys.

use vstd::prelude::*;
use vstd::string::StringSliceAdditionalSpecFns;
use vstd::utf8::{
    encode_utf8_valid_utf8, is_leading_byte_width_1, partial_valid_utf8_extend_ascii_block,
    valid_utf8,
};
use crate::grammar::is_number_byte;

verus! {

/// The error of `core::str::from_utf8`. Nothing is said of what it holds.
#[verifier::external_type_specification]
#[verifier::external_body]
pub struct ExUtf8Error(core::str::Utf8Error);

/// `core::str::from_utf8` accepts exactly the byte sequences that are UTF-8,
/// and the string slice it returns has the bytes it was given.
pub assume_specification<'a>[ core::str::from_utf8 ](v: &'a [u8]) -> (r: Result<
    &'a str,
    core::str::Utf8Error,
>)
    ensures
        r is Ok <==> valid_utf8(v@),
        r matches Ok(s) ==> s.spec_bytes() == v@,
;

/// The text of a number, validated and not interpreted.
#[derive(Debug, PartialEq, Eq, Clone, Copy)]
pub struct Number<'buf> {
    number: &'buf [u8],
}

impl<'buf> View for Number<'buf> {
    type V = Seq<u8>;

    closed spec fn view(&self) -> Seq<u8> {
        self.number@
    }
}

impl<'buf> Number<'buf> {
    #[verifier::type_invariant]
    spec fn only_number_bytes(self) -> bool {
        forall|i: int| 0 <= i < self.number@.len() ==> is_number_byte(#[trigger] self.number@[i])
    }

    /// Wraps bytes that a number scan has accepted.
    pub(crate) fn new(number: &'buf [u8]) -> (n: Number<'buf>)
        requires
            forall|i: int| 0 <= i < number@.len() ==> is_number_byte(#[trigger] number@[i]),
        ensures
            n@ == number@,
    {
        Number { number }
    }

    /// The source text of the number. It holds digits, signs, `.`, `e` and
    /// `E` only.
    pub fn as_bytes(&self) -> (b: &'buf [u8])
        ensures
            b@ == self@,
            forall|i: int| 0 <= i < b@.len() ==> is_number_byte(#[trigger] b@[i]),
    {
        proof {
            use_type_invariant(self);
        }
        self.number
    }

    /// The source text of the number, as a string slice.
    pub fn as_str(&self) -> (s: &'buf str)
        ensures
            s.spec_bytes() == self@,
    {
        proof {
            use_type_invariant(self);
            let bytes = self.number@;
            assert forall|i: int| 0 <= i < bytes.len() implies is_leading_byte_width_1(
                #[trigger] bytes[i],
            ) by {
                assert(is_number_byte(bytes[i]));
            }
            assert(valid_utf8(bytes.subrange(0, 0))) by {
                assert(bytes.subrange(0, 0).len() == 0);
            }
            partial_valid_utf8_extend_ascii_block(bytes, 0, bytes.len() as int);
            assert(bytes.subrange(0, bytes.len() as int) == bytes);
        }
        core::str::from_utf8(self.number).unwrap()
    }
}

/// The raw text between the quotes of a string. Escape sequences are checked
/// and left as they stand.
#[derive(Debug, PartialEq, Eq, Clone, Copy)]
pub struct String<'buf> {
    string: &'buf str,
}

impl<'buf> View for String<'buf> {
    type V = Seq<u8>;

    closed spec fn view(&self) -> Seq<u8> {
        self.string.spec_bytes()
    }
}

impl<'buf> String<'buf> {
    /// The text between the quotes.
    pub fn as_str(&self) -> (s: &'buf str)
        ensures
            s.spec_bytes() == self@,
    {
        self.string
    }

    /// The bytes between the quotes. They are UTF-8.
    pub fn as_bytes(&self) -> (b: &'buf [u8])
        ensures
            b@ == self@,
            valid_utf8(b@),
    {
        proof {
            encode_utf8_valid_utf8(self.string@);
        }
        self.string.as_bytes()
    }
}

/// The name of an object member: a string that a colon follows.
#[derive(Debug, Clone, Copy, PartialEq, Eq, PartialOrd, Ord)]
pub struct Key<'a> {
    key: &'a str,
}

impl<'a> View for Key<'a> {
    type V = Seq<u8>;

    closed spec fn view(&self) -> Seq<u8> {
        self.key.spec_bytes()
    }
}

/// A key with the given text.
pub fn key(text: &str) -> (k: Key<'_>)
    ensures
        k@ == text.spec_bytes(),
{
    Key { key: text }
}

/// A string value with the given text.
pub fn string(text: &str) -> (s: String<'_>)
    ensures
        s@ == text.spec_bytes(),
{
    String { string: text }
}

} // verus!
