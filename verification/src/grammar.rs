//! The lexical grammar, as functions on byte sequences.
//!
//! Every scanner of the parser is specified by one of these functions: given
//! the input and a position, it says where the token ends or which error the
//! scan meets first.

use vstd::prelude::*;
use vstd::utf8::valid_utf8;
use crate::ascii::{
    BACKSLASH, CLOSE_BRACE, CLOSE_BRACKET, CR, DIGIT_0, DIGIT_9, DOT, LF, LOWER_A, LOWER_B,
    LOWER_E, LOWER_F, LOWER_N, LOWER_R, LOWER_T, LOWER_U, MINUS, OPEN_BRACE, OPEN_BRACKET, PLUS,
    QUOTE, SLASH, SPACE, TAB, UPPER_A, UPPER_E, UPPER_F,
};
use crate::error::ErrorKind;

verus! {

/// Space, tab, carriage return or line feed.
pub open spec fn is_ws(b: u8) -> bool {
    b == SPACE || b == TAB || b == CR || b == LF
}

/// An ASCII decimal digit.
pub open spec fn is_digit(b: u8) -> bool {
    DIGIT_0 <= b <= DIGIT_9
}

/// An ASCII hexadecimal digit, either case.
pub open spec fn is_hex(b: u8) -> bool {
    is_digit(b) || (UPPER_A <= b <= UPPER_F) || (LOWER_A <= b <= LOWER_F)
}

/// The bytes that may follow a backslash on their own: `" \ / b f n r t`.
pub open spec fn is_simple_escape(b: u8) -> bool {
    b == QUOTE || b == BACKSLASH || b == SLASH || b == LOWER_B || b == LOWER_F || b == LOWER_N
        || b == LOWER_R || b == LOWER_T
}

/// An opening bracket or brace.
pub open spec fn is_open(b: u8) -> bool {
    b == OPEN_BRACKET || b == OPEN_BRACE
}

/// A closing bracket or brace.
pub open spec fn is_close(b: u8) -> bool {
    b == CLOSE_BRACKET || b == CLOSE_BRACE
}

/// A byte that can occur in a number.
pub open spec fn is_number_byte(b: u8) -> bool {
    is_digit(b) || b == MINUS || b == PLUS || b == DOT || b == LOWER_E || b == UPPER_E
}

/// A byte that can carry a number on: a digit, `.`, `e` or `E`.
pub open spec fn continues_number(b: u8) -> bool {
    is_digit(b) || b == DOT || b == LOWER_E || b == UPPER_E
}

/// The first position at or after `i` that holds no whitespace.
pub open spec fn ws_end(s: Seq<u8>, i: int) -> int
    decreases s.len() - i,
{
    if 0 <= i < s.len() && is_ws(s[i]) {
        ws_end(s, i + 1)
    } else {
        i
    }
}

/// The first position at or after `i` that holds no digit.
pub open spec fn digits_end(s: Seq<u8>, i: int) -> int
    decreases s.len() - i,
{
    if 0 <= i < s.len() && is_digit(s[i]) {
        digits_end(s, i + 1)
    } else {
        i
    }
}

/// Whether `s` holds `word` at position `i`.
pub open spec fn has_word(s: Seq<u8>, i: int, word: Seq<u8>) -> bool {
    0 <= i && i + word.len() <= s.len() && s.subrange(i, i + word.len()) == word
}

/// One or more digits from `i`: where they end.
pub open spec fn digits1_end(s: Seq<u8>, i: int) -> Option<int> {
    if 0 <= i < s.len() && is_digit(s[i]) {
        Some(digits_end(s, i + 1))
    } else {
        None
    }
}

/// The integer part: a single `0`, or a digit from 1 to 9 and any digits after it.
pub open spec fn int_part_end(s: Seq<u8>, i: int) -> Option<int> {
    if 0 <= i < s.len() && s[i] == DIGIT_0 {
        Some(i + 1)
    } else {
        digits1_end(s, i)
    }
}

/// The optional fraction: a `.` and one or more digits.
pub open spec fn frac_end(s: Seq<u8>, i: int) -> Option<int> {
    if 0 <= i < s.len() && s[i] == DOT {
        digits1_end(s, i + 1)
    } else {
        Some(i)
    }
}

/// The optional exponent: `e` or `E`, an optional sign, one or more digits.
pub open spec fn exp_end(s: Seq<u8>, i: int) -> Option<int> {
    if 0 <= i < s.len() && (s[i] == LOWER_E || s[i] == UPPER_E) {
        if i + 1 < s.len() && (s[i + 1] == PLUS || s[i + 1] == MINUS) {
            digits1_end(s, i + 2)
        } else {
            digits1_end(s, i + 1)
        }
    } else {
        Some(i)
    }
}

/// Where the number that starts at `i` ends; `None` where a required part is
/// missing.
pub open spec fn number_end(s: Seq<u8>, i: int) -> Option<int> {
    let a = if 0 <= i < s.len() && s[i] == MINUS {
        i + 1
    } else {
        i
    };
    match int_part_end(s, a) {
        None => None,
        Some(b) => match frac_end(s, b) {
            None => None,
            Some(c) => exp_end(s, c),
        },
    }
}

/// Where the scan of a number stops when it fails: at the byte that should
/// have been the digit that is missing. Of a number that is there, its end.
pub open spec fn number_fail(s: Seq<u8>, i: int) -> int {
    let a = if 0 <= i < s.len() && s[i] == MINUS {
        i + 1
    } else {
        i
    };
    match int_part_end(s, a) {
        None => a,
        Some(b) => match frac_end(s, b) {
            None => b + 1,
            Some(c) => match exp_end(s, c) {
                None => if c + 1 < s.len() && (s[c + 1] == PLUS || s[c + 1] == MINUS) {
                    c + 2
                } else {
                    c + 1
                },
                Some(end) => end,
            },
        },
    }
}

/// Reading `n` hexadecimal digits from `i`: the error met, if any.
pub open spec fn hex_run(s: Seq<u8>, i: int, n: nat) -> Option<ErrorKind>
    decreases n,
{
    if n == 0 {
        None
    } else if !(0 <= i < s.len()) {
        Some(ErrorKind::UnterminatedString)
    } else if !is_hex(s[i]) {
        Some(ErrorKind::InvalidEscape)
    } else {
        hex_run(s, i + 1, (n - 1) as nat)
    }
}

/// Reading `n` hexadecimal digits from `i`: where the reading stops, at the
/// first byte that is none or at the end of the input.
pub open spec fn hex_fail(s: Seq<u8>, i: int, n: nat) -> int
    decreases n,
{
    if n == 0 || !(0 <= i < s.len()) || !is_hex(s[i]) {
        i
    } else {
        hex_fail(s, i + 1, (n - 1) as nat)
    }
}

/// Digits that were read are there, and they are hexadecimal.
pub proof fn lemma_hex_run(s: Seq<u8>, i: int, n: nat)
    requires
        0 <= i,
    ensures
        hex_run(s, i, n) is None <==> n == 0 || (i + n <= s.len() && forall|k: int|
            i <= k < i + n ==> is_hex(#[trigger] s[k])),
        hex_run(s, i, n) matches Some(e) ==> e == ErrorKind::UnterminatedString || e
            == ErrorKind::InvalidEscape,
    decreases n,
{
    if n > 0 && i < s.len() {
        if is_hex(s[i]) {
            lemma_hex_run(s, i + 1, (n - 1) as nat);
        } else {
            assert(!is_hex(s[i]));
        }
    }
}

/// Scanning string contents from `i`: the position of the closing quote, or
/// the first error. A backslash must be followed by a simple escape or by `u`
/// and four hexadecimal digits; no raw byte may be below 32.
pub open spec fn string_close(s: Seq<u8>, i: int) -> Result<int, ErrorKind>
    decreases s.len() - i,
{
    if !(0 <= i < s.len()) {
        Err(ErrorKind::UnterminatedString)
    } else if s[i] == QUOTE {
        Ok(i)
    } else if s[i] == BACKSLASH {
        if i + 1 >= s.len() {
            Err(ErrorKind::UnterminatedString)
        } else if is_simple_escape(s[i + 1]) {
            string_close(s, i + 2)
        } else if s[i + 1] == LOWER_U {
            match hex_run(s, i + 2, 4) {
                Some(e) => Err(e),
                None => {
                    proof {
                        lemma_hex_run(s, i + 2, 4);
                    }
                    string_close(s, i + 6)
                },
            }
        } else {
            Err(ErrorKind::InvalidEscape)
        }
    } else if s[i] < 32 {
        Err(ErrorKind::ControlCharacterInString)
    } else {
        string_close(s, i + 1)
    }
}

/// The string token at `i`: the position of its closing quote. The token
/// starts with a quote, its contents scan, and they are UTF-8.
pub open spec fn string_token(s: Seq<u8>, i: int) -> Result<int, ErrorKind> {
    if !(0 <= i < s.len()) {
        Err(ErrorKind::EndOfInput)
    } else if s[i] != QUOTE {
        Err(ErrorKind::UnexpectedToken)
    } else {
        match string_close(s, i + 1) {
            Err(e) => Err(e),
            Ok(q) => if valid_utf8(s.subrange(i + 1, q)) {
                Ok(q)
            } else {
                Err(ErrorKind::InvalidUtf8)
            },
        }
    }
}

/// Where the scan of string contents from `i` stops when it fails: at the
/// end of the input, at the raw byte below 32, or at the byte behind a
/// backslash that makes no escape with it.
pub open spec fn string_close_fail(s: Seq<u8>, i: int) -> int
    decreases s.len() - i,
{
    if !(0 <= i < s.len()) || s[i] == QUOTE {
        i
    } else if s[i] == BACKSLASH {
        if i + 1 >= s.len() {
            i + 1
        } else if is_simple_escape(s[i + 1]) {
            string_close_fail(s, i + 2)
        } else if s[i + 1] == LOWER_U {
            match hex_run(s, i + 2, 4) {
                Some(_) => hex_fail(s, i + 2, 4),
                None => {
                    proof {
                        lemma_hex_run(s, i + 2, 4);
                    }
                    string_close_fail(s, i + 6)
                },
            }
        } else {
            i + 1
        }
    } else if s[i] < 32 {
        i
    } else {
        string_close_fail(s, i + 1)
    }
}

/// Where the scan of the string token at `i` stops when it fails: at `i`
/// where no quote starts it, where the scan of its contents stops, or behind
/// the closing quote where the contents are no UTF-8.
pub open spec fn string_token_fail(s: Seq<u8>, i: int) -> int {
    if !(0 <= i < s.len()) || s[i] != QUOTE {
        i
    } else {
        match string_close(s, i + 1) {
            Err(_) => string_close_fail(s, i + 1),
            Ok(close) => close + 1,
        }
    }
}

/// A string that starts with a quote fails neither for want of input at
/// its start nor for a byte that starts no string.
pub proof fn lemma_string_token_kinds(s: Seq<u8>, i: int)
    requires
        0 <= i < s.len(),
        s[i] == QUOTE,
    ensures
        string_token(s, i) matches Err(kind) ==> kind != ErrorKind::EndOfInput && kind
            != ErrorKind::UnexpectedToken,
{
    lemma_string_close_kinds(s, i + 1);
}

/// The scan of string contents fails for an unterminated string, a bad
/// escape or a control character, and for nothing else.
pub proof fn lemma_string_close_kinds(s: Seq<u8>, i: int)
    requires
        0 <= i,
    ensures
        string_close(s, i) matches Err(kind) ==> kind == ErrorKind::UnterminatedString || kind
            == ErrorKind::InvalidEscape || kind == ErrorKind::ControlCharacterInString,
    decreases s.len() - i,
{
    if i < s.len() && s[i] != QUOTE {
        if s[i] == BACKSLASH {
            if i + 1 < s.len() {
                if is_simple_escape(s[i + 1]) {
                    lemma_string_close_kinds(s, i + 2);
                } else if s[i + 1] == LOWER_U {
                    lemma_hex_run(s, i + 2, 4);
                    if hex_run(s, i + 2, 4) is None {
                        lemma_string_close_kinds(s, i + 6);
                    }
                }
            }
        } else if s[i] >= 32 {
            lemma_string_close_kinds(s, i + 1);
        }
    }
}

/// A number is not empty, its parts follow one another within the input,
/// and it holds only bytes of the number alphabet.
pub proof fn lemma_number_end(s: Seq<u8>, i: int)
    requires
        0 <= i,
    ensures
        number_end(s, i) matches Some(end) ==> {
            let a = if i < s.len() && s[i] == MINUS {
                i + 1
            } else {
                i
            };
            let b = int_part_end(s, a)->0;
            let c = frac_end(s, b)->0;
            &&& i <= a < b <= c <= end <= s.len()
            &&& forall|k: int| i <= k < end ==> is_number_byte(#[trigger] s[k])
        },
{
    if let Some(end) = number_end(s, i) {
        let a = if i < s.len() && s[i] == MINUS {
            i + 1
        } else {
            i
        };
        let b = int_part_end(s, a)->0;
        let c = frac_end(s, b)->0;
        lemma_digits_end(s, a + 1);
        if b < s.len() && s[b] == DOT {
            lemma_digits_end(s, b + 2);
        }
        if c < s.len() && (s[c] == LOWER_E || s[c] == UPPER_E) {
            if c + 1 < s.len() && (s[c + 1] == PLUS || s[c + 1] == MINUS) {
                lemma_digits_end(s, c + 3);
            } else {
                lemma_digits_end(s, c + 2);
            }
        }
    }
}

/// A string token ends within the input, on a quote behind its opening one.
pub proof fn lemma_string_token(s: Seq<u8>, i: int)
    ensures
        string_token(s, i) matches Ok(close) ==> 0 <= i < close < s.len() && s[i] == QUOTE
            && s[close] == QUOTE,
{
    if 0 <= i < s.len() && s[i] == QUOTE {
        lemma_string_close(s, i + 1);
    }
}

/// The closing quote lies at or behind the position the scan started from.
pub proof fn lemma_string_close(s: Seq<u8>, i: int)
    requires
        0 <= i,
    ensures
        string_close(s, i) matches Ok(close) ==> i <= close < s.len() && s[close] == QUOTE,
    decreases s.len() - i,
{
    if i < s.len() && s[i] != QUOTE {
        if s[i] == BACKSLASH {
            if i + 1 < s.len() {
                if is_simple_escape(s[i + 1]) {
                    lemma_string_close(s, i + 2);
                } else if s[i + 1] == LOWER_U {
                    lemma_hex_run(s, i + 2, 4);
                    if hex_run(s, i + 2, 4) is None {
                        lemma_string_close(s, i + 6);
                    }
                }
            }
        } else if s[i] >= 32 {
            lemma_string_close(s, i + 1);
        }
    }
}

/// Whitespace ends within the input, at the first byte that is none, and
/// only whitespace lies before that.
pub proof fn lemma_ws_end(s: Seq<u8>, i: int)
    requires
        0 <= i <= s.len(),
    ensures
        i <= ws_end(s, i) <= s.len(),
        forall|k: int| i <= k < ws_end(s, i) ==> is_ws(#[trigger] s[k]),
        ws_end(s, i) < s.len() ==> !is_ws(s[ws_end(s, i)]),
        ws_end(s, ws_end(s, i)) == ws_end(s, i),
    decreases s.len() - i,
{
    if i < s.len() && is_ws(s[i]) {
        lemma_ws_end(s, i + 1);
    }
}

/// Digits end within the input, at the first byte that is none, and only
/// digits lie before that.
pub proof fn lemma_digits_end(s: Seq<u8>, i: int)
    requires
        0 <= i <= s.len(),
    ensures
        i <= digits_end(s, i) <= s.len(),
        forall|k: int| i <= k < digits_end(s, i) ==> is_digit(#[trigger] s[k]),
        digits_end(s, i) < s.len() ==> !is_digit(s[digits_end(s, i)]),
    decreases s.len() - i,
{
    if i < s.len() && is_digit(s[i]) {
        lemma_digits_end(s, i + 1);
    }
}

/// Whitespace up to a byte that is none ends there.
pub proof fn lemma_ws_end_at(s: Seq<u8>, i: int, end: int)
    requires
        0 <= i <= end <= s.len(),
        forall|k: int| i <= k < end ==> is_ws(#[trigger] s[k]),
        end == s.len() || !is_ws(s[end]),
    ensures
        ws_end(s, i) == end,
    decreases end - i,
{
    if i < end {
        assert(is_ws(s[i]));
        lemma_ws_end_at(s, i + 1, end);
    }
}

/// Digits are counted in a span as in the whole input, up to the span's end.
pub proof fn lemma_digits_end_in_span(s: Seq<u8>, i: int, j: int, k: int)
    requires
        0 <= i <= k <= j <= s.len(),
    ensures
        digits_end(s.subrange(i, j), k - i) == if digits_end(s, k) <= j {
            digits_end(s, k) - i
        } else {
            j - i
        },
    decreases j - k,
{
    lemma_digits_end(s, k);
    if k < j {
        assert(s.subrange(i, j)[k - i] == s[k]);
        if is_digit(s[k]) {
            lemma_digits_end_in_span(s, i, j, k + 1);
        }
    }
}

/// One digit or more are read in a span as in the whole input, where they
/// end within the span.
proof fn lemma_digits1_in_span(s: Seq<u8>, i: int, j: int, k: int)
    requires
        0 <= i <= k <= j <= s.len(),
    ensures
        digits1_end(s, k) matches Some(e) ==> e <= j ==> digits1_end(s.subrange(i, j), k - i)
            == Some(e - i),
        digits1_end(s.subrange(i, j), k - i) matches Some(e) ==> (i + e < j || j == s.len()
            || !is_digit(s[j])) ==> digits1_end(s, k) == Some(i + e),
{
    if k < j {
        assert(s.subrange(i, j)[k - i] == s[k]);
        lemma_digits_end_in_span(s, i, j, k + 1);
    }
    if k < s.len() {
        lemma_digits_end(s, k + 1);
    }
}

/// The integer part is read in a span as in the whole input.
proof fn lemma_int_part_in_span(s: Seq<u8>, i: int, j: int, k: int)
    requires
        0 <= i <= k <= j <= s.len(),
    ensures
        int_part_end(s, k) matches Some(e) ==> e <= j ==> int_part_end(s.subrange(i, j), k - i)
            == Some(e - i),
        int_part_end(s.subrange(i, j), k - i) matches Some(e) ==> (i + e < j || j == s.len()
            || !is_digit(s[j])) ==> int_part_end(s, k) == Some(i + e),
        int_part_end(s.subrange(i, j), k - i) matches Some(e) ==> k - i < e <= j - i,
{
    lemma_digits1_in_span(s, i, j, k);
    if k < j {
        assert(s.subrange(i, j)[k - i] == s[k]);
        lemma_digits_end(s.subrange(i, j), k - i + 1);
    }
}

/// The fraction is read in a span as in the whole input.
proof fn lemma_frac_in_span(s: Seq<u8>, i: int, j: int, k: int)
    requires
        0 <= i <= k <= j <= s.len(),
    ensures
        frac_end(s, k) matches Some(e) ==> e <= j ==> frac_end(s.subrange(i, j), k - i) == Some(
            e - i,
        ),
        frac_end(s.subrange(i, j), k - i) matches Some(e) ==> (j == s.len() || !continues_number(
            s[j],
        )) ==> frac_end(s, k) == Some(i + e),
        frac_end(s.subrange(i, j), k - i) matches Some(e) ==> k - i <= e <= j - i,
{
    if k < j {
        assert(s.subrange(i, j)[k - i] == s[k]);
        if s[k] == DOT {
            lemma_digits1_in_span(s, i, j, k + 1);
            lemma_digits_end(s, k + 1);
            if k + 1 < j {
                lemma_digits_end(s, k + 2);
                lemma_digits_end(s.subrange(i, j), k - i + 2);
            }
        }
    } else if k + 1 < s.len() {
        lemma_digits_end(s, k + 2);
    }
}

/// The exponent is read in a span as in the whole input.
proof fn lemma_exp_in_span(s: Seq<u8>, i: int, j: int, k: int)
    requires
        0 <= i <= k <= j <= s.len(),
    ensures
        exp_end(s, k) matches Some(e) ==> e <= j ==> exp_end(s.subrange(i, j), k - i) == Some(
            e - i,
        ),
        exp_end(s.subrange(i, j), k - i) matches Some(e) ==> (j == s.len() || !continues_number(
            s[j],
        )) ==> exp_end(s, k) == Some(i + e),
{
    if k < j {
        assert(s.subrange(i, j)[k - i] == s[k]);
        if s[k] == LOWER_E || s[k] == UPPER_E {
            if k + 1 < j {
                assert(s.subrange(i, j)[k + 1 - i] == s[k + 1]);
                lemma_digits1_in_span(s, i, j, k + 1);
                lemma_digits_end(s, k + 2);
                if k + 2 <= j {
                    lemma_digits1_in_span(s, i, j, k + 2);
                }
                if k + 2 < j {
                    lemma_digits_end(s, k + 3);
                }
            } else {
                lemma_digits1_in_span(s, i, j, k + 1);
                if k + 1 < s.len() {
                    lemma_digits_end(s, k + 2);
                    if k + 2 < s.len() {
                        lemma_digits_end(s, k + 3);
                    }
                }
            }
        }
    } else if k + 1 < s.len() {
        lemma_digits_end(s, k + 2);
        if k + 2 < s.len() {
            lemma_digits_end(s, k + 3);
        }
    }
}

/// A number that ends at `j` is, taken by itself, a number from its first
/// byte to its last; and a span that is one, with no byte behind it that
/// could carry the number on, is the number that the scan finds.
pub proof fn lemma_number_span(s: Seq<u8>, i: int, j: int)
    requires
        0 <= i < j <= s.len(),
    ensures
        number_end(s, i) == Some(j) ==> number_end(s.subrange(i, j), 0) == Some(j - i),
        number_end(s.subrange(i, j), 0) == Some(j - i) && (j == s.len() || !continues_number(s[j]))
            ==> number_end(s, i) == Some(j),
{
    let t = s.subrange(i, j);
    assert(t[0] == s[i]);
    let a = if s[i] == MINUS {
        1int
    } else {
        0int
    };
    lemma_int_part_in_span(s, i, j, i + a);
    if number_end(s, i) == Some(j) {
        lemma_number_end(s, i);
        let b = int_part_end(s, i + a)->0;
        let c = frac_end(s, b)->0;
        lemma_frac_in_span(s, i, j, b);
        lemma_exp_in_span(s, i, j, c);
    } else if number_end(t, 0) == Some(j - i) && (j == s.len() || !continues_number(s[j])) {
        let b = int_part_end(t, a)->0;
        lemma_frac_in_span(s, i, j, i + b);
        let c = frac_end(t, b)->0;
        lemma_exp_in_span(s, i, j, i + c);
    }
}

} // verus!
