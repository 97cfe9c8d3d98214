//! The grammar of a JSON text, and the agreement of the parser with it.
//!
//! The grammar is stated on spans of the input, as RFC 8259 writes it: a
//! text is a value with whitespace around it; a value is a literal name, a
//! number, a string, an array or an object; the items of an array or an
//! object are separated by commas, with whitespace allowed around every
//! value, key and separator.

use vstd::prelude::*;
use crate::ascii::{CLOSE_BRACE, CLOSE_BRACKET, COLON, COMMA, OPEN_BRACE, OPEN_BRACKET};
use crate::error::ErrorKind;
use crate::grammar::{
    continues_number, has_word, is_ws, lemma_number_span, lemma_string_token, lemma_ws_end,
    lemma_ws_end_at, number_end, string_token, ws_end,
};
use crate::model::{
    array_next, array_next_fail, element_slot, false_word, finalize_spec, key_at,
    lemma_value_at, null_word, object_next, object_next_fail, skip_to, true_word, value_at,
    Pull, PullMember, Slot, State, Token,
};
use crate::trail::{lemma_array_next_leads, lemma_leads_order, lemma_object_next_leads, origin};
use crate::value::handle_wf;

verus! {

/// Only whitespace lies in the span from `i` to `j`.
pub open spec fn all_ws(s: Seq<u8>, i: int, j: int) -> bool {
    0 <= i <= j <= s.len() && forall|k: int| i <= k < j ==> is_ws(#[trigger] s[k])
}

/// The span is one of the names `null`, `true` and `false`.
pub open spec fn is_literal(s: Seq<u8>, i: int, j: int) -> bool {
    ||| (has_word(s, i, null_word()) && j == i + 4)
    ||| (has_word(s, i, true_word()) && j == i + 4)
    ||| (has_word(s, i, false_word()) && j == i + 5)
}

/// The span, taken by itself, is a number from its first byte to its last.
pub open spec fn is_number(s: Seq<u8>, i: int, j: int) -> bool {
    0 <= i < j <= s.len() && number_end(s.subrange(i, j), 0) == Some(j - i)
}

/// The span is a string: it starts with a quote, and the first quote behind
/// it that no backslash escapes is its last byte. Between the two, every
/// backslash starts an escape, no raw byte is below 32, and the bytes are
/// UTF-8.
pub open spec fn is_string(s: Seq<u8>, i: int, j: int) -> bool {
    string_token(s, i) == Ok::<int, ErrorKind>(j - 1)
}

/// The span from `i` to `j` is a value.
pub open spec fn is_value(s: Seq<u8>, i: int, j: int) -> bool
    decreases j - i, 0int,
{
    &&& 0 <= i < j <= s.len()
    &&& {
        ||| is_literal(s, i, j)
        ||| is_number(s, i, j)
        ||| is_string(s, i, j)
        ||| (j - i >= 2 && s[i] == OPEN_BRACKET && s[j - 1] == CLOSE_BRACKET && is_items(
            s,
            i + 1,
            j - 1,
            false,
        ))
        ||| (j - i >= 2 && s[i] == OPEN_BRACE && s[j - 1] == CLOSE_BRACE && is_items(
            s,
            i + 1,
            j - 1,
            true,
        ))
    }
}

/// The span is a member of an object: a string, a colon and a value, with
/// whitespace allowed around the colon. The colon lies just before `c`.
pub open spec fn is_member(s: Seq<u8>, i: int, j: int) -> bool
    decreases j - i, 1int,
{
    exists|a: int, c: int, b: int|
        #![trigger is_string(s, i, a), all_ws(s, c, b)]
        i < a < c <= b < j && is_string(s, i, a) && all_ws(s, a, c - 1) && s[c - 1] == COLON
            && all_ws(s, c, b) && is_value(s, b, j)
}

/// The span is an item: a member of an object, or an element of an array.
pub open spec fn is_item(s: Seq<u8>, i: int, j: int, members: bool) -> bool
    decreases j - i, 2int,
{
    if members {
        is_member(s, i, j)
    } else {
        is_value(s, i, j)
    }
}

/// The span holds one item or more, separated by commas, with whitespace
/// allowed around each: whitespace up to `p`, an item up to `q`, whitespace
/// up to `r`, and there either the end of the span or a comma and more items.
pub open spec fn is_list(s: Seq<u8>, i: int, j: int, members: bool) -> bool
    decreases j - i, 3int,
{
    exists|p: int, q: int, r: int|
        #![trigger all_ws(s, i, p), all_ws(s, q, r)]
        i <= p < q <= r <= j && all_ws(s, i, p) && is_item(s, p, q, members) && all_ws(s, q, r)
            && (r == j || (s[r] == COMMA && is_list(s, r + 1, j, members)))
}

/// What lies between the delimiters of a container: whitespace only, or a
/// list of items.
pub open spec fn is_items(s: Seq<u8>, i: int, j: int, members: bool) -> bool
    decreases j - i, 4int,
{
    all_ws(s, i, j) || is_list(s, i, j, members)
}

/// What may follow an item up to `j`: whitespace only, or whitespace, a
/// comma and more items.
pub open spec fn is_rest(s: Seq<u8>, i: int, j: int, members: bool) -> bool {
    exists|r: int|
        #![trigger all_ws(s, i, r)]
        i <= r <= j && all_ws(s, i, r) && (r == j || (s[r] == COMMA && is_list(
            s,
            r + 1,
            j,
            members,
        )))
}

/// The input is a JSON text: one value, with whitespace allowed before and
/// behind it and nothing else.
pub open spec fn is_json_text(s: Seq<u8>) -> bool {
    exists|p: int, q: int|
        #![trigger all_ws(s, 0, p), all_ws(s, q, s.len() as int)]
        all_ws(s, 0, p) && is_value(s, p, q) && all_ws(s, q, s.len() as int)
}

/// The cursor has moved on from `a` to `b`, in the same input.
pub open spec fn moved_on(a: State, b: State) -> bool {
    b.input == a.input && a.offset < b.offset <= a.input.len()
}

/// What a container's `next` yields, for an object without the key.
pub open spec fn pull(st: State, start: int, depth: int, members: bool) -> Result<Pull, ErrorKind> {
    if members {
        match object_next(st, start, depth) {
            Err(kind) => Err(kind),
            Ok(PullMember::End(after)) => Ok(Pull::End(after)),
            Ok(PullMember::Member(_, token, after)) => Ok(Pull::Element(token, after)),
        }
    } else {
        array_next(st, start, depth)
    }
}

/// Reading a value to its end: of a scalar nothing is left to read; of a
/// container every child is pulled and read to its end in turn, until the
/// container has ended. The state is the one the value was handed out in.
pub open spec fn drain(token: Token, st: State) -> Result<State, ErrorKind>
    decreases st.input.len() - st.offset, 1int,
{
    match token {
        Token::Array => drain_items(st, st.offset, st.depth, false),
        Token::Object => drain_items(st, st.offset, st.depth, true),
        _ => Ok(st),
    }
}

/// Pulling from a container until it has ended, each child read to its end
/// before the next is pulled. That the cursor has moved on is tested only to
/// make the definition well-founded: for a handle that may be used it always
/// has, as `lemma_drain_round` shows.
pub open spec fn drain_items(st: State, start: int, depth: int, members: bool) -> Result<
    State,
    ErrorKind,
>
    decreases st.input.len() - st.offset, 0int,
{
    match pull(st, start, depth, members) {
        Err(kind) => Err(kind),
        Ok(Pull::End(after)) => Ok(after),
        Ok(Pull::Element(token, after)) => if moved_on(st, after) {
            match drain(token, after) {
                Err(kind) => Err(kind),
                Ok(next) => if moved_on(st, next) {
                    drain_items(next, start, depth, members)
                } else {
                    Err(ErrorKind::EndOfInput)
                },
            }
        } else {
            Err(ErrorKind::EndOfInput)
        },
    }
}

/// The state in which a container's `next` leaves the parser when it fails.
pub open spec fn pull_fail(st: State, start: int, depth: int, members: bool) -> State {
    if members {
        object_next_fail(st, start, depth)
    } else {
        array_next_fail(st, start, depth)
    }
}

/// The state in which reading a value to its end leaves the parser when it
/// fails: the state in which the pull that failed left it.
pub open spec fn drain_fail(token: Token, st: State) -> State
    decreases st.input.len() - st.offset, 1int,
{
    match token {
        Token::Array => drain_items_fail(st, st.offset, st.depth, false),
        Token::Object => drain_items_fail(st, st.offset, st.depth, true),
        _ => st,
    }
}

/// The state in which pulling from a container until it has ended leaves
/// the parser when it fails.
pub open spec fn drain_items_fail(st: State, start: int, depth: int, members: bool) -> State
    decreases st.input.len() - st.offset, 0int,
{
    match pull(st, start, depth, members) {
        Err(_) => pull_fail(st, start, depth, members),
        Ok(Pull::End(_)) => st,
        Ok(Pull::Element(token, after)) => if moved_on(st, after) {
            match drain(token, after) {
                Err(_) => drain_fail(token, after),
                Ok(next) => if moved_on(st, next) {
                    drain_items_fail(next, start, depth, members)
                } else {
                    st
                },
            }
        } else {
            st
        },
    }
}

/// A whole parse: the value at the start of the input is pulled and read to
/// its end, and the parse is ended.
pub open spec fn parse_all(s: Seq<u8>) -> Result<State, ErrorKind> {
    match value_at(origin(s).skip_ws()) {
        Err(kind) => Err(kind),
        Ok((token, after)) => match drain(token, after) {
            Err(kind) => Err(kind),
            Ok(end) => finalize_spec(end),
        },
    }
}

/// The delimiter that closes an object, or an array.
pub open spec fn closer(members: bool) -> u8 {
    if members {
        CLOSE_BRACE
    } else {
        CLOSE_BRACKET
    }
}

/// Where the value of the item at the cursor starts: for a member behind
/// the key, the colon and the whitespace around it.
pub open spec fn item_value(at: State, members: bool) -> Result<State, ErrorKind> {
    if members {
        match key_at(at) {
            Err(kind) => Err(kind),
            Ok((_, colon)) => Ok(colon),
        }
    } else {
        Ok(at)
    }
}

/// A pull is the slot before the item, the way to the item's value, and
/// the value.
proof fn lemma_pull(st: State, start: int, depth: int, members: bool)
    ensures
        pull(st, start, depth, members) == match element_slot(st, start, depth, closer(members)) {
            Err(kind) => Err(kind),
            Ok(Slot::Closed(after)) => Ok(Pull::End(after)),
            Ok(Slot::Element(at)) => match item_value(at, members) {
                Err(kind) => Err(kind),
                Ok(from) => match value_at(from) {
                    Err(kind) => Err(kind),
                    Ok((token, after)) => Ok(Pull::Element(token, after)),
                },
            },
        },
{
}

/// What is read as a member's key, colon and whitespace is that in the
/// grammar.
proof fn lemma_item_value_sound(at: State, members: bool)
    requires
        0 <= at.offset <= at.input.len(),
        item_value(at, members) is Ok,
    ensures
        ({
            let from = item_value(at, members)->Ok_0;
            &&& from == at.at(from.offset, at.depth)
            &&& at.offset <= from.offset <= at.input.len()
            &&& forall|q: int| #[trigger]
                is_value(at.input, from.offset, q) ==> is_item(at.input, at.offset, q, members)
        }),
{
    if members {
        let s = at.input;
        let from = item_value(at, members)->Ok_0;
        let close = string_token(s, at.offset)->Ok_0;
        lemma_string_token(s, at.offset);
        let a = close + 1;
        lemma_ws_end(s, a);
        let c = ws_end(s, a);
        lemma_ws_end(s, c + 1);
        let b = ws_end(s, c + 1);
        assert(from.offset == b);
        assert forall|q: int| #[trigger] is_value(s, b, q) implies is_item(
            s,
            at.offset,
            q,
            members,
        ) by {
            assert(all_ws(s, a, c + 1 - 1));
            assert(all_ws(s, c + 1, b));
            assert(is_string(s, at.offset, a));
            assert(is_member(s, at.offset, q));
        }
    }
}

/// What is read to its end as a value is a value in the grammar, and the
/// depth is back where it was.
pub proof fn lemma_drain_sound(at: State)
    requires
        0 <= at.offset,
        value_at(at) is Ok,
        drain(value_at(at)->Ok_0.0, value_at(at)->Ok_0.1) is Ok,
    ensures
        ({
            let end = drain(value_at(at)->Ok_0.0, value_at(at)->Ok_0.1)->Ok_0;
            &&& end == at.at(end.offset, at.depth)
            &&& is_value(at.input, at.offset, end.offset)
        }),
    decreases at.input.len() - at.offset, 0int,
{
    let s = at.input;
    let p = at.offset;
    let (token, after) = value_at(at)->Ok_0;
    lemma_value_at(at);
    match token {
        Token::Null => {
            assert(is_literal(s, p, after.offset));
        },
        Token::Boolean(_) => {
            assert(is_literal(s, p, after.offset));
        },
        Token::Number(_) => {
            lemma_number_span(s, p, after.offset);
            assert(is_number(s, p, after.offset));
        },
        Token::String(_) => {
            assert(is_string(s, p, after.offset));
        },
        Token::Array => {
            lemma_drain_items_sound(after, after.offset, after.depth, false);
        },
        Token::Object => {
            lemma_drain_items_sound(after, after.offset, after.depth, true);
        },
    }
}

/// An item with whitespace before it and what may follow an item behind it
/// make a list.
proof fn lemma_list_intro(s: Seq<u8>, i: int, p: int, q: int, j: int, members: bool)
    requires
        i <= p < q <= j,
        all_ws(s, i, p),
        is_item(s, p, q, members),
        is_rest(s, q, j, members),
    ensures
        is_list(s, i, j, members),
        is_items(s, i, j, members),
{
    let r = choose|r: int|
        q <= r <= j && #[trigger] all_ws(s, q, r) && (r == j || (s[r] == COMMA && is_list(
            s,
            r + 1,
            j,
            members,
        )));
    assert(all_ws(s, i, p) && all_ws(s, q, r));
}

/// Whitespace, and a comma with a list behind it if the span goes on, may
/// follow an item.
proof fn lemma_rest_intro(s: Seq<u8>, i: int, r: int, j: int, members: bool)
    requires
        i <= r <= j,
        all_ws(s, i, r),
        r == j || (s[r] == COMMA && is_list(s, r + 1, j, members)),
    ensures
        is_rest(s, i, j, members),
{
}

/// What lies before an item, in the terms of the grammar. Between items
/// the depth is that of the container's children, so nothing is skipped.
proof fn lemma_slot_sound(st: State, start: int, depth: int, close: u8)
    requires
        0 <= start <= st.offset <= st.input.len(),
        st.depth == depth,
        !is_ws(close),
        close != COMMA,
    ensures
        match element_slot(st, start, depth, close) {
            Ok(Slot::Closed(after)) => {
                &&& after == st.at(after.offset, depth - 1)
                &&& st.offset < after.offset <= st.input.len()
                &&& st.input[after.offset - 1] == close
                &&& all_ws(st.input, st.offset, after.offset - 1)
            },
            Ok(Slot::Element(at)) => {
                &&& at == st.at(at.offset, depth)
                &&& st.offset <= at.offset <= st.input.len()
                &&& if st.offset == start {
                    all_ws(st.input, start, at.offset)
                } else {
                    let r = ws_end(st.input, st.offset);
                    &&& r < at.offset
                    &&& st.input[r] == COMMA
                    &&& all_ws(st.input, st.offset, r)
                    &&& all_ws(st.input, r + 1, at.offset)
                }
            },
            Err(_) => true,
        },
{
    let s = st.input;
    let w = st.skip_ws();
    lemma_ws_end(s, st.offset);
    if st.offset != start {
        assert(skip_to(st, depth) == Ok::<State, ErrorKind>(st));
        if w.sees(COMMA) {
            lemma_ws_end(s, w.offset + 1);
        }
    }
}

/// What is pulled from a container until it has ended is, from the start
/// of the container, its items in the grammar, and from behind an item what
/// may follow an item; and the closing delimiter lies behind it.
pub proof fn lemma_drain_items_sound(st: State, start: int, depth: int, members: bool)
    requires
        0 <= start <= st.offset <= st.input.len(),
        st.depth == depth,
        drain_items(st, start, depth, members) is Ok,
    ensures
        ({
            let end = drain_items(st, start, depth, members)->Ok_0;
            let e = end.offset - 1;
            &&& end == st.at(e + 1, depth - 1)
            &&& st.offset <= e < st.input.len()
            &&& st.input[e] == closer(members)
            &&& if st.offset == start {
                is_items(st.input, start, e, members)
            } else {
                is_rest(st.input, st.offset, e, members)
            }
        }),
    decreases st.input.len() - st.offset, 1int,
{
    let s = st.input;
    let end = drain_items(st, start, depth, members)->Ok_0;
    let e = end.offset - 1;
    lemma_pull(st, start, depth, members);
    lemma_slot_sound(st, start, depth, closer(members));
    match element_slot(st, start, depth, closer(members)) {
        Ok(Slot::Closed(_)) => {
            lemma_rest_intro(s, st.offset, e, e, members);
        },
        Ok(Slot::Element(at)) => {
            lemma_item_value_sound(at, members);
            let from = item_value(at, members)->Ok_0;
            let (token, after) = value_at(from)->Ok_0;
            let next = drain(token, after)->Ok_0;
            lemma_drain_sound(from);
            lemma_drain_items_sound(next, start, depth, members);
            let q = next.offset;
            assert(is_value(s, from.offset, q));
            assert(is_item(s, at.offset, q, members));
            if st.offset == start {
                lemma_list_intro(s, start, at.offset, q, e, members);
            } else {
                let r = ws_end(s, st.offset);
                lemma_list_intro(s, r + 1, at.offset, q, e, members);
                lemma_rest_intro(s, st.offset, r, e, members);
            }
        },
        Err(_) => {},
    }
}

/// A value starts with a byte that is neither whitespace nor a comma nor a
/// closing delimiter.
proof fn lemma_value_first(s: Seq<u8>, i: int, j: int)
    requires
        is_value(s, i, j),
    ensures
        !is_ws(s[i]),
        s[i] != COMMA,
        s[i] != CLOSE_BRACKET,
        s[i] != CLOSE_BRACE,
{
    if is_literal(s, i, j) {
        assert(s.subrange(i, j)[0] == s[i]);
    } else if is_number(s, i, j) {
        assert(s.subrange(i, j)[0] == s[i]);
    }
}

/// An item starts with a byte that is neither whitespace nor a comma nor a
/// closing delimiter.
proof fn lemma_item_first(s: Seq<u8>, i: int, j: int, members: bool)
    requires
        is_item(s, i, j, members),
    ensures
        0 <= i < s.len(),
        !is_ws(s[i]),
        s[i] != COMMA,
        s[i] != closer(members),
{
    if members {
        let (a, c, b) = choose|a: int, c: int, b: int|
            i < a < c <= b < j && #[trigger] is_string(s, i, a) && all_ws(s, a, c - 1) && s[c
                - 1] == COLON && #[trigger] all_ws(s, c, b) && is_value(s, b, j);
        lemma_string_token(s, i);
    } else {
        lemma_value_first(s, i, j);
    }
}

/// A value of the grammar, with nothing behind it that could carry a number
/// on, is read as that value and read to its end at the end of its span.
pub proof fn lemma_value_complete(s: Seq<u8>, i: int, j: int, depth: int)
    requires
        is_value(s, i, j),
        j == s.len() || !continues_number(s[j]),
    ensures
        ({
            let at = State { input: s, offset: i, depth };
            &&& value_at(at) is Ok
            &&& drain(value_at(at)->Ok_0.0, value_at(at)->Ok_0.1) == Ok::<State, ErrorKind>(
                at.at(j, depth),
            )
        }),
    decreases j - i, 0int,
{
    let at = State { input: s, offset: i, depth };
    if is_literal(s, i, j) {
        assert(s.subrange(i, j)[0] == s[i]);
    } else if is_number(s, i, j) {
        assert(s.subrange(i, j)[0] == s[i]);
        lemma_number_span(s, i, j);
    } else if is_string(s, i, j) {
        lemma_string_token(s, i);
    } else if s[i] == OPEN_BRACKET {
        lemma_items_complete(s, i + 1, i + 1, j - 1, depth + 1, false);
    } else {
        lemma_items_complete(s, i + 1, i + 1, j - 1, depth + 1, true);
    }
}

/// An item of the grammar is read as that item.
proof fn lemma_item_complete(s: Seq<u8>, i: int, j: int, depth: int, members: bool)
    requires
        is_item(s, i, j, members),
        j == s.len() || !continues_number(s[j]),
    ensures
        ({
            let at = State { input: s, offset: i, depth };
            &&& item_value(at, members) is Ok
            &&& value_at(item_value(at, members)->Ok_0) is Ok
            &&& drain(
                value_at(item_value(at, members)->Ok_0)->Ok_0.0,
                value_at(item_value(at, members)->Ok_0)->Ok_0.1,
            ) == Ok::<State, ErrorKind>(at.at(j, depth))
        }),
    decreases j - i, 1int,
{
    if members {
        let (a, c, b) = choose|a: int, c: int, b: int|
            i < a < c <= b < j && #[trigger] is_string(s, i, a) && all_ws(s, a, c - 1) && s[c
                - 1] == COLON && #[trigger] all_ws(s, c, b) && is_value(s, b, j);
        lemma_string_token(s, i);
        lemma_ws_end_at(s, a, c - 1);
        lemma_value_first(s, b, j);
        lemma_ws_end_at(s, c, b);
        lemma_value_complete(s, b, j, depth);
    } else {
        lemma_value_complete(s, i, j, depth);
    }
}

/// The items of a container in the grammar, with its closing delimiter
/// behind them, are pulled one after another until the container has ended:
/// from the start of the container all of them, from behind an item the rest.
pub proof fn lemma_items_complete(
    s: Seq<u8>,
    start: int,
    x: int,
    e: int,
    depth: int,
    members: bool,
)
    requires
        0 <= start <= x <= e < s.len(),
        s[e] == closer(members),
        if x == start {
            is_items(s, start, e, members)
        } else {
            is_rest(s, x, e, members)
        },
    ensures
        drain_items(State { input: s, offset: x, depth }, start, depth, members) == Ok::<
            State,
            ErrorKind,
        >(State { input: s, offset: e + 1, depth: depth - 1 }),
    decreases e - x, 2int,
{
    let st = State { input: s, offset: x, depth };
    lemma_pull(st, start, depth, members);
    if x != start {
        assert(skip_to(st, depth) == Ok::<State, ErrorKind>(st));
    }
    // where the list of items starts, if there is one
    let from = if x == start {
        if all_ws(s, start, e) {
            e
        } else {
            start
        }
    } else {
        let r = choose|r: int|
            x <= r <= e && #[trigger] all_ws(s, x, r) && (r == e || (s[r] == COMMA && is_list(
                s,
                r + 1,
                e,
                members,
            )));
        lemma_ws_end_at(s, x, r);
        if r == e {
            e
        } else {
            r + 1
        }
    };
    if from == e {
        lemma_ws_end_at(s, x, e);
    } else {
        let (p, q, r) = choose|p: int, q: int, r: int|
            from <= p < q <= r <= e && #[trigger] all_ws(s, from, p) && is_item(s, p, q, members)
                && #[trigger] all_ws(s, q, r) && (r == e || (s[r] == COMMA && is_list(
                s,
                r + 1,
                e,
                members,
            )));
        lemma_item_first(s, p, q, members);
        lemma_ws_end_at(s, from, p);
        let at = State { input: s, offset: p, depth };
        assert(element_slot(st, start, depth, closer(members)) == Ok::<Slot, ErrorKind>(
            Slot::Element(at),
        ));
        if q < r {
            assert(is_ws(s[q]));
        }
        lemma_item_complete(s, p, q, depth, members);
        lemma_value_at(item_value(at, members)->Ok_0);
        lemma_item_value_sound(at, members);
        lemma_rest_intro(s, q, r, e, members);
        lemma_items_complete(s, start, q, e, depth, members);
    }
}

/// A value that was read to its end lies behind where it began, and what
/// it opened is closed.
pub proof fn lemma_drain_moves_on(token: Token, st: State)
    requires
        0 <= st.offset <= st.input.len(),
        drain(token, st) is Ok,
    ensures
        ({
            let end = drain(token, st)->Ok_0;
            &&& end.input == st.input
            &&& st.offset <= end.offset <= st.input.len()
            &&& end.depth == if token.opens() {
                st.depth - 1
            } else {
                st.depth
            }
            &&& token.opens() ==> st.offset < end.offset
        }),
{
    match token {
        Token::Array => {
            lemma_drain_items_sound(st, st.offset, st.depth, false);
        },
        Token::Object => {
            lemma_drain_items_sound(st, st.offset, st.depth, true);
        },
        _ => {},
    }
}

/// One round of reading a container to its end: an error in the pull or in
/// the child is the error of the whole; the end of the container is the end
/// of the reading; and behind a child that was read to its end, the handle
/// may be used again and the rest is read from there. In particular, a pull
/// that hands out a child has moved the cursor on, and so has the reading of
/// the child.
pub proof fn lemma_drain_round(st: State, start: int, depth: int, members: bool)
    requires
        handle_wf(start, depth, st),
    ensures
        match pull(st, start, depth, members) {
            Err(kind) => drain_items(st, start, depth, members) == Err::<State, ErrorKind>(kind)
                && drain_items_fail(st, start, depth, members) == pull_fail(
                st,
                start,
                depth,
                members,
            ),
            Ok(Pull::End(after)) => drain_items(st, start, depth, members) == Ok::<
                State,
                ErrorKind,
            >(after),
            Ok(Pull::Element(token, after)) => {
                &&& moved_on(st, after)
                &&& after.wf()
                &&& match drain(token, after) {
                    Err(kind) => {
                        &&& drain_items(st, start, depth, members) == Err::<State, ErrorKind>(
                            kind,
                        )
                        &&& drain_items_fail(st, start, depth, members) == drain_fail(
                            token,
                            after,
                        )
                    },
                    Ok(next) => {
                        &&& moved_on(st, next)
                        &&& handle_wf(start, depth, next)
                        &&& drain_items(st, start, depth, members) == drain_items(
                            next,
                            start,
                            depth,
                            members,
                        )
                        &&& drain_items_fail(st, start, depth, members) == drain_items_fail(
                            next,
                            start,
                            depth,
                            members,
                        )
                    },
                }
            },
        },
{
    if depth <= st.depth {
        if members {
            lemma_object_next_leads(st, start, depth);
        } else {
            lemma_array_next_leads(st, start, depth);
        }
    }
    if let Ok(Pull::Element(token, after)) = pull(st, start, depth, members) {
        lemma_leads_order(st, after, depth);
        if drain(token, after) is Ok {
            lemma_drain_moves_on(token, after);
        }
    }
}

/// The parser and the grammar agree. The value at the start of the input
/// can be pulled and read to its end, every container in it pulled until it
/// has ended, and the parse be ended then, if and only if the input is a
/// JSON text: one well-formed value with nothing but whitespace around it.
pub proof fn lemma_parses_iff_json_text(s: Seq<u8>)
    ensures
        parse_all(s) is Ok <==> is_json_text(s),
{
    let at = origin(s).skip_ws();
    lemma_ws_end(s, 0);
    if parse_all(s) is Ok {
        let (token, after) = value_at(at)->Ok_0;
        let end = drain(token, after)->Ok_0;
        lemma_drain_sound(at);
        assert(skip_to(end, 0) == Ok::<State, ErrorKind>(end));
        lemma_ws_end(s, end.offset);
        assert(all_ws(s, 0, at.offset));
        assert(all_ws(s, end.offset, s.len() as int));
        assert(is_json_text(s));
    }
    if is_json_text(s) {
        let (p, q) = choose|p: int, q: int|
            #[trigger] all_ws(s, 0, p) && is_value(s, p, q) && #[trigger] all_ws(
                s,
                q,
                s.len() as int,
            );
        lemma_value_first(s, p, q);
        lemma_ws_end_at(s, 0, p);
        if q < s.len() {
            assert(is_ws(s[q]));
        }
        lemma_value_complete(s, p, q, 0);
        let end = at.at(q, 0);
        assert(skip_to(end, 0) == Ok::<State, ErrorKind>(end));
        lemma_ws_end_at(s, q, s.len() as int);
    }
}

} // verus!
