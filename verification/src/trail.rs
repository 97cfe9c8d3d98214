//! The path of the cursor through the input, and what follows from it: the
//! depth counts the containers that are open at the cursor, and a child that
//! was abandoned part-way is skipped to the same place as one that was read
//! to its end.

use vstd::prelude::*;
use crate::ascii::{CLOSE_BRACE, CLOSE_BRACKET, COMMA, QUOTE};
use crate::error::ErrorKind;
use crate::grammar::{
    has_word, is_close, is_number_byte, is_open, lemma_number_end, lemma_string_token,
    lemma_ws_end, string_token, ws_end,
};
use crate::model::{
    array_next, element_slot, false_word, key_at, lemma_skip_step, lemma_skip_to,
    lemma_value_at, null_word, object_next, skip_step, skip_to, true_word, value_at, Pull,
    PullMember, Slot, State, Token,
};
use crate::value::handle_open;

verus! {

/// Reading token by token from `a` arrives exactly at `b`, and in no state
/// before `b` is the depth below `floor`. A token is an opening delimiter,
/// which raises the depth, a closing one, which lowers it, a whole string, or
/// any other byte.
pub open spec fn leads_to(a: State, b: State, floor: int) -> bool
    decreases b.offset - a.offset,
{
    if a.offset >= b.offset {
        a == b
    } else {
        &&& a.depth >= floor
        &&& match skip_step(a) {
            Ok(next) => {
                proof {
                    lemma_skip_step(a);
                }
                next.offset <= b.offset && leads_to(next, b, floor)
            },
            Err(_) => false,
        }
    }
}

/// The start of the input, with nothing open.
pub open spec fn origin(input: Seq<u8>) -> State {
    State { input, offset: 0, depth: 0 }
}

/// The depth of `st` is the number of containers that are open and not yet
/// closed at its cursor: reading the input from its start, token by token,
/// arrives at the cursor with this depth, and the depth was never negative
/// on the way.
pub open spec fn depth_counts_open(st: State) -> bool {
    leads_to(origin(st.input), st, 0)
}

/// A byte that is a token by itself and leaves the depth alone.
pub open spec fn is_plain(b: u8) -> bool {
    b != QUOTE && !is_open(b) && !is_close(b)
}

/// One token is a path.
pub proof fn lemma_leads_step(a: State, floor: int)
    requires
        a.depth >= floor,
        skip_step(a) is Ok,
    ensures
        leads_to(a, skip_step(a)->Ok_0, floor),
{
    let next = skip_step(a)->Ok_0;
    lemma_skip_step(a);
    assert(leads_to(next, next, floor));
}

/// A path stays in one input and goes forward; where it does not move, it
/// changes nothing.
pub proof fn lemma_leads_order(a: State, b: State, floor: int)
    requires
        leads_to(a, b, floor),
    ensures
        a.input == b.input,
        a.offset <= b.offset,
        a.offset == b.offset ==> a == b,
    decreases b.offset - a.offset,
{
    if a.offset < b.offset {
        lemma_skip_step(a);
        lemma_leads_order(skip_step(a)->Ok_0, b, floor);
    }
}

/// On a path from a depth at the floor or above, the depth ends no more
/// than one below the floor.
pub proof fn lemma_leads_depth(a: State, b: State, floor: int)
    requires
        leads_to(a, b, floor),
        a.depth >= floor - 1,
    ensures
        b.depth >= floor - 1,
    decreases b.offset - a.offset,
{
    if a.offset < b.offset {
        lemma_skip_step(a);
        lemma_leads_depth(skip_step(a)->Ok_0, b, floor);
    }
}

/// Two paths that meet make one.
pub proof fn lemma_leads_trans(a: State, b: State, c: State, floor: int)
    requires
        leads_to(a, b, floor),
        leads_to(b, c, floor),
    ensures
        leads_to(a, c, floor),
    decreases b.offset - a.offset,
{
    if a.offset < b.offset {
        let next = skip_step(a)->Ok_0;
        lemma_skip_step(a);
        lemma_leads_trans(next, b, c, floor);
        lemma_leads_order(b, c, floor);
        lemma_leads_order(next, c, floor);
    }
}

/// A path holds for every lower floor too.
pub proof fn lemma_leads_lower(a: State, b: State, floor: int, lower: int)
    requires
        leads_to(a, b, floor),
        lower <= floor,
    ensures
        leads_to(a, b, lower),
    decreases b.offset - a.offset,
{
    if a.offset < b.offset {
        lemma_skip_step(a);
        lemma_leads_lower(skip_step(a)->Ok_0, b, floor, lower);
    }
}

/// Bytes that are neither quotes nor delimiters are passed one by one.
pub proof fn lemma_leads_plain(a: State, end: int, floor: int)
    requires
        0 <= a.offset <= end <= a.input.len(),
        a.depth >= floor,
        forall|k: int| a.offset <= k < end ==> is_plain(#[trigger] a.input[k]),
    ensures
        leads_to(a, a.at(end, a.depth), floor),
    decreases end - a.offset,
{
    if a.offset < end {
        assert(is_plain(a.input[a.offset]));
        lemma_leads_plain(a.at(a.offset + 1, a.depth), end, floor);
    }
}

/// Skipping follows the path, above the target depth until it is reached.
pub proof fn lemma_skip_leads(a: State, target: int)
    requires
        0 <= a.offset <= a.input.len(),
        skip_to(a, target) is Ok,
    ensures
        leads_to(a, skip_to(a, target)->Ok_0, target + 1),
    decreases a.input.len() - a.offset,
{
    if a.depth > target {
        let next = skip_step(a)->Ok_0;
        lemma_skip_step(a);
        lemma_skip_leads(next, target);
        lemma_skip_to(next, target);
    }
}

/// From anywhere on a path that stays above the target depth, skipping
/// ends in the same place.
pub proof fn lemma_skip_from_path(a: State, b: State, floor: int, target: int)
    requires
        leads_to(a, b, floor),
        target < floor,
    ensures
        skip_to(a, target) == skip_to(b, target),
    decreases b.offset - a.offset,
{
    if a.offset < b.offset {
        lemma_skip_step(a);
        lemma_skip_from_path(skip_step(a)->Ok_0, b, floor, target);
    }
}

/// Whitespace lies on the path.
pub proof fn lemma_ws_leads(st: State, floor: int)
    requires
        0 <= st.offset <= st.input.len(),
        st.depth >= floor,
    ensures
        leads_to(st, st.skip_ws(), floor),
{
    lemma_ws_end(st.input, st.offset);
    lemma_leads_plain(st, ws_end(st.input, st.offset), floor);
}

/// A word of plain bytes lies on the path.
proof fn lemma_word_leads(st: State, word: Seq<u8>, floor: int)
    requires
        has_word(st.input, st.offset, word),
        forall|k: int| 0 <= k < word.len() ==> is_plain(#[trigger] word[k]),
        st.depth >= floor,
    ensures
        leads_to(st, st.at(st.offset + word.len(), st.depth), floor),
{
    let end = st.offset + word.len();
    assert forall|k: int| st.offset <= k < end implies is_plain(#[trigger] st.input[k]) by {
        assert(st.input.subrange(st.offset, end)[k - st.offset] == st.input[k]);
        assert(is_plain(word[k - st.offset]));
    }
    lemma_leads_plain(st, end, floor);
}

/// Reading a value follows the path and never leaves the depth it began at.
pub proof fn lemma_value_leads(st: State)
    requires
        0 <= st.offset,
    ensures
        value_at(st) matches Ok((_, after)) ==> leads_to(st, after, st.depth),
{
    if let Ok((token, after)) = value_at(st) {
        lemma_value_at(st);
        match token {
            Token::Null => {
                lemma_word_leads(st, null_word(), st.depth);
            },
            Token::Boolean(b) => {
                if b {
                    lemma_word_leads(st, true_word(), st.depth);
                } else {
                    lemma_word_leads(st, false_word(), st.depth);
                }
            },
            Token::Number(_) => {
                lemma_number_end(st.input, st.offset);
                assert forall|k: int| st.offset <= k < after.offset implies is_plain(
                    #[trigger] st.input[k],
                ) by {
                    assert(is_number_byte(st.input[k]));
                }
                lemma_leads_plain(st, after.offset, st.depth);
            },
            Token::String(_) => {
                lemma_string_token(st.input, st.offset);
                assert(skip_step(st) == Ok::<State, ErrorKind>(after));
                lemma_leads_step(st, st.depth);
            },
            Token::Array => {
                assert(skip_step(st) == Ok::<State, ErrorKind>(after));
                lemma_leads_step(st, st.depth);
            },
            Token::Object => {
                assert(skip_step(st) == Ok::<State, ErrorKind>(after));
                lemma_leads_step(st, st.depth);
            },
        }
    }
}

/// What comes before an element follows the path and stays at the depth of
/// the container's children until the closing delimiter.
pub proof fn lemma_slot_leads(st: State, start: int, depth: int, close: u8)
    requires
        handle_open(start, depth, st),
        is_close(close),
    ensures
        element_slot(st, start, depth, close) matches Ok(Slot::Element(at)) ==> leads_to(
            st,
            at,
            depth,
        ) && handle_open(start, depth, at) && at.depth == depth,
        element_slot(st, start, depth, close) matches Ok(Slot::Closed(after)) ==> leads_to(
            st,
            after,
            depth,
        ) && after.wf() && after.depth == depth - 1 && start < after.offset,
{
    if st.offset == start {
        let w = st.skip_ws();
        lemma_ws_end(st.input, st.offset);
        lemma_ws_leads(st, depth);
        if w.sees(close) {
            let after = w.at(w.offset + 1, w.depth - 1);
            assert(skip_step(w) == Ok::<State, ErrorKind>(after));
            lemma_leads_step(w, depth);
            lemma_leads_trans(st, w, after, depth);
        }
    } else if let Ok(k) = skip_to(st, depth) {
        lemma_skip_to(st, depth);
        lemma_skip_leads(st, depth);
        lemma_leads_lower(st, k, depth + 1, depth);
        let w = k.skip_ws();
        lemma_ws_end(k.input, k.offset);
        lemma_ws_leads(k, depth);
        lemma_leads_trans(st, k, w, depth);
        if w.sees(COMMA) {
            let c = w.at(w.offset + 1, w.depth);
            assert(skip_step(w) == Ok::<State, ErrorKind>(c));
            lemma_leads_step(w, depth);
            lemma_ws_end(c.input, c.offset);
            lemma_ws_leads(c, depth);
            lemma_leads_trans(w, c, c.skip_ws(), depth);
            lemma_leads_trans(st, w, c.skip_ws(), depth);
        } else if w.sees(close) {
            let after = w.at(w.offset + 1, w.depth - 1);
            assert(skip_step(w) == Ok::<State, ErrorKind>(after));
            lemma_leads_step(w, depth);
            lemma_leads_trans(st, w, after, depth);
        }
    }
}

/// A key, its colon and the whitespace around it lie on the path.
pub proof fn lemma_key_leads(st: State)
    requires
        st.wf(),
    ensures
        key_at(st) matches Ok((_, after)) ==> leads_to(st, after, st.depth) && after.wf()
            && after.depth == st.depth && st.offset < after.offset,
{
    if let Ok((_, after)) = key_at(st) {
        let close = string_token(st.input, st.offset)->Ok_0;
        lemma_string_token(st.input, st.offset);
        let q = st.at(close + 1, st.depth);
        assert(skip_step(st) == Ok::<State, ErrorKind>(q));
        lemma_leads_step(st, st.depth);
        let w = q.skip_ws();
        lemma_ws_end(q.input, q.offset);
        lemma_ws_leads(q, st.depth);
        let c = w.at(w.offset + 1, w.depth);
        assert(skip_step(w) == Ok::<State, ErrorKind>(c));
        lemma_leads_step(w, st.depth);
        lemma_ws_end(c.input, c.offset);
        lemma_ws_leads(c, st.depth);
        lemma_leads_trans(st, q, w, st.depth);
        lemma_leads_trans(st, w, c, st.depth);
        lemma_leads_trans(st, c, after, st.depth);
    }
}

/// An array's `next` follows the path, at the depth of the elements or
/// above until the array is closed.
pub proof fn lemma_array_next_leads(st: State, start: int, depth: int)
    requires
        handle_open(start, depth, st),
    ensures
        array_next(st, start, depth) matches Ok(Pull::Element(token, after)) ==> leads_to(
            st,
            after,
            depth,
        ) && after.wf() && start < after.offset && st.offset < after.offset && after.depth
            == if token.opens() {
            depth + 1
        } else {
            depth
        },
        array_next(st, start, depth) matches Ok(Pull::End(after)) ==> leads_to(st, after, depth)
            && after.wf() && after.depth == depth - 1 && start < after.offset,
{
    lemma_slot_leads(st, start, depth, CLOSE_BRACKET);
    if let Ok(Slot::Element(at)) = element_slot(st, start, depth, CLOSE_BRACKET) {
        lemma_leads_order(st, at, depth);
        lemma_value_at(at);
        lemma_value_leads(at);
        if let Ok((_, after)) = value_at(at) {
            lemma_leads_trans(st, at, after, depth);
        }
    }
}

/// An object's `next` follows the path, at the depth of the members or
/// above until the object is closed.
pub proof fn lemma_object_next_leads(st: State, start: int, depth: int)
    requires
        handle_open(start, depth, st),
    ensures
        object_next(st, start, depth) matches Ok(PullMember::Member(_, token, after))
            ==> leads_to(st, after, depth) && after.wf() && start < after.offset && st.offset
            < after.offset && after.depth == if token.opens() {
            depth + 1
        } else {
            depth
        },
        object_next(st, start, depth) matches Ok(PullMember::End(after)) ==> leads_to(
            st,
            after,
            depth,
        ) && after.wf() && after.depth == depth - 1 && start < after.offset,
{
    lemma_slot_leads(st, start, depth, CLOSE_BRACE);
    if let Ok(Slot::Element(at)) = element_slot(st, start, depth, CLOSE_BRACE) {
        lemma_leads_order(st, at, depth);
        lemma_key_leads(at);
        if let Ok((_, colon)) = key_at(at) {
            lemma_value_at(colon);
            lemma_value_leads(colon);
            if let Ok((_, after)) = value_at(colon) {
                lemma_leads_trans(st, at, colon, depth);
                lemma_leads_trans(st, colon, after, depth);
            }
        }
    }
}

} // verus!
