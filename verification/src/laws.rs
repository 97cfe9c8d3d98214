//! What holds of every sequence of calls.

use vstd::prelude::*;
use crate::ascii::{OPEN_BRACE, OPEN_BRACKET};
use crate::document::{drain, drain_items, lemma_drain_moves_on, lemma_drain_round, pull};
use crate::error::ErrorKind;
use crate::grammar::{
    is_number_byte, lemma_number_end, lemma_string_token, lemma_ws_end, number_end,
    string_token,
};
use crate::model::{
    array_next, finalize_spec, lemma_skip_to, lemma_value_at, object_next, skip_step, skip_to,
    value_at, Pull, PullMember, State, Token,
};
use crate::trail::{
    depth_counts_open, is_plain, leads_to, lemma_array_next_leads, lemma_leads_depth,
    lemma_leads_lower, lemma_leads_order, lemma_leads_plain, lemma_leads_step,
    lemma_leads_trans, lemma_object_next_leads, lemma_skip_from_path, lemma_skip_leads,
    lemma_value_leads, lemma_ws_leads, origin,
};
use crate::value::handle_wf;

verus! {

/// A call that moves the cursor and keeps count of the nesting by itself.
pub enum Call {
    /// `Parser::skip_ws`.
    SkipWs,
    /// `Parser::parse_number`.
    Number,
    /// `Parser::parse_string`.
    String,
    /// `Parser::parse_array`.
    OpenArray,
    /// `Parser::parse_object`.
    OpenObject,
    /// `Val::from`.
    From,
    /// `Parser::value`.
    Value,
    /// `Parser::ascend_to` with this target depth.
    AscendTo { depth: int },
    /// `Array::next` on the handle with these fields.
    ArrayNext { start: int, depth: int },
    /// `Object::next` on the handle with these fields.
    ObjectNext { start: int, depth: int },
    /// `Parser::finalize`.
    Finalize,
}

/// The state in which a call that may be made in state `st`, and succeeds,
/// leaves the parser; `None` where the call may not be made or fails. A
/// `next` on a handle whose container has ended succeeds and reads nothing.
pub open spec fn after_call(st: State, call: Call) -> Option<State> {
    match call {
        Call::SkipWs => if st.wf() {
            Some(st.skip_ws())
        } else {
            None
        },
        Call::Number => match number_end(st.input, st.offset) {
            Some(end) if st.wf() => Some(st.at(end, st.depth)),
            _ => None,
        },
        Call::String => match string_token(st.input, st.offset) {
            Ok(close) if st.wf() => Some(st.at(close + 1, st.depth)),
            _ => None,
        },
        Call::OpenArray => if st.wf() && st.sees(OPEN_BRACKET) {
            Some(st.at(st.offset + 1, st.depth + 1))
        } else {
            None
        },
        Call::OpenObject => if st.wf() && st.sees(OPEN_BRACE) {
            Some(st.at(st.offset + 1, st.depth + 1))
        } else {
            None
        },
        Call::From => match value_at(st.skip_ws()) {
            Ok((_, after)) if st.wf() => Some(after),
            _ => None,
        },
        Call::Value => match value_at(st.skip_ws()) {
            Ok((_, after)) if st.wf() => Some(after),
            _ => None,
        },
        Call::AscendTo { depth } => match skip_to(st, depth) {
            Ok(reached) if st.wf() && depth >= 0 => Some(reached),
            _ => None,
        },
        Call::ArrayNext { start, depth } => match array_next(st, start, depth) {
            Ok(Pull::Element(_, after)) if handle_wf(start, depth, st) => Some(after),
            Ok(Pull::End(after)) if handle_wf(start, depth, st) => Some(after),
            _ => None,
        },
        Call::ObjectNext { start, depth } => match object_next(st, start, depth) {
            Ok(PullMember::Member(_, _, after)) if handle_wf(start, depth, st) => Some(after),
            Ok(PullMember::End(after)) if handle_wf(start, depth, st) => Some(after),
            _ => None,
        },
        Call::Finalize => match finalize_spec(st) {
            Ok(end) if st.wf() => Some(end),
            _ => None,
        },
    }
}

/// The state after a sequence of calls, each made in the state that the one
/// before it left; `None` as soon as one may not be made or fails.
pub open spec fn after_calls(st: State, calls: Seq<Call>) -> Option<State>
    decreases calls.len(),
{
    if calls.len() == 0 {
        Some(st)
    } else {
        match after_call(st, calls[0]) {
            Some(next) => after_calls(next, calls.drop_first()),
            None => None,
        }
    }
}

/// The lowest depth that a call lets the cursor pass through before it ends.
pub open spec fn floor_of(st: State, call: Call) -> int {
    match call {
        Call::AscendTo { depth } => if depth < st.depth {
            depth + 1
        } else {
            st.depth
        },
        Call::ArrayNext { start, depth } => depth,
        Call::ObjectNext { start, depth } => depth,
        Call::Finalize => 0,
        _ => st.depth,
    }
}

/// Every call follows the path of tokens from the state it began in, and
/// leaves the cursor within the input.
pub proof fn lemma_call_leads(st: State, call: Call)
    requires
        after_call(st, call) is Some,
    ensures
        leads_to(st, after_call(st, call)->0, floor_of(st, call)),
        after_call(st, call)->0.wf(),
        floor_of(st, call) >= 0,
{
    let after = after_call(st, call)->0;
    match call {
        Call::SkipWs => {
            lemma_ws_end(st.input, st.offset);
            lemma_ws_leads(st, st.depth);
        },
        Call::Number => {
            lemma_number_end(st.input, st.offset);
            assert forall|k: int| st.offset <= k < after.offset implies is_plain(
                #[trigger] st.input[k],
            ) by {
                assert(is_number_byte(st.input[k]));
            }
            lemma_leads_plain(st, after.offset, st.depth);
        },
        Call::String => {
            lemma_string_token(st.input, st.offset);
            assert(skip_step(st) == Ok::<State, ErrorKind>(after));
            lemma_leads_step(st, st.depth);
        },
        Call::OpenArray => {
            assert(skip_step(st) == Ok::<State, ErrorKind>(after));
            lemma_leads_step(st, st.depth);
        },
        Call::OpenObject => {
            assert(skip_step(st) == Ok::<State, ErrorKind>(after));
            lemma_leads_step(st, st.depth);
        },
        Call::From => {
            lemma_ws_end(st.input, st.offset);
            lemma_ws_leads(st, st.depth);
            lemma_value_at(st.skip_ws());
            lemma_value_leads(st.skip_ws());
            lemma_leads_trans(st, st.skip_ws(), after, st.depth);
        },
        Call::Value => {
            lemma_ws_end(st.input, st.offset);
            lemma_ws_leads(st, st.depth);
            lemma_value_at(st.skip_ws());
            lemma_value_leads(st.skip_ws());
            lemma_leads_trans(st, st.skip_ws(), after, st.depth);
        },
        Call::AscendTo { depth } => {
            lemma_skip_to(st, depth);
            lemma_skip_leads(st, depth);
        },
        Call::ArrayNext { start, depth } => {
            if depth <= st.depth {
                lemma_array_next_leads(st, start, depth);
            }
        },
        Call::ObjectNext { start, depth } => {
            if depth <= st.depth {
                lemma_object_next_leads(st, start, depth);
            }
        },
        Call::Finalize => {
            let k = skip_to(st, 0)->Ok_0;
            lemma_skip_to(st, 0);
            lemma_skip_leads(st, 0);
            lemma_ws_end(k.input, k.offset);
            lemma_ws_leads(k, 0);
            lemma_leads_lower(st, k, 1, 0);
            lemma_leads_trans(st, k, after, 0);
        },
    }
}

/// The depth invariant. After any sequence of calls from the start of the
/// input, the depth is the number of containers that are open and not yet
/// closed at the cursor, and it is not negative.
pub proof fn lemma_depth_counts_open(input: Seq<u8>, calls: Seq<Call>)
    ensures
        after_calls(origin(input), calls) matches Some(st) ==> depth_counts_open(st) && st.depth
            >= 0,
{
    lemma_depth_kept(origin(input), calls);
}

/// The depth invariant, from any state in which it holds.
pub proof fn lemma_depth_kept(st: State, calls: Seq<Call>)
    requires
        depth_counts_open(st),
        st.depth >= 0,
    ensures
        after_calls(st, calls) matches Some(end) ==> depth_counts_open(end) && end.depth >= 0,
    decreases calls.len(),
{
    if calls.len() > 0 {
        if let Some(next) = after_call(st, calls[0]) {
            lemma_call_leads(st, calls[0]);
            lemma_leads_lower(st, next, floor_of(st, calls[0]), 0);
            lemma_leads_order(st, next, 0);
            lemma_leads_trans(origin(st.input), st, next, 0);
            lemma_depth_kept(next, calls.drop_first());
        }
    }
}

/// Whether the call is a `next` on a handle whose children lie deeper than
/// `depth`.
pub open spec fn is_below(call: Call, depth: int) -> bool {
    match call {
        Call::ArrayNext { start, depth: d } => d > depth,
        Call::ObjectNext { start, depth: d } => d > depth,
        _ => false,
    }
}

/// Whether every call is a `next` on a handle whose children lie deeper
/// than `depth`.
pub open spec fn calls_below(calls: Seq<Call>, depth: int) -> bool {
    forall|i: int| 0 <= i < calls.len() ==> is_below(#[trigger] calls[i], depth)
}

/// Calls on a child and on what lies in it follow the path and stay in the
/// child until it is closed.
pub proof fn lemma_calls_below_lead(st: State, calls: Seq<Call>, depth: int)
    requires
        calls_below(calls, depth),
        after_calls(st, calls) is Some,
    ensures
        leads_to(st, after_calls(st, calls)->0, depth + 1),
    decreases calls.len(),
{
    if calls.len() > 0 {
        let next = after_call(st, calls[0])->0;
        lemma_call_leads(st, calls[0]);
        lemma_leads_lower(st, next, floor_of(st, calls[0]), depth + 1);
        assert forall|i: int| 0 <= i < calls.drop_first().len() implies is_below(
            #[trigger] calls.drop_first()[i],
            depth,
        ) by {
            assert(calls.drop_first()[i] == calls[i + 1]);
        }
        lemma_calls_below_lead(next, calls.drop_first(), depth);
        lemma_leads_trans(st, next, after_calls(st, calls)->0, depth + 1);
    }
}

/// Skip-ahead. Let a container with the handle fields `start` and `depth`
/// have handed out a child container, the parser then being in the state
/// `opened`, one level down. Whatever is pulled from the child and from what lies in it, be
/// it nothing, a part or all of it, the parent's next `next` finds the same
/// separator and so the same sibling, and leaves the parser in the same state.
pub proof fn lemma_skip_ahead(
    opened: State,
    start: int,
    depth: int,
    some: Seq<Call>,
    all: Seq<Call>,
)
    requires
        start < opened.offset,
        opened.depth == depth + 1,
        calls_below(some, depth),
        calls_below(all, depth),
        after_calls(opened, some) is Some,
        after_calls(opened, all) is Some,
    ensures
        array_next(after_calls(opened, some)->0, start, depth) == array_next(
            after_calls(opened, all)->0,
            start,
            depth,
        ),
        object_next(after_calls(opened, some)->0, start, depth) == object_next(
            after_calls(opened, all)->0,
            start,
            depth,
        ),
{
    let a = after_calls(opened, some)->0;
    let b = after_calls(opened, all)->0;
    lemma_calls_below_lead(opened, some, depth);
    lemma_calls_below_lead(opened, all, depth);
    lemma_leads_order(opened, a, depth + 1);
    lemma_leads_order(opened, b, depth + 1);
    lemma_leads_depth(opened, a, depth + 1);
    lemma_leads_depth(opened, b, depth + 1);
    lemma_skip_from_path(opened, a, depth + 1, depth);
    lemma_skip_from_path(opened, b, depth + 1, depth);
}

/// Pulling from a container until it has ended follows the path, at the
/// depth of its children or above until it is closed.
pub proof fn lemma_drain_items_leads(st: State, start: int, depth: int, members: bool)
    requires
        handle_wf(start, depth, st),
        drain_items(st, start, depth, members) is Ok,
    ensures
        leads_to(st, drain_items(st, start, depth, members)->Ok_0, depth),
    decreases st.input.len() - st.offset, 0int,
{
    lemma_drain_round(st, start, depth, members);
    if depth <= st.depth {
        if members {
            lemma_object_next_leads(st, start, depth);
        } else {
            lemma_array_next_leads(st, start, depth);
        }
    }
    if let Ok(Pull::Element(token, after)) = pull(st, start, depth, members) {
        let next = drain(token, after)->Ok_0;
        lemma_drain_leads(token, after);
        lemma_leads_lower(after, next, after.depth, depth);
        lemma_drain_items_leads(next, start, depth, members);
        lemma_leads_trans(st, after, next, depth);
        lemma_leads_trans(st, next, drain_items(st, start, depth, members)->Ok_0, depth);
    }
}

/// Reading a value to its end follows the path and never leaves the depth
/// it began at before the value has ended.
pub proof fn lemma_drain_leads(token: Token, st: State)
    requires
        st.wf(),
        token.opens() ==> st.depth >= 1,
        drain(token, st) is Ok,
    ensures
        leads_to(st, drain(token, st)->Ok_0, st.depth),
    decreases st.input.len() - st.offset, 1int,
{
    match token {
        Token::Array => {
            lemma_drain_items_leads(st, st.offset, st.depth, false);
        },
        Token::Object => {
            lemma_drain_items_leads(st, st.offset, st.depth, true);
        },
        _ => {},
    }
}

/// Skipping a container is reading it to its end. Where a container that
/// was handed out in state `st` can be read to its end, skipping ahead to
/// the depth around it ends in the same state.
pub proof fn lemma_skip_is_drain(token: Token, st: State)
    requires
        st.wf(),
        st.depth >= 1,
        token.opens(),
        drain(token, st) is Ok,
    ensures
        skip_to(st, st.depth - 1) == drain(token, st),
{
    lemma_drain_leads(token, st);
    lemma_drain_moves_on(token, st);
    lemma_skip_from_path(st, drain(token, st)->Ok_0, st.depth, st.depth - 1);
}

} // verus!
