//! Reading values to their end, and validating a whole text.

use vstd::prelude::*;
use crate::document::{
    drain, drain_items, drain_items_fail, is_json_text, lemma_drain_moves_on, lemma_drain_round,
    lemma_parses_iff_json_text, parse_all,
};
use crate::error::Error;
use crate::grammar::lemma_ws_end;
use crate::model::{lemma_value_at, value_at};
use crate::parser::parse;
use crate::value::{Array, Object, Val};

verus! {

impl<'a, 'buf> Array<'a, 'buf> {
    /// Pulls every element that is left and reads each to its end.
    pub fn drain(self) -> (r: Result<(), Error>)
        requires
            self.wf(),
        ensures
            final(self.parser).wf(),
            final(self.parser)@.ahead_of(old(self.parser)@),
            match drain_items(old(self.parser)@, self.start as int, self.depth as int, false) {
                Ok(end) => r is Ok && final(self.parser)@ == end,
                Err(kind) => r matches Err(e) && e.kind == kind && final(self.parser)@
                    == drain_items_fail(
                    old(self.parser)@,
                    self.start as int,
                    self.depth as int,
                    false,
                ),
            },
        decreases self.parser@.input.len() - self.parser@.offset, 0int,
    {
        let mut this = self;
        let ghost first = this.parser@;
        let ghost start = this.start as int;
        let ghost depth = this.depth as int;
        loop
            invariant
                this.wf(),
                this.start == start,
                this.depth == depth,
                first == old(self.parser)@,
                first.offset <= this.parser@.offset,
                this.parser@.input == first.input,
                start == self.start,
                depth == self.depth,
                *final(this.parser) == *final(self.parser),
                drain_items(this.parser@, start, depth, false) == drain_items(
                    first,
                    start,
                    depth,
                    false,
                ),
                drain_items_fail(this.parser@, start, depth, false) == drain_items_fail(
                    first,
                    start,
                    depth,
                    false,
                ),
            decreases this.parser@.input.len() - this.parser@.offset,
        {
            let ghost before = this.parser@;
            proof {
                lemma_drain_round(before, start, depth, false);
            }
            let pulled = this.next();
            match pulled {
                Err(e) => {
                    return Err(e);
                },
                Ok(None) => {
                    return Ok(());
                },
                Ok(Some(child)) => {
                    let read = child.drain();
                    if let Err(e) = read {
                        return Err(e);
                    }
                },
            }
        }
    }
}

impl<'a, 'buf> Object<'a, 'buf> {
    /// Pulls every member that is left and reads each value to its end.
    pub fn drain(self) -> (r: Result<(), Error>)
        requires
            self.wf(),
        ensures
            final(self.parser).wf(),
            final(self.parser)@.ahead_of(old(self.parser)@),
            match drain_items(old(self.parser)@, self.start as int, self.depth as int, true) {
                Ok(end) => r is Ok && final(self.parser)@ == end,
                Err(kind) => r matches Err(e) && e.kind == kind && final(self.parser)@
                    == drain_items_fail(
                    old(self.parser)@,
                    self.start as int,
                    self.depth as int,
                    true,
                ),
            },
        decreases self.parser@.input.len() - self.parser@.offset, 0int,
    {
        let mut this = self;
        let ghost first = this.parser@;
        let ghost start = this.start as int;
        let ghost depth = this.depth as int;
        loop
            invariant
                this.wf(),
                this.start == start,
                this.depth == depth,
                first == old(self.parser)@,
                first.offset <= this.parser@.offset,
                this.parser@.input == first.input,
                start == self.start,
                depth == self.depth,
                *final(this.parser) == *final(self.parser),
                drain_items(this.parser@, start, depth, true) == drain_items(
                    first,
                    start,
                    depth,
                    true,
                ),
                drain_items_fail(this.parser@, start, depth, true) == drain_items_fail(
                    first,
                    start,
                    depth,
                    true,
                ),
            decreases this.parser@.input.len() - this.parser@.offset,
        {
            let ghost before = this.parser@;
            proof {
                lemma_drain_round(before, start, depth, true);
            }
            let pulled = this.next();
            match pulled {
                Err(e) => {
                    return Err(e);
                },
                Ok(None) => {
                    return Ok(());
                },
                Ok(Some((_, child))) => {
                    let read = child.drain();
                    if let Err(e) = read {
                        return Err(e);
                    }
                },
            }
        }
    }
}

impl<'a, 'buf> Val<'a, 'buf> {
    /// How much of the input lies behind the cursor of a handle.
    pub open spec fn left(&self) -> int {
        match self {
            Val::Array(a) => a.parser@.input.len() - a.parser@.offset,
            Val::Object(o) => o.parser@.input.len() - o.parser@.offset,
            _ => 0,
        }
    }

    /// Reads the value to its end: of a scalar nothing is left to read; of
    /// an array or an object every child is pulled and read to its end.
    pub fn drain(self) -> (r: Result<(), Error>)
        requires
            self.wf(),
        ensures
            !self.is_handle() ==> r is Ok,
            self matches Val::Array(a) ==> final(a.parser).wf() && final(a.parser)@.ahead_of(
                a.parser@,
            ),
            self matches Val::Object(o) ==> final(o.parser).wf() && final(o.parser)@.ahead_of(
                o.parser@,
            ),
            self matches Val::Array(a) ==> match drain_items(
                a.parser@,
                a.start as int,
                a.depth as int,
                false,
            ) {
                Ok(end) => r is Ok && final(a.parser)@ == end,
                Err(kind) => r matches Err(e) && e.kind == kind && final(a.parser)@
                    == drain_items_fail(a.parser@, a.start as int, a.depth as int, false),
            },
            self matches Val::Object(o) ==> match drain_items(
                o.parser@,
                o.start as int,
                o.depth as int,
                true,
            ) {
                Ok(end) => r is Ok && final(o.parser)@ == end,
                Err(kind) => r matches Err(e) && e.kind == kind && final(o.parser)@
                    == drain_items_fail(o.parser@, o.start as int, o.depth as int, true),
            },
        decreases self.left(), 1int,
    {
        match self {
            Val::Array(a) => a.drain(),
            Val::Object(o) => o.drain(),
            _ => Ok(()),
        }
    }
}

/// Whether `json` is a JSON text: one well-formed value, with nothing but
/// whitespace around it. The value is pulled and read to its end, and the
/// parse is ended; the first error is returned.
pub fn validate(json: &[u8]) -> (r: Result<(), Error>)
    ensures
        r is Ok <==> is_json_text(json@),
        match parse_all(json@) {
            Ok(_) => r is Ok,
            Err(kind) => r matches Err(e) && e.kind == kind,
        },
{
    let mut p = parse(json);
    proof {
        lemma_parses_iff_json_text(json@);
        lemma_ws_end(json@, 0);
        lemma_value_at(p@.skip_ws());
    }
    let ghost at = p@.skip_ws();
    let v = p.value();
    let v = match v {
        Ok(v) => v,
        Err(e) => {
            return Err(e);
        },
    };
    proof {
        let (token, after) = value_at(at)->Ok_0;
        if drain(token, after) is Ok {
            lemma_drain_moves_on(token, after);
        }
    }
    let read = v.drain();
    if let Err(e) = read {
        return Err(e);
    }
    p.finalize()
}

} // verus!
