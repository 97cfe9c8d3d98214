//! A zero-copy, pull-style JSON parser.
//!
//! A [`Parser`] is a cursor over one contiguous byte buffer together with a
//! nesting depth. Values are pulled one at a time; arrays and objects are
//! handed out as handles that borrow the parser exclusively, and a handle that
//! is abandoned part-way is skipped mechanically by the enclosing container.
//! Numbers and strings are views into the buffer: nothing is copied, decoded
//! or allocated.
//!
//! - [`ascii`], [`grammar`]: the bytes and the tokens of the grammar.
//! - [`model`]: every operation as a function on the parser's mathematical
//!   state; the contracts are stated over these.
//! - [`parser`], [`span`], [`value`]: the parser, the views it returns, and
//!   the handles.
//! - [`validate`]: reading values to their end, and validating a text.
//! - [`trail`], [`laws`]: the depth counts the open containers, and skipping
//!   an abandoned child is reading it to its end.
//! - [`document`]: the grammar of a JSON text, and the agreement of the
//!   parser with it.

pub mod ascii;
pub mod document;
pub mod error;
pub mod grammar;
pub mod laws;
pub mod model;
pub mod parser;
pub mod span;
pub mod trail;
pub mod validate;
pub mod value;

pub use error::{Error, ErrorKind};
pub use parser::{parse, Buffer, Nesting, Parser};
pub use span::{key, string, Key, Number, String};
pub use validate::validate;
pub use value::{Array, Object, Val};
