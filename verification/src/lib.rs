//! Parser combinators over byte and text cursors, for complete and for
//! streaming input.
//!
//! A parser takes a cursor and gives a value, a recoverable failure, an
//! unrecoverable failure or, in streaming mode, a request for more input.
//! Small parsers for tokens are put together by combinators for sequence,
//! choice and repetition. Every parser carries a contract: the relation
//! between the cursor before, the cursor after and the result.
pub mod ascii;
pub mod basic;
pub mod binary;
pub mod branch;
pub mod character;
pub mod chars;
pub mod error;
pub mod escape;
pub mod laws;
pub mod multi;
pub mod number;
pub mod parser;
pub mod recipes;
pub mod sequence;
pub mod stream;
pub mod text;
pub mod token;
pub mod unescape;

pub use crate::error::{ErrMode, ErrorKind, InputError, Needed, PResult, ParserError};
pub use crate::parser::Parser;
pub use crate::stream::{Bytes, Checkpoint, Cursor, Stream};
pub use crate::text::Text;
