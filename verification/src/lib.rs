//! A zero-copy tokenizer for the Redis Serialization Protocol (RESP),
//! versions 2 and 3.
//!
//! The crate turns an in-memory text buffer holding one or more RESP
//! frames into a sequence of typed tokens.  Scalar payloads are borrowed
//! slices into the original buffer; aggregate frames (arrays, sets) are
//! decoded recursively.  Malformed input is reported through typed
//! errors, never a panic.
//!
//! The wire grammar itself is stated once, as a family of specification
//! functions over the buffer's character sequence ([`grammar`]), and the
//! executable lexer ([`lexer`]) is proved to follow that grammar exactly.
//! General facts about the grammar, such as round trips between encoding
//! and decoding, live in [`laws`].

pub mod grammar;
pub mod laws;
pub mod lexer;
pub mod token;
