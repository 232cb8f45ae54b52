//! A backtracking parser-combinator engine over a cursor-based byte buffer,
//! with grammars for HTTP/1.1 request messages and WebSocket frames.
//!
//! The layers, leaves first:
//! - [`stream`]: the cursor buffer (owned bytes plus a read position, with
//!   mark/reset backtracking and fixed-width big-endian integer helpers);
//! - [`matcher`]: the typed parse-step abstraction ([`matcher::Matcher`]) and
//!   its error type;
//! - [`parser`]: the primitive parse steps and the combinators over them;
//! - [`http`]: the HTTP/1.1 request grammar, with a Content-Length-driven body;
//! - [`ws`]: the WebSocket frame grammar, with its variable-length extension.

pub mod http;
pub mod matcher;
pub mod parser;
pub mod stream;
pub mod ws;
