//! Protocol core of a small HTTP/1.1 server that serves one request per
//! connection.
//!
//! - [`text`]: searching, cutting and trimming byte strings, decimal numerals.
//! - [`http_request`]: the request and the parser that reads one from bytes.
//! - [`http_utils`]: status, content type, the bytes of a response, log lines.
//! - [`server`]: what the connection driver decides: when a request is
//!   complete, which handler answers it and what the handler replies.
//!
//! Every function states what it returns over sequences of bytes, and the
//! laws that tie the functions together are proved next to them. Sockets,
//! files, threads and the clock are the caller's business: the caller hands
//! in the bytes that it received and carries out the [`server::Action`]
//! that comes back.

pub mod http_request;
pub mod http_utils;
pub mod server;
pub mod text;
