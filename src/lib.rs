//! The core of a small HTTP/1.1 server: a request parser, a route tree of
//! literal and parametric path patterns, handler dispatch, and a response
//! encoder, each with its behaviour stated and proved.
//!
//! - `types`: request methods.
//! - `text`: byte-string splitting, case mapping and decimal digits.
//! - `fields`: name/value mappings (headers, query, path parameters).
//! - `parse`: request messages from raw bytes.
//! - `request`: the body-reading request model and cookies.
//! - `router`: registration and lookup of route patterns.
//! - `response`: response values to HTTP/1.1 messages.
//! - `dispatch`: from request bytes to a response or a handler call.
//! - `tls`: choosing the private key of a certificate file.
pub mod dispatch;
pub mod fields;
pub mod parse;
pub mod request;
pub mod response;
pub mod router;
pub mod text;
pub mod tls;
pub mod types;
