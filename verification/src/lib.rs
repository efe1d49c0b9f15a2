//! A verified HTTP routing and request-dispatch core.
//!
//! The crate models the engine at the heart of a web framework: a path
//! matcher that resolves a method and path to a handler with extracted
//! parameters, an extractor pipeline that turns a raw request into typed
//! handler inputs, response encoding from composite parts, an ordered
//! middleware chain, and router composition (merge, nest, fallbacks).
//!
//! All wire data is byte-level (`Vec<u8>`), and every public operation is
//! specified against a mathematical model over `Seq<u8>`.

pub mod bytes;
pub mod dispatch;
pub mod extract;
pub mod handler;
pub mod http;
pub mod json;
pub mod middleware;
pub mod multipart;
pub mod pattern;
pub mod percent;
pub mod router;
