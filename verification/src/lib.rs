//! A client library for interactive evaluation servers that speak one of two
//! wire protocols: a length-prefixed binary dictionary format (nREPL-style
//! bencode) or a line-delimited structured-text format (pREPL-style).
//!
//! The library is transport-free: clients consume bytes fed by the caller and
//! produce bytes for the caller to transmit, so all protocol logic is verified
//! while socket I/O stays outside.

pub mod bencode;
pub mod edn;
pub mod nrepl;
pub mod prepl;
pub mod repl;
pub mod util;

pub use repl::Repl;
pub use repl::Response;
