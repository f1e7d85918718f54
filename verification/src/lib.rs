//! A codec for the POP3 wire protocol.
//!
//! Commands and responses are parsed from byte slices that may hold only the
//! beginning of a message, and commands are rendered back to their wire form.
//! Every parser is verified against a specification function over `Seq<u8>`.

pub mod framing;
pub mod parse;
pub mod roundtrip;
pub mod streaming;
pub mod text;
pub mod types;
pub mod utils;

pub use utils::calculate_apop_digest;
