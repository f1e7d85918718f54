//! The typed values of the protocol.

pub mod command;
pub mod response;

pub use command::{Command, Language};
pub use response::Response;
use vstd::prelude::*;

verus! {

/// The three states of a POP3 session. The codec itself never consults it:
/// which command is legal in which state is for the caller to decide.
#[derive(Clone)]
pub enum State {
    Authorization,
    Transaction,
    Update,
}

} // verus!
