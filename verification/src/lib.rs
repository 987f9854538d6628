//! A keeper of shared numbers.
//!
//! Many clients are connected at once, and each holds one number.  A client
//! sets its number by sending a line of text, and every change is shown to
//! all clients as a snapshot of the whole state.  One keeper owns the state
//! and handles the events of all connections one after the other.
//!
//! - `text` reads and writes the numbers of the line protocol.
//! - `roster` is the state as a mathematical value, with its operations.
//! - `client_message`, `client_state` and `state_keeper_message` hold the
//!   messages and records that travel between the tasks.
//! - `state` is the state that the keeper owns.
//! - `keeper` is the rule by which the keeper handles an event.
//! - `history` states what holds over whole histories of events.
//! - `session` is what the two halves of a client's session decide.
//! - `channel` names what is taken on trust from the `futures` crate.

pub mod channel;
pub mod client_message;
pub mod client_state;
pub mod history;
pub mod keeper;
pub mod roster;
pub mod session;
pub mod state;
pub mod state_keeper_message;
pub mod text;
