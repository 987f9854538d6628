//! What the keeper holds for one registered client.

use crate::client_message::{ClientMessage, EntryView};
use futures::channel::mpsc::UnboundedSender;
use vstd::prelude::*;

verus! {

/// The record of one registered client.
pub struct ClientState {
    /// The client's identity: its remote address as text.
    pub address: String,
    /// The last number that the client has set, or 0.
    pub number: i64,
    /// The handle of the client's outbound queue.
    pub sender: UnboundedSender<ClientMessage>,
}

impl ClientState {
    /// The client as a snapshot shows it.
    pub open spec fn entry(&self) -> EntryView {
        EntryView { address: self.address@, number: self.number }
    }
}

} // verus!
