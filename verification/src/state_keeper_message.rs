//! What the keeper is told: the events that arrive on its inbound queue.

use crate::client_message::ClientMessage;
use futures::channel::mpsc::UnboundedSender;
use vstd::prelude::*;

verus! {

/// An event for the keeper, as a mathematical value.  The queue handle that
/// comes with a new client is left out: nothing that the keeper decides
/// depends on it.
pub enum EventView {
    NewClient { address: Seq<char> },
    ClientGone { address: Seq<char> },
    Message { source: Seq<char>, text: Seq<char> },
}

/// An event for the keeper.
pub enum StateKeeperMessage {
    /// A connection was accepted from `address`; `sender` is the handle of
    /// its outbound queue.
    NewClient { address: String, sender: UnboundedSender<ClientMessage> },
    /// The connection from `address` has ended.
    ClientGone { address: String },
    /// The client at `source` has sent the line `text`.
    Message { source: String, text: String },
}

impl View for StateKeeperMessage {
    type V = EventView;

    open spec fn view(&self) -> EventView {
        match self {
            StateKeeperMessage::NewClient { address, sender } => EventView::NewClient {
                address: address@,
            },
            StateKeeperMessage::ClientGone { address } => EventView::ClientGone {
                address: address@,
            },
            StateKeeperMessage::Message { source, text } => EventView::Message {
                source: source@,
                text: text@,
            },
        }
    }
}

} // verus!
