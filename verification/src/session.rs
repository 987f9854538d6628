//! The two halves of a client's session, as far as they decide anything: the
//! ingress turns what was read from the connection into events for the
//! keeper, and the egress turns messages from the keeper into the text that
//! is written to the connection.

use crate::client_message::{listing, ClientMessage, ClientMessageView};
use crate::state_keeper_message::{EventView, StateKeeperMessage};
use crate::text::{decimal, push_digits};
use vstd::prelude::*;
use vstd::string::StringExecFns;

verus! {

/// What one read from the connection of `address` means to the keeper: an
/// empty read is the end of the stream, anything else is a line.
pub open spec fn event_of_read(address: Seq<char>, text: Seq<char>) -> EventView {
    if text.len() == 0 {
        EventView::ClientGone { address }
    } else {
        EventView::Message { source: address, text }
    }
}

/// The inbound half of a session.
pub struct Ingress {
    address: String,
    open: bool,
}

impl Ingress {
    /// The address of the client that the session belongs to.
    pub closed spec fn address(&self) -> Seq<char> {
        self.address@
    }

    /// Whether the end of the stream has not been seen yet.
    pub closed spec fn is_open(&self) -> bool {
        self.open
    }

    /// Returns the inbound half of a session with the client at `address`,
    /// before anything was read.
    pub fn new(address: String) -> (ingress: Ingress)
        ensures
            ingress.address() == address@,
            ingress.is_open(),
    {
        Ingress { address, open: true }
    }

    /// Tells whether the session still reads.
    pub fn reading(&self) -> (yes: bool)
        ensures
            yes == self.is_open(),
    {
        self.open
    }

    /// Takes what one read has appended to an empty text, and returns the
    /// event that it means.  An empty read ends the session: it yields the
    /// one `ClientGone` of the session, and whatever is handed in after it
    /// yields nothing.
    pub fn read(&mut self, text: String) -> (event: Option<StateKeeperMessage>)
        ensures
            final(self).address() == old(self).address(),
            final(self).is_open() == (old(self).is_open() && text@.len() > 0),
            old(self).is_open() ==> event is Some && event->Some_0@ == event_of_read(
                old(self).address(),
                text@,
            ),
            !old(self).is_open() ==> event is None,
    {
        if !self.open {
            None
        } else if text.as_str().is_empty() {
            self.open = false;
            Some(StateKeeperMessage::ClientGone { address: self.address.clone() })
        } else {
            Some(StateKeeperMessage::Message { source: self.address.clone(), text })
        }
    }
}

/// The text that is written for `message` when `count` messages were written
/// on the connection before it.
///
/// A state update is a header line with the count and then a line for each
/// entry.  An error notice is its text behind a mark.
pub open spec fn rendering(count: nat, message: ClientMessageView) -> Seq<char> {
    match message {
        ClientMessageView::StateUpdate { new_state } => "update #"@ + decimal(count as int)
            + ":\n"@ + listing(new_state),
        ClientMessageView::Error { message } => "Error: "@ + message,
    }
}

/// The outbound half of a session.
pub struct Egress {
    counter: u64,
}

impl Egress {
    /// How many messages have been written on the connection.
    pub closed spec fn written(&self) -> nat {
        self.counter as nat
    }

    /// Returns the outbound half of a session on which nothing was written
    /// yet.
    pub fn new() -> (egress: Egress)
        ensures
            egress.written() == 0,
    {
        Egress { counter: 0 }
    }

    /// Tells whether another message can be numbered.
    pub fn has_room(&self) -> (yes: bool)
        ensures
            yes == (self.written() < u64::MAX),
    {
        self.counter < u64::MAX
    }

    /// Returns the text to write for `message`, and counts the message.
    pub fn render(&mut self, message: &ClientMessage) -> (text: String)
        requires
            old(self).written() < u64::MAX,
        ensures
            text@ == rendering(old(self).written(), message@),
            final(self).written() == old(self).written() + 1,
    {
        let mut text = String::new();
        match message {
            ClientMessage::StateUpdate { new_state } => {
                text.append("update #");
                push_digits(&mut text, self.counter);
                text.append(":\n");
                let lines = new_state.to_text();
                text.append(lines.as_str());
            },
            ClientMessage::Error { message } => {
                text.append("Error: ");
                text.append(message.as_str());
            },
        }
        self.counter = self.counter + 1;
        assert(text@ =~= rendering(old(self).written(), message@));
        text
    }
}

} // verus!
