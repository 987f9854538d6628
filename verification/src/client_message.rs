//! What the keeper hands to a client's outbound queue: a copy of the shared
//! state, or a notice that the client's last line was not understood.

use crate::text::{decimal, push_decimal};
use vstd::prelude::*;
use vstd::string::StringExecFns;

verus! {

/// One client as a snapshot shows it: who it is and the number it holds.
pub struct EntryView {
    pub address: Seq<char>,
    pub number: i64,
}

/// One client as a snapshot shows it: who it is and the number it holds.
#[derive(Debug, PartialEq, Eq)]
pub struct Entry {
    pub address: String,
    pub number: i64,
}

impl View for Entry {
    type V = EntryView;

    open spec fn view(&self) -> EntryView {
        EntryView { address: self.address@, number: self.number }
    }
}

/// A copy of the shared state at one moment: an entry for each client that
/// was registered then.  It holds plain values only, so nothing the keeper
/// does later can change it.
#[derive(Debug, PartialEq, Eq)]
pub struct Snapshot {
    pub entries: Vec<Entry>,
}

impl View for Snapshot {
    type V = Seq<EntryView>;

    open spec fn view(&self) -> Seq<EntryView> {
        Seq::new(self.entries@.len(), |i: int| self.entries@[i]@)
    }
}

/// A message for one client, as a mathematical value.
pub enum ClientMessageView {
    StateUpdate { new_state: Seq<EntryView> },
    Error { message: Seq<char> },
}

/// A message for one client.
#[derive(Debug, PartialEq, Eq)]
pub enum ClientMessage {
    /// The shared state has changed: here is all of it.
    StateUpdate { new_state: Snapshot },
    /// The client's last line was rejected, for the reason given.
    Error { message: String },
}

impl View for ClientMessage {
    type V = ClientMessageView;

    open spec fn view(&self) -> ClientMessageView {
        match self {
            ClientMessage::StateUpdate { new_state } => ClientMessageView::StateUpdate {
                new_state: new_state@,
            },
            ClientMessage::Error { message } => ClientMessageView::Error { message: message@ },
        }
    }
}

/// The line that shows one entry: the address, an arrow, the number in
/// decimal, and a line feed.
pub open spec fn entry_line(entry: EntryView) -> Seq<char> {
    entry.address + " -> "@ + decimal(entry.number as int) + "\n"@
}

/// The lines of all entries, in their order.
pub open spec fn listing(entries: Seq<EntryView>) -> Seq<char>
    decreases entries.len(),
{
    if entries.len() == 0 {
        Seq::empty()
    } else {
        listing(entries.drop_last()) + entry_line(entries.last())
    }
}

impl Snapshot {
    /// Returns the snapshot as text, a line for each entry.
    pub fn to_text(&self) -> (text: String)
        ensures
            text@ == listing(self@),
    {
        let mut text = String::new();
        let mut i: usize = 0;
        while i < self.entries.len()
            invariant
                i <= self.entries.len(),
                text@ == listing(self@.take(i as int)),
            decreases self.entries.len() - i,
        {
            let entry = &self.entries[i];
            let ghost before = text@;
            text.append(entry.address.as_str());
            text.append(" -> ");
            push_decimal(&mut text, entry.number);
            text.append("\n");
            proof {
                assert(self@.take(i + 1).drop_last() =~= self@.take(i as int));
                assert(self@.take(i + 1).last() == entry@);
                assert(text@ =~= before + entry_line(entry@));
            }
            i = i + 1;
        }
        assert(self@.take(i as int) =~= self@);
        text
    }
}

} // verus!
