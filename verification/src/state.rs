//! The shared state and the operations that the keeper performs on it.

use crate::client_message::{ClientMessage, ClientMessageView, Entry, EntryView, Snapshot};
use crate::client_state::ClientState;
use crate::roster::{
    assigned, distinct, enrolled, lemma_assigned, lemma_enrolled, lemma_found, lemma_withdrawn,
    lemma_push_contains, lemma_push_no_duplicates, lemma_registered_take, number_of, position,
    registered, withdrawn,
};
use futures::channel::mpsc::UnboundedSender;
use vstd::prelude::*;

verus! {

/// A client's outbound queue took no message, because its receiving half has
/// closed it or is gone.
#[derive(Debug, Clone, Copy, PartialEq, Eq, Structural)]
pub struct Disconnected;

/// The shared state: a record for each registered client.
///
/// Besides the records the state keeps, for the proofs only, a journal of the
/// messages that each client's outbound queue has accepted.
pub struct State {
    clients: Vec<ClientState>,
    journal: Ghost<Map<Seq<char>, Seq<ClientMessageView>>>,
}

impl View for State {
    type V = Seq<EntryView>;

    /// The entries of the registered clients, in the order of registration.
    closed spec fn view(&self) -> Seq<EntryView> {
        Seq::new(self.clients@.len(), |i: int| self.clients@[i].entry())
    }
}

/// The addresses that a list of texts names.
pub open spec fn named(addresses: Vec<String>) -> Seq<Seq<char>> {
    addresses.deep_view()
}

impl State {
    /// No address is registered twice.
    #[verifier::type_invariant]
    pub(crate) open spec fn addresses_distinct(&self) -> bool {
        distinct(self@)
    }

    /// The messages that the outbound queue of `address` has accepted since
    /// the address was registered, oldest first.
    pub closed spec fn delivered(&self, address: Seq<char>) -> Seq<ClientMessageView> {
        if self.journal@.dom().contains(address) {
            self.journal@[address]
        } else {
            Seq::empty()
        }
    }

    /// The handle of the outbound queue that is registered for `address`, if
    /// the address is registered.
    pub closed spec fn outbound(&self, address: Seq<char>) -> Option<
        UnboundedSender<ClientMessage>,
    > {
        if registered(self@, address) {
            Some(self.clients@[position(self@, address)].sender)
        } else {
            None
        }
    }

    /// An address has a queue exactly if it is registered.
    pub proof fn lemma_outbound_iff_registered(&self, address: Seq<char>)
        ensures
            self.outbound(address) is Some <==> registered(self@, address),
    {
    }

    /// Returns a state without clients.
    pub fn new() -> (state: State)
        ensures
            state@ == Seq::<EntryView>::empty(),
            distinct(state@),
            forall|a: Seq<char>| #[trigger] state.outbound(a) is None,
            forall|a: Seq<char>| #[trigger] state.delivered(a) == Seq::<ClientMessageView>::empty(),
    {
        let state = State { clients: Vec::new(), journal: Ghost(Map::empty()) };
        assert(state@ =~= Seq::<EntryView>::empty());
        state
    }

    /// Returns where the record of `address` stands, if there is one.
    fn find(&self, address: &String) -> (found: Option<usize>)
        ensures
            distinct(self@),
            match found {
                Some(i) => i < self.clients@.len() && self@[i as int].address == address@,
                None => !registered(self@, address@),
            },
    {
        proof {
            use_type_invariant(self);
        }
        let mut i: usize = 0;
        while i < self.clients.len()
            invariant
                i <= self.clients.len(),
                distinct(self@),
                forall|k: int| 0 <= k < i ==> (#[trigger] self@[k]).address != address@,
            decreases self.clients.len() - i,
        {
            if self.clients[i].address == *address {
                return Some(i);
            }
            i = i + 1;
        }
        None
    }

    /// Hands out the records and leaves none behind.
    fn take_clients(&mut self) -> (clients: Vec<ClientState>)
        ensures
            clients == old(self).clients,
            final(self).clients@.len() == 0,
            final(self).journal == old(self).journal,
    {
        let mut clients: Vec<ClientState> = Vec::new();
        core::mem::swap(&mut clients, &mut self.clients);
        clients
    }

    /// Tells whether `address` is registered.
    pub fn is_registered(&self, address: &String) -> (yes: bool)
        ensures
            yes == registered(self@, address@),
            distinct(self@),
    {
        self.find(address).is_some()
    }

    /// Registers `address` with the number 0 and the queue behind `sender`.
    /// A request from an address that is registered already changes
    /// nothing, and its `sender` is let go.
    pub fn add_client(&mut self, address: String, sender: UnboundedSender<ClientMessage>)
        ensures
            final(self)@ == enrolled(old(self)@, address@),
            distinct(final(self)@),
            forall|a: Seq<char>| #[trigger]
                final(self).outbound(a) == if a == address@ && !registered(old(self)@, a) {
                    Some(sender)
                } else {
                    old(self).outbound(a)
                },
            forall|a: Seq<char>| #[trigger]
                final(self).delivered(a) == if a == address@ && !registered(old(self)@, a) {
                    Seq::<ClientMessageView>::empty()
                } else {
                    old(self).delivered(a)
                },
    {
        if self.find(&address).is_none() {
            let ghost who = address@;
            let mut clients = self.take_clients();
            clients.push(ClientState { address, number: 0, sender });
            proof {
                lemma_enrolled(old(self)@, who, who);
                assert(Seq::new(clients@.len(), |i: int| clients@[i].entry()) =~= enrolled(
                    old(self)@,
                    who,
                ));
            }
            self.clients = clients;
            proof {
                self.journal@ = self.journal@.remove(who);
                let before = old(self)@;
                let after = self@;
                let last = before.len() as int;
                assert forall|a: Seq<char>| #[trigger]
                    self.outbound(a) == if a == who {
                        Some(sender)
                    } else {
                        old(self).outbound(a)
                    } by {
                    if a == who {
                        lemma_found(after, who, last);
                    } else if registered(before, a) {
                        let p = position(before, a);
                        assert(after[p] == before[p]);
                        lemma_found(after, a, p);
                    } else if registered(after, a) {
                        let q = position(after, a);
                        assert(before[q] == after[q]);
                    }
                }
            }
        }
    }

    /// Takes out the record of `address`.  Where there is none, nothing
    /// changes.
    pub fn remove_client(&mut self, address: &String)
        ensures
            final(self)@ == withdrawn(old(self)@, address@),
            distinct(final(self)@),
            forall|a: Seq<char>| #[trigger]
                final(self).outbound(a) == if a == address@ {
                    None
                } else {
                    old(self).outbound(a)
                },
            forall|a: Seq<char>| #[trigger] final(self).delivered(a) == old(self).delivered(a),
    {
        match self.find(address) {
            Some(i) => {
                let mut clients = self.take_clients();
                clients.remove(i);
                proof {
                    lemma_found(old(self)@, address@, i as int);
                    lemma_withdrawn(old(self)@, address@, address@);
                    assert(Seq::new(clients@.len(), |k: int| clients@[k].entry()) =~= withdrawn(
                        old(self)@,
                        address@,
                    ));
                }
                self.clients = clients;
                proof {
                    let before = old(self)@;
                    let after = self@;
                    assert forall|a: Seq<char>| #[trigger]
                        self.outbound(a) == if a == address@ {
                            None
                        } else {
                            old(self).outbound(a)
                        } by {
                        lemma_withdrawn(before, address@, a);
                        if a != address@ && registered(before, a) {
                            let r = position(before, a);
                            let r1 = if r < i {
                                r
                            } else {
                                r - 1
                            };
                            assert(after[r1] == before[r]);
                            lemma_found(after, a, r1);
                        }
                    }
                }
            },
            None => {},
        }
    }

    /// Sets the number of `client_address`.  Where the address is not
    /// registered, nothing changes.
    pub fn set_client_number(&mut self, client_address: &String, new_number: i64)
        ensures
            final(self)@ == assigned(old(self)@, client_address@, new_number),
            distinct(final(self)@),
            forall|a: Seq<char>| #[trigger] final(self).outbound(a) == old(self).outbound(a),
            forall|a: Seq<char>| #[trigger] final(self).delivered(a) == old(self).delivered(a),
    {
        match self.find(client_address) {
            Some(i) => {
                let mut clients = self.take_clients();
                clients[i].number = new_number;
                proof {
                    lemma_found(old(self)@, client_address@, i as int);
                    lemma_assigned(old(self)@, client_address@, new_number, client_address@);
                    assert(Seq::new(clients@.len(), |k: int| clients@[k].entry()) =~= assigned(
                        old(self)@,
                        client_address@,
                        new_number,
                    ));
                }
                self.clients = clients;
                proof {
                    let before = old(self)@;
                    let after = self@;
                    assert forall|a: Seq<char>| #[trigger] self.outbound(a) == old(self).outbound(
                        a,
                    ) by {
                        lemma_assigned(before, client_address@, new_number, a);
                        if registered(before, a) {
                            let r = position(before, a);
                            assert(after[r].address == before[r].address);
                            lemma_found(after, a, r);
                        }
                    }
                }
            },
            None => {},
        }
    }

    /// Returns a copy of the state that holds plain values only.
    pub fn snapshot(&self) -> (copy: Snapshot)
        ensures
            copy@ == self@,
            distinct(copy@),
    {
        proof {
            use_type_invariant(self);
        }
        let mut entries: Vec<Entry> = Vec::new();
        let mut i: usize = 0;
        while i < self.clients.len()
            invariant
                i <= self.clients.len(),
                entries@.len() == i,
                forall|k: int| 0 <= k < i ==> (#[trigger] entries@[k])@ == self@[k],
            decreases self.clients.len() - i,
        {
            let record = &self.clients[i];
            entries.push(Entry { address: record.address.clone(), number: record.number });
            i = i + 1;
        }
        let copy = Snapshot { entries };
        assert(copy@ =~= self@);
        copy
    }

    /// Returns the number that `address` holds, if it is registered.
    pub fn number_of(&self, address: &String) -> (number: Option<i64>)
        ensures
            number == number_of(self@, address@),
    {
        match self.find(address) {
            Some(i) => {
                proof {
                    lemma_found(self@, address@, i as int);
                }
                Some(self.clients[i].number)
            },
            None => None,
        }
    }

    /// Puts an error notice with the text `message` on the outbound queue of
    /// `client_address`.  Where the address is not registered, the notice is
    /// dropped and that counts as done.
    pub fn send_error_to_client(&mut self, client_address: &String, message: &str) -> (outcome:
        Result<(), Disconnected>)
        ensures
            final(self)@ == old(self)@,
            distinct(final(self)@),
            forall|a: Seq<char>| #[trigger] final(self).outbound(a) == old(self).outbound(a),
            outcome is Err ==> registered(old(self)@, client_address@),
            forall|a: Seq<char>| #[trigger]
                final(self).delivered(a) == if a == client_address@ && registered(old(self)@, a)
                    && outcome is Ok {
                    old(self).delivered(a).push(ClientMessageView::Error { message: message@ })
                } else {
                    old(self).delivered(a)
                },
    {
        match self.find(client_address) {
            Some(i) => {
                let notice = ClientMessage::Error { message: message.to_owned() };
                let ghost sent = notice@;
                match self.clients[i].sender.unbounded_send(notice) {
                    Ok(_) => {
                        proof {
                            self.journal@ = self.journal@.insert(
                                client_address@,
                                self.delivered(client_address@).push(sent),
                            );
                        }
                        Ok(())
                    },
                    Err(_) => Err(Disconnected),
                }
            },
            None => Ok(()),
        }
    }

    /// Puts a snapshot of the state on the outbound queue of every registered
    /// client, and returns the addresses of the clients whose queue did not
    /// take it.  A queue that takes nothing keeps no other client from its
    /// copy.
    pub fn distribute(&mut self) -> (refused: Vec<String>)
        ensures
            final(self)@ == old(self)@,
            distinct(final(self)@),
            forall|a: Seq<char>| #[trigger] final(self).outbound(a) == old(self).outbound(a),
            named(refused).no_duplicates(),
            forall|a: Seq<char>| named(refused).contains(a) ==> registered(old(self)@, a),
            forall|a: Seq<char>| #[trigger]
                final(self).delivered(a) == if registered(old(self)@, a) && !named(
                    refused,
                ).contains(a) {
                    old(self).delivered(a).push(
                        ClientMessageView::StateUpdate { new_state: old(self)@ },
                    )
                } else {
                    old(self).delivered(a)
                },
    {
        proof {
            use_type_invariant(&*self);
        }
        let ghost shown = self@;
        let ghost update = ClientMessageView::StateUpdate { new_state: shown };
        let mut refused: Vec<String> = Vec::new();
        let mut i: usize = 0;
        while i < self.clients.len()
            invariant
                i <= self.clients.len(),
                self.clients == old(self).clients,
                self@ == shown,
                shown == old(self)@,
                distinct(shown),
                update == (ClientMessageView::StateUpdate { new_state: shown }),
                named(refused).no_duplicates(),
                forall|a: Seq<char>|
                    named(refused).contains(a) ==> registered(shown.take(i as int), a),
                forall|a: Seq<char>| #[trigger]
                    self.delivered(a) == if registered(shown.take(i as int), a) && !named(
                        refused,
                    ).contains(a) {
                        old(self).delivered(a).push(update)
                    } else {
                        old(self).delivered(a)
                    },
            decreases self.clients.len() - i,
        {
            let message = ClientMessage::StateUpdate { new_state: self.snapshot() };
            let ghost who = shown[i as int].address;
            let ghost seen = shown.take(i as int);
            let ghost listed = named(refused);
            let ghost prior = *self;
            proof {
                if registered(seen, who) {
                    let k = position(seen, who);
                    assert(seen[k] == shown[k]);
                    assert(shown[k].address != shown[i as int].address);
                }
                assert(!listed.contains(who));
                assert(prior.delivered(who) == old(self).delivered(who));
            }
            let accepted = self.clients[i].sender.unbounded_send(message).is_ok();
            if accepted {
                proof {
                    self.journal@ = self.journal@.insert(who, self.delivered(who).push(update));
                }
            } else {
                refused.push(self.clients[i].address.clone());
                assert(named(refused) =~= listed.push(who));
            }
            proof {
                assert forall|a: Seq<char>| named(refused).contains(a) implies registered(
                    shown.take(i + 1),
                    a,
                ) by {
                    lemma_registered_take(shown, i as int, a);
                    if !accepted {
                        lemma_push_contains(listed, who, a);
                    }
                }
                assert forall|a: Seq<char>| #[trigger]
                    self.delivered(a) == if registered(shown.take(i + 1), a) && !named(
                        refused,
                    ).contains(a) {
                        old(self).delivered(a).push(update)
                    } else {
                        old(self).delivered(a)
                    } by {
                    lemma_registered_take(shown, i as int, a);
                    if !accepted {
                        lemma_push_contains(listed, who, a);
                    }
                    assert(prior.delivered(a) == if registered(seen, a) && !listed.contains(a) {
                        old(self).delivered(a).push(update)
                    } else {
                        old(self).delivered(a)
                    });
                }
                if !accepted {
                    lemma_push_no_duplicates(listed, who);
                }
            }
            i = i + 1;
        }
        proof {
            assert(shown.take(i as int) =~= shown);
        }
        refused
    }
}

} // verus!
