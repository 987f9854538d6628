//! The keeper's rule: what one event does to the shared state and what it
//! makes the keeper hand to whom.

use crate::client_message::{ClientMessageView, EntryView};
use crate::client_message::ClientMessage;
use crate::history::{
    departures, lemma_run_from_first, lemma_transcript_first, run_from, transcript,
};
use crate::roster::{
    assigned, distinct, enrolled, lemma_enrolled, lemma_push_contains, lemma_push_no_duplicates,
    lemma_withdrawn, registered, withdrawn,
};
use futures::channel::mpsc::UnboundedSender;
use crate::state::{named, State};
use crate::state_keeper_message::{EventView, StateKeeperMessage};
use crate::text::{parse_line, parse_number};
use vstd::prelude::*;
use vstd::string::StringExecFns;

verus! {

/// The roster after `event`.
pub open spec fn next_roster(roster: Seq<EntryView>, event: EventView) -> Seq<EntryView> {
    match event {
        EventView::NewClient { address } => enrolled(roster, address),
        EventView::ClientGone { address } => withdrawn(roster, address),
        EventView::Message { source, text } => match parse_line(text) {
            Ok(number) => assigned(roster, source, number),
            Err(_) => roster,
        },
    }
}

/// Whether `event` makes the keeper broadcast: every event does, but a line
/// that is not a number.
pub open spec fn broadcasts(event: EventView) -> bool {
    match event {
        EventView::Message { source, text } => parse_line(text) is Ok,
        _ => true,
    }
}

/// The message that `event`, arriving at `roster`, makes the keeper hand to
/// the outbound queue of `address`, if any.
///
/// A broadcast goes to every client that is registered once the event has
/// been applied, and shows the roster as it is then.  A line that is not a
/// number brings its sender, if registered, a notice that says why, and no
/// one else anything.
pub open spec fn notice(roster: Seq<EntryView>, event: EventView, address: Seq<char>) -> Option<
    ClientMessageView,
> {
    match event {
        EventView::Message { source, text } if parse_line(text) is Err => {
            if source == address && registered(roster, address) {
                Some(
                    ClientMessageView::Error {
                        message: parse_line(text)->Err_0.description_text() + "\n"@,
                    },
                )
            } else {
                None
            }
        },
        _ => {
            if registered(next_roster(roster, event), address) {
                Some(ClientMessageView::StateUpdate { new_state: next_roster(roster, event) })
            } else {
                None
            }
        },
    }
}

/// Whether `event` registers `address` anew, so that its outbound queue is a
/// new one.
pub open spec fn opens_queue(roster: Seq<EntryView>, event: EventView, address: Seq<char>) -> bool {
    event == (EventView::NewClient { address }) && !registered(roster, address)
}

/// What the outbound queue of `address` has accepted once `event` has been
/// handled, given what it had accepted before and whether it refused what the
/// event brought.
pub open spec fn accepted_after(
    before: Seq<ClientMessageView>,
    roster: Seq<EntryView>,
    event: EventView,
    address: Seq<char>,
    refused: bool,
) -> Seq<ClientMessageView> {
    let start = if opens_queue(roster, event, address) {
        Seq::empty()
    } else {
        before
    };
    match notice(roster, event, address) {
        Some(message) if !refused => start.push(message),
        _ => start,
    }
}

/// The handle of the outbound queue of `address` once `message` has been
/// handled, given the handle that was registered for it before: a newcomer
/// gets the handle that came with its connection, a client that has left has
/// none, and everyone else keeps the one it had.
pub open spec fn queue_after(
    before: Option<UnboundedSender<ClientMessage>>,
    roster: Seq<EntryView>,
    message: StateKeeperMessage,
    address: Seq<char>,
) -> Option<UnboundedSender<ClientMessage>> {
    match message {
        StateKeeperMessage::NewClient { address: who, sender } => if who@ == address
            && !registered(roster, address) {
            Some(sender)
        } else {
            before
        },
        StateKeeperMessage::ClientGone { address: who } => if who@ == address {
            None
        } else {
            before
        },
        StateKeeperMessage::Message { source, text } => before,
    }
}

impl State {
    /// Handles one event: applies it to the state and hands out what it
    /// calls for.  Returns the addresses of the clients whose outbound queue
    /// did not take what was meant for them.
    pub fn handle(&mut self, message: StateKeeperMessage) -> (refused: Vec<String>)
        ensures
            final(self)@ == next_roster(old(self)@, message@),
            distinct(final(self)@),
            forall|a: Seq<char>| #[trigger]
                final(self).outbound(a) == queue_after(
                    old(self).outbound(a),
                    old(self)@,
                    message,
                    a,
                ),
            named(refused).no_duplicates(),
            forall|a: Seq<char>|
                named(refused).contains(a) ==> notice(old(self)@, message@, a) is Some,
            forall|a: Seq<char>| #[trigger]
                final(self).delivered(a) == accepted_after(
                    old(self).delivered(a),
                    old(self)@,
                    message@,
                    a,
                    named(refused).contains(a),
                ),
    {
        let ghost event = message@;
        match message {
            StateKeeperMessage::NewClient { address, sender } => {
                self.add_client(address, sender);
            },
            StateKeeperMessage::ClientGone { address } => {
                self.remove_client(&address);
            },
            StateKeeperMessage::Message { source, text } => {
                match parse_number(text.as_str()) {
                    Ok(number) => {
                        self.set_client_number(&source, number);
                    },
                    Err(failure) => {
                        let mut reason = String::from_str(failure.description());
                        reason.append("\n");
                        let ghost who = source@;
                        let mut refused: Vec<String> = Vec::new();
                        assert(named(refused) =~= Seq::<Seq<char>>::empty());
                        if self.send_error_to_client(&source, reason.as_str()).is_err() {
                            refused.push(source);
                            assert(named(refused) =~= seq![who]);
                            assert(seq![who][0] == who);
                        }
                        return refused;
                    },
                }
            },
        }
        let ghost changed = *self;
        let refused = self.distribute();
        proof {
            assert forall|a: Seq<char>| #[trigger]
                self.outbound(a) == queue_after(old(self).outbound(a), old(self)@, message, a) by {
                assert(changed.outbound(a) == queue_after(
                    old(self).outbound(a),
                    old(self)@,
                    message,
                    a,
                ));
            }
            assert forall|a: Seq<char>| #[trigger]
                self.delivered(a) == accepted_after(
                    old(self).delivered(a),
                    old(self)@,
                    event,
                    a,
                    named(refused).contains(a),
                ) by {
                assert(changed.delivered(a) == if opens_queue(old(self)@, event, a) {
                    Seq::empty()
                } else {
                    old(self).delivered(a)
                });
            }
        }
        refused
    }

    /// Makes up for queues that took nothing: every client on the list
    /// `refused` that is registered is treated as gone, which is an event
    /// like any other and is handled at once; a client whose queue refuses
    /// the broadcast that follows is treated so in turn.  Returns the
    /// addresses of the clients that were dropped, in the order in which they
    /// were dropped.
    ///
    /// With nobody on the list nothing happens.  The first client dropped is
    /// one on the list.  Every client that is still registered at the end has
    /// accepted all that the departures called for, and keeps its queue.
    pub fn reconcile(&mut self, refused: Vec<String>) -> (dropped: Vec<String>)
        ensures
            final(self)@ == run_from(old(self)@, departures(named(dropped))),
            distinct(final(self)@),
            named(dropped).no_duplicates(),
            named(refused).len() == 0 ==> named(dropped).len() == 0,
            named(dropped).len() > 0 ==> named(refused).contains(named(dropped)[0]),
            forall|d: Seq<char>| #[trigger] named(dropped).contains(d) ==> registered(old(self)@, d),
            forall|a: Seq<char>|
                #[trigger] named(refused).contains(a) ==> !registered(final(self)@, a),
            forall|a: Seq<char>|
                #[trigger] registered(final(self)@, a) <==> registered(old(self)@, a) && !named(
                    dropped,
                ).contains(a),
            forall|a: Seq<char>| #[trigger]
                final(self).outbound(a) == if registered(final(self)@, a) {
                    old(self).outbound(a)
                } else {
                    None
                },
            forall|a: Seq<char>|
                registered(final(self)@, a) ==> #[trigger] final(self).delivered(a) == transcript(
                    old(self).delivered(a),
                    old(self)@,
                    departures(named(dropped)),
                    a,
                ),
            forall|a: Seq<char>|
                !registered(final(self)@, a) && !named(dropped).contains(a)
                    ==> #[trigger] final(self).delivered(a) == old(self).delivered(a),
    {
        let ghost start = old(self)@;
        let ghost given = named(refused);
        let mut pending = refused;
        let mut dropped: Vec<String> = Vec::new();
        let ghost mut events = Seq::<EventView>::empty();
        proof {
            use_type_invariant(&*self);
            assert(departures(named(dropped)) =~= events);
            assert forall|a: Seq<char>| #[trigger]
                self.outbound(a) == if registered(self@, a) {
                    old(self).outbound(a)
                } else {
                    None
                } by {
                self.lemma_outbound_iff_registered(a);
            }
        }
        while pending.len() > 0
            invariant
                start == old(self)@,
                events == departures(named(dropped)),
                self@ == run_from(start, events),
                distinct(self@),
                named(dropped).no_duplicates(),
                named(dropped).len() == 0 ==> forall|a: Seq<char>|
                    #[trigger] named(pending).contains(a) ==> given.contains(a),
                named(dropped).len() > 0 ==> given.contains(named(dropped)[0]),
                forall|d: Seq<char>| #[trigger] named(dropped).contains(d) ==> registered(start, d),
                forall|a: Seq<char>|
                    #[trigger] given.contains(a) && !named(pending).contains(a) ==> !registered(
                        self@,
                        a,
                    ),
                forall|a: Seq<char>|
                    #[trigger] registered(self@, a) <==> registered(start, a) && !named(
                        dropped,
                    ).contains(a),
                forall|a: Seq<char>| #[trigger]
                    self.outbound(a) == if registered(self@, a) {
                        old(self).outbound(a)
                    } else {
                        None
                    },
                forall|a: Seq<char>|
                    registered(self@, a) && !named(pending).contains(a) ==> #[trigger] self.delivered(
                        a,
                    ) == transcript(old(self).delivered(a), start, events, a),
                forall|a: Seq<char>|
                    !registered(self@, a) && !named(dropped).contains(a) ==> #[trigger] self.delivered(
                        a,
                    ) == old(self).delivered(a),
            decreases self@.len(), pending.len(),
        {
            let ghost waiting = named(pending);
            let ghost listed = named(dropped);
            let ghost prior = *self;
            let address = pending.pop().unwrap();
            let ghost who = address@;
            let ghost rest = named(pending);
            proof {
                assert(rest =~= waiting.drop_last());
                assert(waiting =~= rest.push(who));
                assert(waiting[waiting.len() - 1] == who);
                assert forall|a: Seq<char>| waiting.contains(a) <==> rest.contains(a) || a
                    == who by {
                    lemma_push_contains(rest, who, a);
                }
            }
            if self.is_registered(&address) {
                dropped.push(address.clone());
                let mut more = self.handle(StateKeeperMessage::ClientGone { address });
                let ghost fresh = named(more);
                pending.append(&mut more);
                proof {
                    let gone = EventView::ClientGone { address: who };
                    let longer = events.push(gone);
                    assert(named(dropped) =~= listed.push(who));
                    assert(named(pending) =~= rest + fresh);
                    assert(longer =~= departures(named(dropped)));
                    assert(longer.drop_last() =~= events);
                    assert(longer.last() == gone);
                    assert(registered(prior@, who));
                    assert(!listed.contains(who));
                    lemma_push_no_duplicates(listed, who);
                    assert(prior@.len() > 0 && self@.len() == prior@.len() - 1);
                    if listed.len() == 0 {
                        assert(waiting.contains(who));
                        assert(given.contains(who));
                    }
                    assert(named(dropped)[0] == if listed.len() > 0 {
                        listed[0]
                    } else {
                        who
                    });
                    assert forall|a: Seq<char>| named(pending).contains(a) <==> rest.contains(a)
                        || fresh.contains(a) by {
                        if rest.contains(a) {
                            let k = choose|k: int| 0 <= k < rest.len() && rest[k] == a;
                            assert((rest + fresh)[k] == a);
                        }
                        if fresh.contains(a) {
                            let k = choose|k: int| 0 <= k < fresh.len() && fresh[k] == a;
                            assert((rest + fresh)[rest.len() + k] == a);
                        }
                    }
                    assert forall|d: Seq<char>| #[trigger]
                        named(dropped).contains(d) implies registered(start, d) by {
                        lemma_push_contains(listed, who, d);
                    }
                    assert forall|a: Seq<char>| #[trigger]
                        given.contains(a) && !named(pending).contains(a) implies !registered(
                        self@,
                        a,
                    ) by {
                        lemma_withdrawn(prior@, who, a);
                    }
                    assert forall|a: Seq<char>| #[trigger]
                        registered(self@, a) <==> registered(start, a) && !named(dropped).contains(
                            a,
                        ) by {
                        lemma_push_contains(listed, who, a);
                        lemma_withdrawn(prior@, who, a);
                        assert(registered(prior@, a) <==> registered(start, a) && !listed.contains(
                            a,
                        ));
                    }
                    assert forall|a: Seq<char>| #[trigger]
                        self.outbound(a) == if registered(self@, a) {
                            old(self).outbound(a)
                        } else {
                            None
                        } by {
                        lemma_withdrawn(prior@, who, a);
                        assert(prior.outbound(a) == if registered(prior@, a) {
                            old(self).outbound(a)
                        } else {
                            None
                        });
                    }
                    assert forall|a: Seq<char>| registered(self@, a) && !named(pending).contains(
                        a,
                    ) implies #[trigger] self.delivered(a) == transcript(
                        old(self).delivered(a),
                        start,
                        longer,
                        a,
                    ) by {
                        lemma_withdrawn(prior@, who, a);
                        assert(prior.delivered(a) == transcript(
                            old(self).delivered(a),
                            start,
                            events,
                            a,
                        ));
                    }
                    assert forall|a: Seq<char>| !registered(self@, a) && !named(dropped).contains(
                        a,
                    ) implies #[trigger] self.delivered(a) == old(self).delivered(a) by {
                        lemma_push_contains(listed, who, a);
                        lemma_withdrawn(prior@, who, a);
                        assert(prior.delivered(a) == old(self).delivered(a));
                    }
                    events = longer;
                }
            }
        }
        proof {
            assert(named(pending) =~= Seq::<Seq<char>>::empty());
        }
        dropped
    }

    /// Handles one event and then makes up for what it brought to light:
    /// a client whose outbound queue takes nothing any more is treated as
    /// gone.  Returns the addresses of the clients that were dropped so, in
    /// the order in which they were dropped.
    ///
    /// The state is then what the event, followed by the end of each dropped
    /// client's connection, makes of it.  The first client dropped is one
    /// that the event had something for.  Every client that is still
    /// registered has been handed, and has accepted, all that these events
    /// called for: no client misses a broadcast because another client's
    /// queue is closed.  A client that is not registered at the end, and was
    /// not dropped, has been handed nothing.
    pub fn process(&mut self, message: StateKeeperMessage) -> (dropped: Vec<String>)
        ensures
            final(self)@ == run_from(
                old(self)@,
                seq![message@] + departures(named(dropped)),
            ),
            distinct(final(self)@),
            named(dropped).no_duplicates(),
            named(dropped).len() > 0 ==> notice(old(self)@, message@, named(dropped)[0]) is Some,
            forall|d: Seq<char>|
                #[trigger] named(dropped).contains(d) ==> registered(
                    next_roster(old(self)@, message@),
                    d,
                ),
            forall|a: Seq<char>|
                #[trigger] registered(final(self)@, a) <==> registered(
                    next_roster(old(self)@, message@),
                    a,
                ) && !named(dropped).contains(a),
            forall|a: Seq<char>| #[trigger]
                final(self).outbound(a) == if registered(final(self)@, a) {
                    queue_after(old(self).outbound(a), old(self)@, message, a)
                } else {
                    None
                },
            forall|a: Seq<char>|
                registered(final(self)@, a) ==> #[trigger] final(self).delivered(a) == transcript(
                    old(self).delivered(a),
                    old(self)@,
                    seq![message@] + departures(named(dropped)),
                    a,
                ),
            forall|a: Seq<char>|
                !registered(final(self)@, a) && !named(dropped).contains(a)
                    ==> #[trigger] final(self).delivered(a) == old(self).delivered(a),
    {
        let ghost first = message@;
        proof {
            use_type_invariant(&*self);
        }
        let refused = self.handle(message);
        let ghost handled = *self;
        let dropped = self.reconcile(refused);
        proof {
            let rest = departures(named(dropped));
            lemma_run_from_first(old(self)@, first, rest);
            assert forall|a: Seq<char>| #[trigger]
                self.outbound(a) == if registered(self@, a) {
                    queue_after(old(self).outbound(a), old(self)@, message, a)
                } else {
                    None
                } by {
                assert(handled.outbound(a) == queue_after(
                    old(self).outbound(a),
                    old(self)@,
                    message,
                    a,
                ));
            }
            assert forall|a: Seq<char>| registered(self@, a) implies #[trigger] self.delivered(a)
                == transcript(old(self).delivered(a), old(self)@, seq![first] + rest, a) by {
                lemma_transcript_first(old(self).delivered(a), old(self)@, first, rest, a);
                assert(handled.delivered(a) == accepted_after(
                    old(self).delivered(a),
                    old(self)@,
                    first,
                    a,
                    false,
                ));
            }
            assert forall|a: Seq<char>| !registered(self@, a) && !named(dropped).contains(
                a,
            ) implies #[trigger] self.delivered(a) == old(self).delivered(a) by {
                if first is NewClient {
                    lemma_enrolled(old(self)@, first->NewClient_address, a);
                }
                assert(!registered(handled@, a));
                assert(handled.delivered(a) == accepted_after(
                    old(self).delivered(a),
                    old(self)@,
                    first,
                    a,
                    named(refused).contains(a),
                ));
            }
        }
        dropped
    }
}

} // verus!
