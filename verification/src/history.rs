//! What holds of the shared state over a whole history of events: who is
//! registered, which number each client holds, and in which order updates
//! show in the broadcasts.

use crate::client_message::{ClientMessageView, EntryView};
use crate::keeper::{accepted_after, broadcasts, next_roster, notice};
use crate::roster::{
    distinct, lemma_assigned, lemma_enrolled, lemma_withdrawn, number_of, registered, withdrawn,
};
use crate::state_keeper_message::EventView;
use crate::text::parse_line;
use vstd::prelude::*;

verus! {

/// The roster that `events`, handled one after the other, make of `roster`.
pub open spec fn run_from(roster: Seq<EntryView>, events: Seq<EventView>) -> Seq<EntryView>
    decreases events.len(),
{
    if events.len() == 0 {
        roster
    } else {
        next_roster(run_from(roster, events.drop_last()), events.last())
    }
}

/// The roster after `events`, when the keeper started without clients.
pub open spec fn run(events: Seq<EventView>) -> Seq<EntryView> {
    run_from(Seq::empty(), events)
}

/// The events that end the connections of `addresses`, one after the other.
pub open spec fn departures(addresses: Seq<Seq<char>>) -> Seq<EventView> {
    Seq::new(addresses.len(), |i: int| EventView::ClientGone { address: addresses[i] })
}

/// What the outbound queue of `address` has accepted once `events` have been
/// handled, starting from `roster`, if it had accepted `before` until then
/// and has refused nothing since.
pub open spec fn transcript(
    before: Seq<ClientMessageView>,
    roster: Seq<EntryView>,
    events: Seq<EventView>,
    address: Seq<char>,
) -> Seq<ClientMessageView>
    decreases events.len(),
{
    if events.len() == 0 {
        before
    } else {
        accepted_after(
            transcript(before, roster, events.drop_last(), address),
            run_from(roster, events.drop_last()),
            events.last(),
            address,
            false,
        )
    }
}

/// Handling a history is handling its first event and then the rest.
pub proof fn lemma_run_from_first(roster: Seq<EntryView>, first: EventView, rest: Seq<EventView>)
    ensures
        run_from(roster, seq![first] + rest) == run_from(next_roster(roster, first), rest),
    decreases rest.len(),
{
    let all = seq![first] + rest;
    if rest.len() == 0 {
        assert(all.drop_last() =~= Seq::<EventView>::empty());
        assert(all.last() == first);
        assert(run_from(roster, all.drop_last()) == roster);
    } else {
        assert(all.drop_last() =~= seq![first] + rest.drop_last());
        assert(all.last() == rest.last());
        lemma_run_from_first(roster, first, rest.drop_last());
    }
}

/// What a queue accepts over a history is what it accepts of the first event
/// and then of the rest.
pub proof fn lemma_transcript_first(
    before: Seq<ClientMessageView>,
    roster: Seq<EntryView>,
    first: EventView,
    rest: Seq<EventView>,
    address: Seq<char>,
)
    ensures
        transcript(before, roster, seq![first] + rest, address) == transcript(
            accepted_after(before, roster, first, address, false),
            next_roster(roster, first),
            rest,
            address,
        ),
    decreases rest.len(),
{
    let all = seq![first] + rest;
    if rest.len() == 0 {
        assert(all.drop_last() =~= Seq::<EventView>::empty());
        assert(all.last() == first);
        assert(run_from(roster, all.drop_last()) == roster);
        assert(transcript(before, roster, all.drop_last(), address) == before);
    } else {
        assert(all.drop_last() =~= seq![first] + rest.drop_last());
        assert(all.last() == rest.last());
        lemma_transcript_first(before, roster, first, rest.drop_last(), address);
        lemma_run_from_first(roster, first, rest.drop_last());
    }
}

/// `event` is a line from `address` that is a number.
pub open spec fn sets_number(event: EventView, address: Seq<char>) -> bool {
    event matches EventView::Message { source, text } && source == address && parse_line(text)
        is Ok
}

/// The number that a line denotes, for a line that is a number.
pub open spec fn number_set(event: EventView) -> i64 {
    parse_line(event->text)->Ok_0
}

/// `event` neither ends the connection of `address` nor sets its number.
pub open spec fn leaves_alone(event: EventView, address: Seq<char>) -> bool {
    event != (EventView::ClientGone { address }) && !sets_number(event, address)
}

/// From the event at `from` up to, but without, the event at `to`, none
/// ends the connection of `address` or sets its number.
pub open spec fn quiet_between(events: Seq<EventView>, address: Seq<char>, from: int, to: int)
    -> bool {
    forall|k: int| from <= k < to ==> leaves_alone(#[trigger] events[k], address)
}

/// The event at `i` is a connection from `address`, and no later event ends
/// that connection.
pub open spec fn joined_at(events: Seq<EventView>, address: Seq<char>, i: int) -> bool {
    &&& 0 <= i < events.len()
    &&& events[i] == (EventView::NewClient { address })
    &&& forall|j: int| i < j < events.len() ==> #[trigger] events[j] != (EventView::ClientGone {
        address,
    })
}

/// `address` has connected and has not disconnected since.
pub open spec fn connected(events: Seq<EventView>, address: Seq<char>) -> bool {
    exists|i: int| joined_at(events, address, i)
}

/// The broadcast that the event at `k` causes shows, for `address`, the
/// number that the event at `u` has set: the event at `k` does cause a
/// broadcast, and since the event at `u` none has ended the connection of
/// `address` or set its number again.
pub open spec fn shows(events: Seq<EventView>, address: Seq<char>, u: int, k: int) -> bool {
    &&& 0 <= u <= k < events.len()
    &&& broadcasts(events[k])
    &&& quiet_between(events, address, u + 1, k + 1)
}

/// One event keeps addresses apart.
pub proof fn lemma_next_roster_distinct(roster: Seq<EntryView>, event: EventView)
    requires
        distinct(roster),
    ensures
        distinct(next_roster(roster, event)),
{
    match event {
        EventView::NewClient { address } => {
            lemma_enrolled(roster, address, address);
        },
        EventView::ClientGone { address } => {
            lemma_withdrawn(roster, address, address);
        },
        EventView::Message { source, text } => {
            if parse_line(text) is Ok {
                lemma_assigned(roster, source, parse_line(text)->Ok_0, source);
            }
        },
    }
}

/// What one event does to the number of one client: a connection gives a
/// newcomer the number 0, the end of its connection takes the client out, a
/// line of its own that is a number sets its number, and everything else
/// leaves it as it was.
pub proof fn lemma_next_number(roster: Seq<EntryView>, event: EventView, address: Seq<char>)
    requires
        distinct(roster),
    ensures
        number_of(next_roster(roster, event), address) == if event == (EventView::NewClient {
            address,
        }) && !registered(roster, address) {
            Some(0i64)
        } else if event == (EventView::ClientGone { address }) {
            None
        } else if sets_number(event, address) && registered(roster, address) {
            Some(number_set(event))
        } else {
            number_of(roster, address)
        },
{
    match event {
        EventView::NewClient { address: who } => {
            lemma_enrolled(roster, who, address);
        },
        EventView::ClientGone { address: who } => {
            lemma_withdrawn(roster, who, address);
        },
        EventView::Message { source, text } => {
            if parse_line(text) is Ok {
                lemma_assigned(roster, source, parse_line(text)->Ok_0, address);
            }
        },
    }
}

/// However long the history, no address is registered twice.
pub proof fn lemma_run_distinct(roster: Seq<EntryView>, events: Seq<EventView>)
    requires
        distinct(roster),
    ensures
        distinct(run_from(roster, events)),
    decreases events.len(),
{
    if events.len() > 0 {
        lemma_run_distinct(roster, events.drop_last());
        lemma_next_roster_distinct(run_from(roster, events.drop_last()), events.last());
    }
}

/// The clients in the roster are those that have connected and have not
/// disconnected since.
pub proof fn lemma_registered_iff_connected(events: Seq<EventView>, address: Seq<char>)
    ensures
        registered(run(events), address) <==> connected(events, address),
    decreases events.len(),
{
    if events.len() == 0 {
        if connected(events, address) {
            let i = choose|i: int| joined_at(events, address, i);
        }
    } else {
        let before = events.drop_last();
        let last = events.last();
        let n = before.len() as int;
        lemma_registered_iff_connected(before, address);
        lemma_run_distinct(Seq::empty(), before);
        lemma_next_number(run(before), last, address);
        assert(events[n] == last);
        if connected(before, address) && last != (EventView::ClientGone { address }) {
            let i = choose|i: int| joined_at(before, address, i);
            assert(events[i] == before[i]);
            assert forall|j: int| i < j < events.len() implies #[trigger] events[j] != (
            EventView::ClientGone { address }) by {
                if j < n {
                    assert(events[j] == before[j]);
                }
            }
            assert(joined_at(events, address, i));
        }
        if last == (EventView::NewClient { address }) {
            assert(joined_at(events, address, n));
        }
        if connected(events, address) {
            let i = choose|i: int| joined_at(events, address, i);
            if i < n {
                assert(events[n] != (EventView::ClientGone { address }));
                assert(before[i] == events[i]);
                assert forall|j: int| i < j < before.len() implies #[trigger] before[j] != (
                EventView::ClientGone { address }) by {
                    assert(before[j] == events[j]);
                }
                assert(joined_at(before, address, i));
            }
        }
    }
}

/// The addresses of a roster, in its order.
pub open spec fn addresses(roster: Seq<EntryView>) -> Seq<Seq<char>> {
    Seq::new(roster.len(), |i: int| roster[i].address)
}

/// The set of the clients that are connected after `events`.
pub open spec fn connected_set(events: Seq<EventView>) -> Set<Seq<char>> {
    Set::new(|address: Seq<char>| connected(events, address))
}

/// A snapshot has as many entries as clients are connected: each connected
/// client has one entry, and no entry belongs to anyone else.
pub proof fn lemma_entries_count_connected(events: Seq<EventView>)
    ensures
        connected_set(events).finite(),
        run(events).len() == connected_set(events).len(),
{
    let roster = run(events);
    let names = addresses(roster);
    lemma_run_distinct(Seq::empty(), events);
    assert(names.no_duplicates()) by {
        assert forall|i: int, j: int| 0 <= i < names.len() && 0 <= j < names.len() && i
            != j implies names[i] != names[j] by {
            if i < j {
                assert(roster[i].address != roster[j].address);
            } else {
                assert(roster[j].address != roster[i].address);
            }
        }
    }
    assert(names.to_set() =~= connected_set(events)) by {
        assert forall|a: Seq<char>| names.to_set().contains(a) <==> connected_set(
            events,
        ).contains(a) by {
            lemma_registered_iff_connected(events, a);
            if names.contains(a) {
                let i = choose|i: int| 0 <= i < names.len() && names[i] == a;
                assert(roster[i].address == a);
            }
            if registered(roster, a) {
                let i = choose|i: int| 0 <= i < roster.len() && (#[trigger] roster[i]).address == a;
                assert(names[i] == a);
            }
        }
    }
    names.unique_seq_to_set();
    vstd::seq_lib::seq_to_set_is_finite(names);
}

/// A history up to its event at `k`, that event included.
pub open spec fn through(events: Seq<EventView>, k: int) -> Seq<EventView> {
    events.take(k + 1)
}

/// As long as no event ends the connection of a registered client or sets
/// its number, the client stays registered with the number that it holds.
pub proof fn lemma_number_kept(events: Seq<EventView>, address: Seq<char>, from: int)
    requires
        0 <= from <= events.len(),
        registered(run(events.take(from)), address),
        quiet_between(events, address, from, events.len() as int),
    ensures
        number_of(run(events), address) == number_of(run(events.take(from)), address),
    decreases events.len() - from,
{
    if from == events.len() {
        assert(events.take(from) =~= events);
    } else {
        let before = events.drop_last();
        let n = before.len() as int;
        assert(before.take(from) =~= events.take(from));
        assert forall|k: int| from <= k < n implies leaves_alone(#[trigger] before[k], address) by {
            assert(before[k] == events[k]);
        }
        lemma_number_kept(before, address, from);
        lemma_run_distinct(Seq::empty(), before);
        lemma_next_number(run(before), events.last(), address);
        assert(leaves_alone(events[n], address));
    }
}

/// A client that has sent no number since it was registered holds the
/// number 0.
pub proof fn lemma_number_starts_at_zero(events: Seq<EventView>, address: Seq<char>, i: int)
    requires
        0 <= i < events.len(),
        events[i] == (EventView::NewClient { address }),
        !registered(run(events.take(i)), address),
        quiet_between(events, address, i + 1, events.len() as int),
    ensures
        number_of(run(events), address) == Some(0i64),
{
    let upto = events.take(i + 1);
    assert(upto.drop_last() =~= events.take(i));
    assert(upto.last() == events[i]);
    lemma_run_distinct(Seq::empty(), events.take(i));
    lemma_next_number(run(events.take(i)), events[i], address);
    lemma_number_kept(events, address, i + 1);
}

/// A registered client holds the number of the last line of its own that was
/// a number.
pub proof fn lemma_number_is_last_set(events: Seq<EventView>, address: Seq<char>, j: int)
    requires
        0 <= j < events.len(),
        registered(run(events.take(j)), address),
        sets_number(events[j], address),
        quiet_between(events, address, j + 1, events.len() as int),
    ensures
        number_of(run(events), address) == Some(number_set(events[j])),
{
    let upto = events.take(j + 1);
    assert(upto.drop_last() =~= events.take(j));
    assert(upto.last() == events[j]);
    lemma_run_distinct(Seq::empty(), events.take(j));
    lemma_next_number(run(events.take(j)), events[j], address);
    lemma_number_kept(events, address, j + 1);
}

/// The event at `i` has registered `address`, and the client has stayed
/// since without setting its number.
pub open spec fn untouched_since(events: Seq<EventView>, address: Seq<char>, i: int) -> bool {
    &&& 0 <= i < events.len()
    &&& events[i] == (EventView::NewClient { address })
    &&& !registered(run(events.take(i)), address)
    &&& quiet_between(events, address, i + 1, events.len() as int)
}

/// The event at `j` is the last by which `address`, registered then and
/// since, has set its number.
pub open spec fn last_set_at(events: Seq<EventView>, address: Seq<char>, j: int) -> bool {
    &&& 0 <= j < events.len()
    &&& registered(run(events.take(j)), address)
    &&& sets_number(events[j], address)
    &&& quiet_between(events, address, j + 1, events.len() as int)
}

/// Every registered client holds the number of the last line by which it has
/// set its number, or 0 if it has sent no such line since it was registered.
pub proof fn lemma_number_of_registered(events: Seq<EventView>, address: Seq<char>)
    requires
        registered(run(events), address),
    ensures
        (exists|i: int| untouched_since(events, address, i)) || (exists|j: int|
            last_set_at(events, address, j)),
        forall|i: int|
            untouched_since(events, address, i) ==> number_of(run(events), address) == Some(
                0i64,
            ),
        forall|j: int|
            last_set_at(events, address, j) ==> number_of(run(events), address) == Some(
                number_set(events[j]),
            ),
    decreases events.len(),
{
    assert forall|i: int| untouched_since(events, address, i) implies number_of(
        run(events),
        address,
    ) == Some(0i64) by {
        lemma_number_starts_at_zero(events, address, i);
    }
    assert forall|j: int| last_set_at(events, address, j) implies number_of(
        run(events),
        address,
    ) == Some(number_set(events[j])) by {
        lemma_number_is_last_set(events, address, j);
    }
    if events.len() > 0 {
        let before = events.drop_last();
        let last = events.last();
        let n = before.len() as int;
        lemma_run_distinct(Seq::empty(), before);
        lemma_next_number(run(before), last, address);
        assert(events.take(n) =~= before);
        assert(events[n] == last);
        if last == (EventView::NewClient { address }) && !registered(run(before), address) {
            assert(untouched_since(events, address, n));
        } else if sets_number(last, address) {
            assert(last_set_at(events, address, n));
        } else {
            assert(leaves_alone(last, address));
            lemma_number_of_registered(before, address);
            if exists|i: int| untouched_since(before, address, i) {
                let i = choose|i: int| untouched_since(before, address, i);
                assert(events.take(i) =~= before.take(i));
                assert(events[i] == before[i]);
                assert forall|k: int| i + 1 <= k < events.len() implies leaves_alone(
                    #[trigger] events[k],
                    address,
                ) by {
                    if k < n {
                        assert(events[k] == before[k]);
                    }
                }
                assert(untouched_since(events, address, i));
            } else {
                let j = choose|j: int| last_set_at(before, address, j);
                assert(events.take(j) =~= before.take(j));
                assert(events[j] == before[j]);
                assert forall|k: int| j + 1 <= k < events.len() implies leaves_alone(
                    #[trigger] events[k],
                    address,
                ) by {
                    if k < n {
                        assert(events[k] == before[k]);
                    }
                }
                assert(last_set_at(events, address, j));
            }
        }
    }
}

/// A line that is not a number changes nothing, and brings no one but its
/// sender anything.
pub proof fn lemma_rejected_line_changes_nothing(
    roster: Seq<EntryView>,
    event: EventView,
    address: Seq<char>,
)
    requires
        !broadcasts(event),
    ensures
        next_roster(roster, event) == roster,
        notice(roster, event, address) is Some ==> event->source == address && notice(
            roster,
            event,
            address,
        )->Some_0 is Error,
{
}

/// A history with a line that is not a number leads, after that line, to the
/// states that it would lead to without the line: no later snapshot differs.
pub proof fn lemma_rejected_line_leaves_no_trace(events: Seq<EventView>, i: int, k: int)
    requires
        0 <= i < k <= events.len(),
        !broadcasts(events[i]),
    ensures
        run(events.take(k)) == run(events.remove(i).take(k - 1)),
    decreases k,
{
    let with = events.take(k);
    let without = events.remove(i).take(k - 1);
    if k == i + 1 {
        assert(with.drop_last() =~= without);
        assert(with.last() == events[i]);
    } else {
        assert(with.drop_last() =~= events.take(k - 1));
        assert(without.drop_last() =~= events.remove(i).take(k - 2));
        assert(with.last() == without.last());
        lemma_rejected_line_leaves_no_trace(events, i, k - 1);
    }
}

/// Updates of one client show in the order in which they were sent: when a
/// client sets its number with the event at `i` and again with the event at
/// `j`, every broadcast that shows the first update comes before every
/// broadcast that shows the second, and each shows the number that its update
/// has set.
pub proof fn lemma_updates_show_in_order(
    events: Seq<EventView>,
    address: Seq<char>,
    i: int,
    j: int,
    k1: int,
    k2: int,
)
    requires
        0 <= i < j < events.len(),
        sets_number(events[i], address),
        sets_number(events[j], address),
        registered(run(events.take(i)), address),
        registered(run(events.take(j)), address),
        shows(events, address, i, k1),
        shows(events, address, j, k2),
    ensures
        k1 < k2,
        number_of(run(through(events, k1)), address) == Some(number_set(events[i])),
        number_of(run(through(events, k2)), address) == Some(number_set(events[j])),
{
    if k1 >= j {
        assert(leaves_alone(events[j], address));
    }
    lemma_shown_number(events, address, i, k1);
    lemma_shown_number(events, address, j, k2);
}

/// A broadcast that shows an update shows the number that the update has
/// set.
pub proof fn lemma_shown_number(events: Seq<EventView>, address: Seq<char>, u: int, k: int)
    requires
        sets_number(events[u], address),
        registered(run(events.take(u)), address),
        shows(events, address, u, k),
    ensures
        number_of(run(through(events, k)), address) == Some(number_set(events[u])),
        notice(run(events.take(k)), events[k], address) == Some(
            ClientMessageView::StateUpdate { new_state: run(through(events, k)) },
        ),
{
    let upto = through(events, k);
    assert(upto.take(u) =~= events.take(u));
    assert(upto[u] == events[u]);
    assert forall|m: int| u + 1 <= m < upto.len() implies leaves_alone(
        #[trigger] upto[m],
        address,
    ) by {
        assert(upto[m] == events[m]);
    }
    lemma_number_is_last_set(upto, address, u);
    assert(upto.drop_last() =~= events.take(k));
    assert(upto.last() == events[k]);
}

/// The end of one client's connection leaves every other client registered
/// with its number, and brings it the snapshot that follows.
pub proof fn lemma_departure_spares_others(
    roster: Seq<EntryView>,
    gone: Seq<char>,
    other: Seq<char>,
)
    requires
        distinct(roster),
        other != gone,
        registered(roster, other),
    ensures
        number_of(next_roster(roster, EventView::ClientGone { address: gone }), other)
            == number_of(roster, other),
        notice(roster, EventView::ClientGone { address: gone }, other) == Some(
            ClientMessageView::StateUpdate { new_state: withdrawn(roster, gone) },
        ),
{
    lemma_withdrawn(roster, gone, other);
}

} // verus!
