use futures::channel::mpsc::{unbounded, UnboundedReceiver};
use shared_numbers::client_message::{ClientMessage, Entry, Snapshot};
use shared_numbers::state::State;
use shared_numbers::state_keeper_message::StateKeeperMessage;

fn entry(address: &str, number: i64) -> Entry {
    Entry { address: address.to_string(), number }
}

fn update(entries: Vec<Entry>) -> ClientMessage {
    ClientMessage::StateUpdate { new_state: Snapshot { entries } }
}

fn error(text: &str) -> ClientMessage {
    ClientMessage::Error { message: text.to_string() }
}

fn taken(receiver: &mut UnboundedReceiver<ClientMessage>) -> Vec<ClientMessage> {
    let mut messages = Vec::new();
    while let Ok(message) = receiver.try_recv() {
        messages.push(message);
    }
    messages
}

fn join(state: &mut State, address: &str) -> UnboundedReceiver<ClientMessage> {
    let (sender, receiver) = unbounded();
    let refused =
        state.handle(StateKeeperMessage::NewClient { address: address.to_string(), sender });
    assert!(refused.is_empty());
    receiver
}

fn line(source: &str, text: &str) -> StateKeeperMessage {
    StateKeeperMessage::Message { source: source.to_string(), text: text.to_string() }
}

fn gone(address: &str) -> StateKeeperMessage {
    StateKeeperMessage::ClientGone { address: address.to_string() }
}

#[test]
fn the_first_client_sees_itself() {
    let mut state = State::new();
    let mut a = join(&mut state, "A");
    assert_eq!(taken(&mut a), vec![update(vec![entry("A", 0)])]);
}

#[test]
fn a_second_client_is_shown_to_both() {
    let mut state = State::new();
    let mut a = join(&mut state, "A");
    taken(&mut a);
    let mut b = join(&mut state, "B");
    assert_eq!(taken(&mut a), vec![update(vec![entry("A", 0), entry("B", 0)])]);
    assert_eq!(taken(&mut b), vec![update(vec![entry("A", 0), entry("B", 0)])]);
}

#[test]
fn a_number_is_shown_to_both() {
    let mut state = State::new();
    let mut a = join(&mut state, "A");
    let mut b = join(&mut state, "B");
    taken(&mut a);
    taken(&mut b);
    assert!(state.handle(line("A", "5\n")).is_empty());
    assert_eq!(taken(&mut a), vec![update(vec![entry("A", 5), entry("B", 0)])]);
    assert_eq!(taken(&mut b), vec![update(vec![entry("A", 5), entry("B", 0)])]);
}

#[test]
fn a_bad_line_is_answered_to_its_sender_only() {
    let mut state = State::new();
    let mut a = join(&mut state, "A");
    let mut b = join(&mut state, "B");
    state.handle(line("A", "5\n"));
    taken(&mut a);
    taken(&mut b);
    assert!(state.handle(line("B", "abc\n")).is_empty());
    assert_eq!(taken(&mut a), vec![]);
    assert_eq!(taken(&mut b), vec![error("invalid digit found in string\n")]);
    assert_eq!(state.snapshot().entries, vec![entry("A", 5), entry("B", 0)]);
}

#[test]
fn a_departure_is_shown_to_those_who_stay() {
    let mut state = State::new();
    let mut a = join(&mut state, "A");
    let mut b = join(&mut state, "B");
    state.handle(line("A", "5\n"));
    state.handle(line("B", "abc\n"));
    taken(&mut a);
    taken(&mut b);
    assert!(state.handle(gone("A")).is_empty());
    assert_eq!(taken(&mut a), vec![]);
    assert_eq!(taken(&mut b), vec![update(vec![entry("B", 0)])]);
    assert_eq!(state.snapshot().entries, vec![entry("B", 0)]);
}

#[test]
fn each_kind_of_bad_line_gets_its_notice() {
    let mut state = State::new();
    let mut a = join(&mut state, "A");
    taken(&mut a);
    state.handle(line("A", "\n"));
    state.handle(line("A", "x\n"));
    state.handle(line("A", "9223372036854775808\n"));
    state.handle(line("A", "-9223372036854775809\n"));
    assert_eq!(
        taken(&mut a),
        vec![
            error("cannot parse integer from empty string\n"),
            error("invalid digit found in string\n"),
            error("number too large to fit in target type\n"),
            error("number too small to fit in target type\n"),
        ]
    );
    assert_eq!(state.number_of(&"A".to_string()), Some(0));
}

#[test]
fn a_bad_line_changes_no_later_snapshot() {
    let mut with = State::new();
    let mut without = State::new();
    let mut seen_with = join(&mut with, "A");
    let mut seen_without = join(&mut without, "A");
    with.handle(line("A", "1\n"));
    without.handle(line("A", "1\n"));
    taken(&mut seen_with);
    taken(&mut seen_without);
    with.handle(line("A", "one\n"));
    assert_eq!(taken(&mut seen_with), vec![error("invalid digit found in string\n")]);
    let mut b_with = join(&mut with, "B");
    let mut b_without = join(&mut without, "B");
    with.handle(line("B", "2\n"));
    without.handle(line("B", "2\n"));
    assert_eq!(taken(&mut seen_with), taken(&mut seen_without));
    assert_eq!(taken(&mut b_with), taken(&mut b_without));
    assert_eq!(with.snapshot(), without.snapshot());
}

#[test]
fn a_line_from_an_unknown_client_sets_nothing_but_is_broadcast() {
    let mut state = State::new();
    let mut a = join(&mut state, "A");
    taken(&mut a);
    assert!(state.handle(line("Z", "9\n")).is_empty());
    assert_eq!(taken(&mut a), vec![update(vec![entry("A", 0)])]);
}

#[test]
fn a_bad_line_from_an_unknown_client_is_dropped() {
    let mut state = State::new();
    let mut a = join(&mut state, "A");
    taken(&mut a);
    assert!(state.handle(line("Z", "nine\n")).is_empty());
    assert_eq!(taken(&mut a), vec![]);
    assert_eq!(state.snapshot().entries, vec![entry("A", 0)]);
}

#[test]
fn the_end_of_an_unknown_connection_is_broadcast() {
    let mut state = State::new();
    let mut a = join(&mut state, "A");
    taken(&mut a);
    assert!(state.handle(gone("Z")).is_empty());
    assert_eq!(taken(&mut a), vec![update(vec![entry("A", 0)])]);
}

#[test]
fn a_second_connection_from_one_address_keeps_the_first() {
    let mut state = State::new();
    let mut first = join(&mut state, "A");
    state.handle(line("A", "4\n"));
    taken(&mut first);
    let mut second = join(&mut state, "A");
    assert_eq!(taken(&mut first), vec![update(vec![entry("A", 4)])]);
    assert_eq!(taken(&mut second), vec![]);
}

#[test]
fn each_change_is_broadcast_on_its_own() {
    let mut state = State::new();
    let mut a = join(&mut state, "A");
    taken(&mut a);
    for number in 1..=5 {
        state.handle(line("A", &format!("{}\n", number)));
    }
    let expected: Vec<ClientMessage> =
        (1..=5).map(|number| update(vec![entry("A", number)])).collect();
    assert_eq!(taken(&mut a), expected);
}

#[test]
fn a_client_holds_the_last_number_it_has_set() {
    let mut state = State::new();
    let _a = join(&mut state, "A");
    let _b = join(&mut state, "B");
    assert_eq!(state.number_of(&"A".to_string()), Some(0));
    state.handle(line("A", "3\n"));
    state.handle(line("B", "8\n"));
    state.handle(line("A", "oops\n"));
    state.handle(line("A", "-4\n"));
    state.handle(line("B", "\n"));
    assert_eq!(state.number_of(&"A".to_string()), Some(-4));
    assert_eq!(state.number_of(&"B".to_string()), Some(8));
    state.handle(gone("A"));
    let _again = join(&mut state, "A");
    assert_eq!(state.number_of(&"A".to_string()), Some(0));
}

#[test]
fn updates_of_one_client_show_in_the_order_sent() {
    let mut state = State::new();
    let _x = join(&mut state, "X");
    let mut watcher = join(&mut state, "W");
    taken(&mut watcher);
    state.handle(line("X", "10\n"));
    state.handle(line("W", "1\n"));
    state.handle(line("X", "20\n"));
    state.handle(line("W", "2\n"));
    let shown: Vec<i64> = taken(&mut watcher)
        .into_iter()
        .map(|message| match message {
            ClientMessage::StateUpdate { new_state } => new_state.entries[0].number,
            ClientMessage::Error { .. } => panic!("no error was due"),
        })
        .collect();
    assert_eq!(shown, vec![10, 10, 20, 20]);
}

#[test]
fn handling_reports_a_closed_queue_and_leaves_the_client() {
    let mut state = State::new();
    let a = join(&mut state, "A");
    let mut b = join(&mut state, "B");
    taken(&mut b);
    drop(a);
    assert_eq!(state.handle(line("B", "1\n")), vec!["A".to_string()]);
    assert_eq!(taken(&mut b), vec![update(vec![entry("A", 0), entry("B", 1)])]);
    assert!(state.is_registered(&"A".to_string()));
}

#[test]
fn handling_reports_a_notice_that_was_not_taken() {
    let mut state = State::new();
    let a = join(&mut state, "A");
    drop(a);
    assert_eq!(state.handle(line("A", "x\n")), vec!["A".to_string()]);
}

#[test]
fn processing_drops_a_client_whose_queue_is_closed() {
    let mut state = State::new();
    let a = join(&mut state, "A");
    let mut b = join(&mut state, "B");
    taken(&mut b);
    drop(a);
    assert_eq!(state.process(line("B", "1\n")), vec!["A".to_string()]);
    assert_eq!(
        taken(&mut b),
        vec![update(vec![entry("A", 0), entry("B", 1)]), update(vec![entry("B", 1)])]
    );
    assert!(!state.is_registered(&"A".to_string()));
    assert_eq!(state.snapshot().entries, vec![entry("B", 1)]);
}

#[test]
fn processing_drops_every_client_whose_queue_is_closed() {
    let mut state = State::new();
    let a = join(&mut state, "A");
    let mut b = join(&mut state, "B");
    let c = join(&mut state, "C");
    taken(&mut b);
    drop(a);
    drop(c);
    let mut dropped = state.process(gone("Z"));
    dropped.sort();
    assert_eq!(dropped, vec!["A".to_string(), "C".to_string()]);
    assert_eq!(state.snapshot().entries, vec![entry("B", 0)]);
    let seen = taken(&mut b);
    assert_eq!(seen.len(), 3);
    assert_eq!(seen[0], update(vec![entry("A", 0), entry("B", 0), entry("C", 0)]));
    assert_eq!(seen[2], update(vec![entry("B", 0)]));
}

#[test]
fn processing_drops_nobody_while_all_queues_are_open() {
    let mut state = State::new();
    let mut a = join(&mut state, "A");
    let (sender, mut b) = unbounded();
    let dropped = state.process(StateKeeperMessage::NewClient { address: "B".to_string(), sender });
    assert!(dropped.is_empty());
    assert!(state.process(line("A", "7\n")).is_empty());
    assert!(state.process(line("A", "seven\n")).is_empty());
    assert_eq!(
        taken(&mut a),
        vec![
            update(vec![entry("A", 0)]),
            update(vec![entry("A", 0), entry("B", 0)]),
            update(vec![entry("A", 7), entry("B", 0)]),
            error("invalid digit found in string\n"),
        ]
    );
    assert_eq!(
        taken(&mut b),
        vec![update(vec![entry("A", 0), entry("B", 0)]), update(vec![entry("A", 7), entry("B", 0)])]
    );
}

#[test]
fn processing_drops_a_client_that_takes_no_notice() {
    let mut state = State::new();
    let a = join(&mut state, "A");
    let mut b = join(&mut state, "B");
    taken(&mut b);
    drop(a);
    assert_eq!(state.process(line("A", "x\n")), vec!["A".to_string()]);
    assert_eq!(taken(&mut b), vec![update(vec![entry("B", 0)])]);
}

#[test]
fn processing_a_new_client_whose_queue_is_closed_already_drops_it() {
    let mut state = State::new();
    let mut a = join(&mut state, "A");
    taken(&mut a);
    let (sender, receiver) = unbounded();
    drop(receiver);
    let dropped = state.process(StateKeeperMessage::NewClient { address: "B".to_string(), sender });
    assert_eq!(dropped, vec!["B".to_string()]);
    assert_eq!(
        taken(&mut a),
        vec![update(vec![entry("A", 0), entry("B", 0)]), update(vec![entry("A", 0)])]
    );
}

#[test]
fn reconciling_with_nobody_listed_does_nothing() {
    let mut state = State::new();
    let mut a = join(&mut state, "A");
    taken(&mut a);
    assert!(state.reconcile(vec![]).is_empty());
    assert_eq!(taken(&mut a), vec![]);
    assert_eq!(state.snapshot().entries, vec![entry("A", 0)]);
}

#[test]
fn reconciling_drops_the_listed_client_and_tells_the_others() {
    let mut state = State::new();
    let a = join(&mut state, "A");
    let mut b = join(&mut state, "B");
    state.handle(line("B", "3\n"));
    taken(&mut b);
    drop(a);
    assert_eq!(state.reconcile(vec!["A".to_string()]), vec!["A".to_string()]);
    assert_eq!(taken(&mut b), vec![update(vec![entry("B", 3)])]);
    assert_eq!(state.snapshot().entries, vec![entry("B", 3)]);
}

#[test]
fn reconciling_passes_over_an_address_that_is_not_registered() {
    let mut state = State::new();
    let mut a = join(&mut state, "A");
    taken(&mut a);
    assert!(state.reconcile(vec!["Z".to_string(), "Y".to_string()]).is_empty());
    assert_eq!(taken(&mut a), vec![]);
    assert_eq!(state.snapshot().entries, vec![entry("A", 0)]);
}

#[test]
fn reconciling_drops_in_turn_who_refuses_the_broadcast_that_follows() {
    let mut state = State::new();
    let a = join(&mut state, "A");
    let mut b = join(&mut state, "B");
    let c = join(&mut state, "C");
    taken(&mut b);
    drop(a);
    drop(c);
    assert_eq!(state.reconcile(vec!["A".to_string()]), vec!["A".to_string(), "C".to_string()]);
    assert_eq!(
        taken(&mut b),
        vec![update(vec![entry("B", 0), entry("C", 0)]), update(vec![entry("B", 0)])]
    );
}

#[test]
fn a_listed_address_is_dropped_once() {
    let mut state = State::new();
    let a = join(&mut state, "A");
    let mut b = join(&mut state, "B");
    taken(&mut b);
    drop(a);
    let dropped = state.reconcile(vec!["A".to_string(), "A".to_string()]);
    assert_eq!(dropped, vec!["A".to_string()]);
    assert_eq!(taken(&mut b), vec![update(vec![entry("B", 0)])]);
}
