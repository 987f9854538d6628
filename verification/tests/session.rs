use shared_numbers::client_message::{ClientMessage, Entry, Snapshot};
use shared_numbers::session::{Egress, Ingress};
use shared_numbers::state_keeper_message::StateKeeperMessage;

fn update(entries: Vec<(&str, i64)>) -> ClientMessage {
    ClientMessage::StateUpdate {
        new_state: Snapshot {
            entries: entries
                .into_iter()
                .map(|(address, number)| Entry { address: address.to_string(), number })
                .collect(),
        },
    }
}

fn is_line(event: &Option<StateKeeperMessage>, from: &str, line: &str) -> bool {
    match event {
        Some(StateKeeperMessage::Message { source, text }) => source == from && text == line,
        _ => false,
    }
}

fn is_gone(event: &Option<StateKeeperMessage>, who: &str) -> bool {
    match event {
        Some(StateKeeperMessage::ClientGone { address }) => address == who,
        _ => false,
    }
}

#[test]
fn a_line_becomes_a_message_from_its_client() {
    let mut ingress = Ingress::new("10.0.0.1:999".to_string());
    assert!(ingress.reading());
    assert!(is_line(&ingress.read("5\n".to_string()), "10.0.0.1:999", "5\n"));
    assert!(is_line(&ingress.read("\n".to_string()), "10.0.0.1:999", "\n"));
    assert!(is_line(&ingress.read("no end of line".to_string()), "10.0.0.1:999", "no end of line"));
    assert!(ingress.reading());
}

#[test]
fn the_end_of_the_stream_is_told_once() {
    let mut ingress = Ingress::new("A".to_string());
    ingress.read("1\n".to_string());
    assert!(is_gone(&ingress.read(String::new()), "A"));
    assert!(!ingress.reading());
    assert!(ingress.read(String::new()).is_none());
    assert!(ingress.read("2\n".to_string()).is_none());
    assert!(!ingress.reading());
}

#[test]
fn a_stream_that_ends_at_once_yields_the_end_only() {
    let mut ingress = Ingress::new("A".to_string());
    assert!(is_gone(&ingress.read(String::new()), "A"));
    assert!(ingress.read(String::new()).is_none());
}

#[test]
fn the_first_update_has_the_number_zero() {
    let mut egress = Egress::new();
    assert!(egress.has_room());
    assert_eq!(egress.render(&update(vec![("A", 0)])), "update #0:\nA -> 0\n");
}

#[test]
fn an_update_lists_every_client() {
    let mut egress = Egress::new();
    assert_eq!(
        egress.render(&update(vec![("127.0.0.1:5000", 5), ("127.0.0.1:5001", -3)])),
        "update #0:\n127.0.0.1:5000 -> 5\n127.0.0.1:5001 -> -3\n"
    );
}

#[test]
fn an_update_without_clients_is_its_header() {
    let mut egress = Egress::new();
    assert_eq!(egress.render(&update(vec![])), "update #0:\n");
}

#[test]
fn an_error_is_marked_as_one() {
    let mut egress = Egress::new();
    let notice = ClientMessage::Error { message: "invalid digit found in string\n".to_string() };
    assert_eq!(egress.render(&notice), "Error: invalid digit found in string\n");
}

#[test]
fn every_message_counts() {
    let mut egress = Egress::new();
    let notice = ClientMessage::Error { message: "x\n".to_string() };
    assert_eq!(egress.render(&update(vec![("A", 1)])), "update #0:\nA -> 1\n");
    assert_eq!(egress.render(&notice), "Error: x\n");
    assert_eq!(egress.render(&update(vec![("A", 2)])), "update #2:\nA -> 2\n");
    for _ in 3..12 {
        egress.render(&notice);
    }
    assert_eq!(egress.render(&update(vec![])), "update #12:\n");
    assert!(egress.has_room());
}
