use protocol::codec::Frame;
use protocol::outbox::Outbox;

fn rest(outbox: &mut Outbox) -> Vec<String> {
    let mut lines = Vec::new();
    while let Some(line) = outbox.next_line() {
        lines.push(line);
    }
    lines
}

#[test]
fn frames_leave_in_the_order_they_came() {
    let mut outbox = Outbox::new(4);
    assert!(outbox.send(Frame::new("EVT", 1, "a")));
    assert!(outbox.send(Frame::new("ASK", 2, "b")));
    assert!(outbox.send(Frame::new("EVT", 3, "c")));
    assert_eq!(rest(&mut outbox), vec!["EVT 1 a", "ASK 2 b", "EVT 3 c"]);
}

#[test]
fn events_are_dropped_and_questions_are_not() {
    let mut outbox = Outbox::new(1);
    assert!(outbox.send(Frame::new("EVT", 1, "a")));
    assert!(!outbox.send(Frame::new("EVT", 2, "a")));
    assert!(outbox.send(Frame::new("ASK", 3, "b")));
    assert!(outbox.send(Frame::new("RES", 4, "")));
    assert!(!outbox.send(Frame::new("EVT", 5, "a")));
    assert_eq!(
        rest(&mut outbox),
        vec!["EVT 1 a", "ASK 3 b", "RES 4", "LOG warn dropped=2"]
    );
    assert!(outbox.send(Frame::new("EVT", 6, "a")), "Coderpack has caught up");
    assert_eq!(rest(&mut outbox), vec!["EVT 6 a"]);
}

#[test]
fn losses_are_reported_once_nothing_waits() {
    let mut outbox = Outbox::new(0);
    assert!(!outbox.send(Frame::new("EVT", 1, "a")));
    assert!(outbox.send(Frame::new("ASK", 2, "b")));
    assert_eq!(outbox.next_line(), Some("ASK 2 b".to_string()));
    assert!(!outbox.send(Frame::new("EVT", 3, "a")));
    assert_eq!(outbox.next_line(), Some("LOG warn dropped=2".to_string()));
    assert_eq!(outbox.next_line(), None);
}

#[test]
fn a_closed_outbox_drops_everything() {
    let mut outbox = Outbox::new(4);
    outbox.send(Frame::new("ASK", 1, "a"));
    outbox.close();
    assert!(!outbox.send(Frame::new("ASK", 2, "a")));
    assert_eq!(outbox.dropped, 1);
    assert_eq!(outbox.waiting.len(), 1);
}

#[test]
fn the_count_of_losses_stays_at_its_maximum() {
    let mut outbox = Outbox::new(0);
    outbox.dropped = u64::MAX;
    outbox.send(Frame::new("EVT", 1, "a"));
    assert_eq!(
        outbox.next_line(),
        Some("LOG warn dropped=18446744073709551615".to_string())
    );
}
