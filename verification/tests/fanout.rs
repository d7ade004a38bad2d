use roster_sync::hub::{Delivery, Hub, BACKLOG};
use roster_sync::roster::parse;
use roster_sync::roster_set::RosterSet;
use roster_sync::session::{Session, SessionAction, SessionEvent};
use roster_sync::table::Table;

fn set_of(text: &str) -> RosterSet {
    let mut set: RosterSet = Table::new();
    set.insert("team".to_string(), parse(text));
    set
}

fn numbered(n: usize) -> RosterSet {
    set_of(&format!("entry{}\n", n))
}

fn is(set: &RosterSet, text: &str) -> bool {
    set.len() == 1 && set.get("team") == Some(&parse(text))
}

fn value(d: Delivery) -> RosterSet {
    match d {
        Delivery::Value(set) => set,
        other => panic!("no value: {:?}", other),
    }
}

fn sent(a: SessionAction) -> RosterSet {
    match a {
        SessionAction::Transmit(set) => set,
        other => panic!("nothing to send: {:?}", other),
    }
}

#[test]
fn the_backlog_holds_a_hundred() {
    assert_eq!(BACKLOG, 100);
}

#[test]
fn a_subscriber_gets_the_current_set_first() {
    let mut hub = Hub::new(set_of("start\n"));
    let id = hub.subscribe();
    assert!(is(&value(hub.next(id)), "start\n"));
    assert!(matches!(hub.next(id), Delivery::Empty));
}

#[test]
fn a_late_subscriber_gets_the_last_published_set_first() {
    let mut hub = Hub::new(set_of("start\n"));
    for n in 1..=5 {
        hub.publish(numbered(n));
    }
    assert!(is(hub.current(), "entry5\n"));
    let id = hub.subscribe();
    assert!(is(&value(hub.next(id)), "entry5\n"));
    assert!(matches!(hub.next(id), Delivery::Empty));
}

#[test]
fn published_sets_arrive_in_order_and_once() {
    let mut hub = Hub::new(set_of("start\n"));
    let a = hub.subscribe();
    hub.publish(numbered(1));
    let b = hub.subscribe();
    hub.publish(numbered(2));
    hub.publish(numbered(3));
    assert!(is(&value(hub.next(a)), "start\n"));
    assert!(is(&value(hub.next(a)), "entry1\n"));
    assert!(is(&value(hub.next(b)), "entry1\n"));
    assert!(is(&value(hub.next(a)), "entry2\n"));
    assert!(is(&value(hub.next(b)), "entry2\n"));
    assert!(is(&value(hub.next(b)), "entry3\n"));
    assert!(is(&value(hub.next(a)), "entry3\n"));
    assert!(matches!(hub.next(a), Delivery::Empty));
    assert!(matches!(hub.next(b), Delivery::Empty));
}

#[test]
fn a_full_backlog_loses_its_oldest() {
    let mut hub = Hub::new(numbered(0));
    let id = hub.subscribe();
    for n in 1..=BACKLOG + 2 {
        hub.publish(numbered(n));
    }
    for n in 3..=BACKLOG + 2 {
        assert!(is(&value(hub.next(id)), &format!("entry{}\n", n)), "at {}", n);
    }
    assert!(matches!(hub.next(id), Delivery::Empty));
}

#[test]
fn a_backlog_of_exactly_a_hundred_loses_nothing() {
    let mut hub = Hub::new(numbered(0));
    let id = hub.subscribe();
    for n in 1..BACKLOG {
        hub.publish(numbered(n));
    }
    for n in 0..BACKLOG {
        assert!(is(&value(hub.next(id)), &format!("entry{}\n", n)), "at {}", n);
    }
    assert!(matches!(hub.next(id), Delivery::Empty));
}

#[test]
fn handles_are_the_least_free() {
    let mut hub = Hub::new(set_of(""));
    assert_eq!(hub.subscribe(), 0);
    assert_eq!(hub.subscribe(), 1);
    assert_eq!(hub.subscribe(), 2);
    hub.detach(1);
    assert!(hub.is_attached(0));
    assert!(!hub.is_attached(1));
    assert!(hub.is_attached(2));
    assert!(!hub.is_attached(3));
    assert_eq!(hub.subscribe(), 1);
    assert_eq!(hub.subscribe(), 3);
}

#[test]
fn a_detached_handle_gets_nothing() {
    let mut hub = Hub::new(set_of("a\n"));
    let id = hub.subscribe();
    hub.detach(id);
    assert!(matches!(hub.next(id), Delivery::Detached));
    assert!(matches!(hub.next(7), Delivery::Detached));
    hub.detach(7);
    hub.publish(set_of("b\n"));
    assert!(matches!(hub.next(id), Delivery::Detached));
    let again = hub.subscribe();
    assert_eq!(again, id);
    assert!(is(&value(hub.next(again)), "b\n"));
    assert!(matches!(hub.next(again), Delivery::Empty));
}

#[test]
fn a_closed_hub_hands_out_what_waits_and_then_says_so() {
    let mut hub = Hub::new(set_of("a\n"));
    let id = hub.subscribe();
    hub.publish(set_of("b\n"));
    assert!(!hub.is_closed());
    hub.close();
    assert!(hub.is_closed());
    hub.publish(set_of("c\n"));
    assert!(is(hub.current(), "b\n"));
    assert!(is(&value(hub.next(id)), "a\n"));
    assert!(is(&value(hub.next(id)), "b\n"));
    assert!(matches!(hub.next(id), Delivery::Closed));
}

#[test]
fn a_session_sends_the_snapshot_then_each_publish() {
    let mut hub = Hub::new(set_of("start\n"));
    hub.publish(numbered(1));
    let mut session = Session::attach(&mut hub);
    assert!(!session.has_ended());
    assert!(is(&sent(session.advance(&mut hub, SessionEvent::Woken)), "entry1\n"));
    assert!(matches!(session.advance(&mut hub, SessionEvent::Sent), SessionAction::Wait));
    hub.publish(numbered(2));
    hub.publish(numbered(3));
    assert!(is(&sent(session.advance(&mut hub, SessionEvent::Woken)), "entry2\n"));
    assert!(is(&sent(session.advance(&mut hub, SessionEvent::Sent)), "entry3\n"));
    assert!(matches!(session.advance(&mut hub, SessionEvent::Sent), SessionAction::Wait));
    assert!(matches!(session.advance(&mut hub, SessionEvent::Woken), SessionAction::Wait));
    assert!(!session.has_ended());
}

#[test]
fn a_failed_send_ends_the_session() {
    let mut hub = Hub::new(set_of("start\n"));
    let mut session = Session::attach(&mut hub);
    assert!(hub.is_attached(0));
    let _ = sent(session.advance(&mut hub, SessionEvent::Woken));
    assert!(matches!(session.advance(&mut hub, SessionEvent::SendFailed), SessionAction::End));
    assert!(session.has_ended());
    assert!(!hub.is_attached(0));
    hub.publish(numbered(1));
    assert!(matches!(session.advance(&mut hub, SessionEvent::Woken), SessionAction::End));
    assert!(matches!(session.advance(&mut hub, SessionEvent::Sent), SessionAction::End));
}

#[test]
fn closing_the_hub_ends_the_session_once_it_is_drained() {
    let mut hub = Hub::new(set_of("start\n"));
    let mut session = Session::attach(&mut hub);
    hub.publish(numbered(1));
    hub.close();
    assert!(is(&sent(session.advance(&mut hub, SessionEvent::Woken)), "start\n"));
    assert!(is(&sent(session.advance(&mut hub, SessionEvent::Sent)), "entry1\n"));
    assert!(matches!(session.advance(&mut hub, SessionEvent::Sent), SessionAction::End));
    assert!(session.has_ended());
    assert!(!hub.is_attached(0));
}

#[test]
fn sessions_do_not_disturb_each_other() {
    let mut hub = Hub::new(set_of("start\n"));
    let mut one = Session::attach(&mut hub);
    let mut two = Session::attach(&mut hub);
    let _ = sent(one.advance(&mut hub, SessionEvent::Woken));
    let _ = sent(two.advance(&mut hub, SessionEvent::Woken));
    hub.publish(numbered(1));
    assert!(matches!(one.advance(&mut hub, SessionEvent::SendFailed), SessionAction::End));
    assert!(is(&sent(two.advance(&mut hub, SessionEvent::Sent)), "entry1\n"));
    assert!(matches!(two.advance(&mut hub, SessionEvent::Sent), SessionAction::Wait));
}
