use nfdeterminize::automaton_multithreaded::Shard;
use nfdeterminize::coordinator::Coordinator;

#[test]
fn coordinator_stops_when_the_last_shard_is_idle() {
    let mut c = Coordinator::new(3);
    assert_eq!(c.busy, 3);
    assert_eq!(c.idle, vec![false, false, false]);
    assert!(!c.report(true, 0));
    assert!(!c.report(true, 0));
    assert_eq!(c.busy, 2);
    assert!(!c.report(true, 2));
    assert!(!c.report(false, 0));
    assert_eq!(c.busy, 2);
    assert!(!c.report(true, 0));
    assert!(c.report(true, 1));
    assert_eq!(c.busy, 0);
    assert_eq!(c.idle, vec![true, true, true]);
    assert!(c.report(true, 1));
    assert!(!c.report(false, 1));
    assert_eq!(c.busy, 1);
}

#[test]
fn coordinator_of_no_shard_has_nothing_busy() {
    let c = Coordinator::new(0);
    assert_eq!(c.busy, 0);
    assert!(c.idle.is_empty());
}

#[test]
fn new_shard_holds_nothing() {
    let s = Shard::new();
    assert_eq!(s.table.len(), 0);
    assert!(s.frontier.is_empty());
    assert_eq!(s.done, 0);
    assert!(s.transitions.is_empty());
    assert!(s.accepts.is_empty());
}
