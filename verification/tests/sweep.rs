use metaballs::sweep::run_sweep;
use metaballs::sweep::ActiveSet;
use metaballs::sweep::Event;
use metaballs::sweep::EventKind;

fn entry(ball: usize) -> Event {
    Event { ball, kind: EventKind::Entry }
}

fn exit(ball: usize) -> Event {
    Event { ball, kind: EventKind::Exit }
}

#[test]
fn sweep_of_matched_events_drains() {
    // Two overlapping bounding spheres: every entry has a later exit, so
    // the active set must be empty once all events are consumed.
    let events = vec![entry(0), entry(1), exit(0), exit(1)];
    let set = run_sweep(&events);
    assert_eq!(set.len(), 0);
}

#[test]
fn active_set_follows_the_events() {
    let events = vec![entry(0), entry(1), exit(0), exit(1)];
    let mut set = ActiveSet::new();
    set.process(&events[0]);
    assert!(set.contains(0));
    assert_eq!(set.len(), 1);
    set.process(&events[1]);
    assert!(set.contains(0) && set.contains(1));
    assert_eq!(set.len(), 2);
    set.process(&events[2]);
    assert!(!set.contains(0) && set.contains(1));
    assert_eq!(set.get(0), 1);
    set.process(&events[3]);
    assert_eq!(set.len(), 0);
}

#[test]
fn identical_balls_are_tracked_by_identity() {
    // Two structurally identical metaballs get distinct indices; removing
    // one must not remove the other.
    let events = vec![entry(0), entry(1), exit(0)];
    let set = run_sweep(&events);
    assert_eq!(set.len(), 1);
    assert!(set.contains(1));
    assert!(!set.contains(0));
}

#[test]
fn degenerate_interval_does_not_disturb_the_sweep() {
    // A zero-radius ball yields a zero-length interval: its entry and exit
    // are adjacent.  The sweep consumes the pair without harm.
    let events = vec![entry(7), exit(7)];
    let set = run_sweep(&events);
    assert_eq!(set.len(), 0);

    let events = vec![entry(0), entry(7), exit(7), exit(0)];
    let set = run_sweep(&events);
    assert_eq!(set.len(), 0);
}

#[test]
fn empty_stream_leaves_the_set_empty() {
    let set = run_sweep(&Vec::new());
    assert_eq!(set.len(), 0);
}

#[test]
fn exit_without_entry_removes_nothing() {
    let events = vec![exit(3)];
    let set = run_sweep(&events);
    assert_eq!(set.len(), 0);
}

#[test]
fn insertion_order_is_kept() {
    let events = vec![entry(4), entry(2), entry(9), exit(2)];
    let set = run_sweep(&events);
    assert_eq!(set.len(), 2);
    assert_eq!(set.get(0), 4);
    assert_eq!(set.get(1), 9);
}
