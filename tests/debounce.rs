use code_statistics::debounce::{Consolidator, LogMessage, QuietEvent, Quiescence};
use code_statistics::log::Status;

fn start(id: u128, time: i64, language: usize, project: usize) -> LogMessage {
    LogMessage::Start { id, time, language, project }
}

#[test]
fn start_then_matching_end_emits_active_then_dormant() {
    let mut c = Consolidator::new();
    assert_eq!(
        c.handle(start(1, 10, 0, 0)),
        Some(Status::Active { time: 10, language: 0, project: 0 })
    );
    assert_eq!(c.handle(LogMessage::End { id: 1, time: 20 }), Some(Status::Dormant { time: 20 }));
    assert_eq!(c.handle(LogMessage::End { id: 1, time: 30 }), None);
}

#[test]
fn stale_end_from_other_connection_is_dropped() {
    let mut c = Consolidator::new();
    c.handle(start(1, 10, 0, 0));
    c.handle(start(2, 11, 1, 0));
    assert_eq!(c.handle(LogMessage::End { id: 1, time: 12 }), None);
    assert_eq!(c.handle(LogMessage::End { id: 2, time: 13 }), Some(Status::Dormant { time: 13 }));
}

#[test]
fn same_pair_from_two_connections_is_one_active() {
    let mut c = Consolidator::new();
    let first = c.handle(start(1, 10, 3, 4));
    let second = c.handle(start(2, 11, 3, 4));
    assert_eq!(first, Some(Status::Active { time: 10, language: 3, project: 4 }));
    assert_eq!(second, None);
}

#[test]
fn reset_lets_same_pair_start_again() {
    let mut c = Consolidator::new();
    c.handle(start(1, 10, 3, 4));
    assert_eq!(c.handle(LogMessage::ResetStatus), None);
    assert_eq!(
        c.handle(start(1, 50, 3, 4)),
        Some(Status::Active { time: 50, language: 3, project: 4 })
    );
}

#[test]
fn end_without_start_is_dropped() {
    let mut c = Consolidator::new();
    assert_eq!(c.handle(LogMessage::End { id: 0, time: 5 }), None);
}

#[test]
fn burst_forwards_only_last() {
    let mut q = Quiescence::new();
    assert!(!q.waiting());
    for (t, l) in [(1, 0), (2, 1), (3, 2)] {
        assert_eq!(q.step(QuietEvent::Arrive(Status::Active { time: t, language: l, project: 0 })), None);
        assert!(q.waiting());
    }
    assert_eq!(
        q.step(QuietEvent::Elapse),
        Some(Status::Active { time: 3, language: 2, project: 0 })
    );
    assert!(!q.waiting());
    assert_eq!(q.step(QuietEvent::Elapse), None);
}

#[test]
fn separated_statuses_both_forwarded() {
    let mut q = Quiescence::new();
    let a = Status::Active { time: 1, language: 0, project: 0 };
    let b = Status::Active { time: 100, language: 1, project: 0 };
    q.step(QuietEvent::Arrive(a));
    assert_eq!(q.step(QuietEvent::Elapse), Some(a));
    q.step(QuietEvent::Arrive(b));
    assert_eq!(q.step(QuietEvent::Elapse), Some(b));
}

#[test]
fn forwarded_statuses_keep_arrival_order() {
    let mut q = Quiescence::new();
    let s = |t: i64| Status::Dormant { time: t };
    let mut out = Vec::new();
    for ev in [
        QuietEvent::Arrive(s(1)),
        QuietEvent::Arrive(s(2)),
        QuietEvent::Elapse,
        QuietEvent::Arrive(s(3)),
        QuietEvent::Elapse,
        QuietEvent::Elapse,
    ] {
        if let Some(f) = q.step(ev) {
            out.push(f);
        }
    }
    assert_eq!(out, vec![s(2), s(3)]);
}
