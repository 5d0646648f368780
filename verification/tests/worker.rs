//! Event routing and drain decisions of the data-plane worker.

use vhost_bounce::bounce::worker::{
    backend_call_token, drain_round, drain_step, guest_kick_token, initial_sweep, route_event,
    steps_for, DrainStep, QueueEvent, WorkerStep, BOUNCE_DRAIN_TIMEOUT, MAX_EVENT_QUEUES,
    QUEUE_EVENT_BASE,
};
use vhost_bounce::epoll_helper::EPOLL_HELPER_EVENT_LAST;

#[test]
fn tokens_start_after_the_reserved_ones() {
    assert_eq!(QUEUE_EVENT_BASE, EPOLL_HELPER_EVENT_LAST + 1);
    assert_eq!(guest_kick_token(0), 16);
    assert_eq!(backend_call_token(0), 17);
    assert_eq!(guest_kick_token(5), 26);
    assert_eq!(backend_call_token(MAX_EVENT_QUEUES - 1), u16::MAX);
}

#[test]
fn tokens_route_back_to_their_queue() {
    for n in [1usize, 2, 7, MAX_EVENT_QUEUES] {
        for i in [0, n / 2, n - 1] {
            let kick = u64::from(guest_kick_token(i));
            let call = u64::from(backend_call_token(i));
            assert_eq!(route_event(kick, n), Some(QueueEvent::GuestKick(i)));
            assert_eq!(route_event(call, n), Some(QueueEvent::BackendCall(i)));
        }
    }
}

#[test]
fn foreign_tokens_route_nowhere() {
    assert_eq!(route_event(18, 1), None);
    assert_eq!(route_event(0, 4), None);
    assert_eq!(route_event(15, 4), None);
    // Only the low 16 bits of the event data are the token.
    assert_eq!(
        route_event(0xabcd_0000_0000_0010, 1),
        Some(QueueEvent::GuestKick(0))
    );
}

#[test]
fn drain_goes_on_until_empty_or_late() {
    assert_eq!(drain_step(0, false), DrainStep::Drained);
    assert_eq!(drain_step(0, true), DrainStep::Drained);
    assert_eq!(drain_step(3, false), DrainStep::Retry);
    assert_eq!(drain_step(3, true), DrainStep::TimedOut);
    assert_eq!(BOUNCE_DRAIN_TIMEOUT, 5);
}

#[test]
fn steps_of_each_event() {
    assert_eq!(
        initial_sweep(2),
        vec![WorkerStep::Mirror(0), WorkerStep::Mirror(1)]
    );
    assert_eq!(
        steps_for(QueueEvent::GuestKick(1), 3),
        vec![WorkerStep::DrainKick(1), WorkerStep::Mirror(1)]
    );
    assert_eq!(
        steps_for(QueueEvent::BackendCall(1), 3),
        vec![
            WorkerStep::DrainCall(1),
            WorkerStep::Complete(1),
            WorkerStep::Mirror(0),
            WorkerStep::Mirror(1),
            WorkerStep::Mirror(2),
        ]
    );
    assert_eq!(
        drain_round(2),
        vec![
            WorkerStep::DrainCall(0),
            WorkerStep::Complete(0),
            WorkerStep::DrainCall(1),
            WorkerStep::Complete(1),
        ]
    );
}
