//! The decisions of the event loop.

use vhost_bounce::epoll_helper::{
    next_action, next_fuzzing_action, LoopAction, LoopReply, EPOLL_HELPER_EVENT_KILL,
    EPOLL_HELPER_EVENT_PAUSE,
};

/// Play a script of replies against the loop; the actions it asks for.
fn play(list_events: bool, replies: &[LoopReply]) -> Vec<LoopAction> {
    let mut action = LoopAction::CheckPaused;
    let mut seen = vec![action];
    for reply in replies {
        action = next_action(action, *reply, list_events);
        seen.push(action);
    }
    seen
}

#[test]
fn a_paused_thread_parks_before_it_waits() {
    assert_eq!(
        play(
            false,
            &[
                LoopReply::Paused(true),
                LoopReply::Unparked,
                LoopReply::Paused(true),
                LoopReply::Unparked,
                LoopReply::Paused(false),
            ]
        ),
        vec![
            LoopAction::CheckPaused,
            LoopAction::Park,
            LoopAction::CheckPaused,
            LoopAction::Park,
            LoopAction::CheckPaused,
            LoopAction::Wait,
        ]
    );
}

#[test]
fn interrupted_waits_are_retried_and_failed_ones_are_not() {
    assert_eq!(
        next_action(LoopAction::Wait, LoopReply::Interrupted, false),
        LoopAction::Wait
    );
    assert_eq!(
        next_action(LoopAction::Wait, LoopReply::WaitFailed, false),
        LoopAction::FailWait
    );
    assert_eq!(
        next_action(LoopAction::FailWait, LoopReply::Done, false),
        LoopAction::FailWait
    );
}

#[test]
fn a_timeout_goes_to_the_handler() {
    assert_eq!(
        play(
            true,
            &[
                LoopReply::Paused(false),
                LoopReply::Events(0),
                LoopReply::Done,
                LoopReply::Events(0),
                LoopReply::Failed,
            ]
        )[1..],
        [
            LoopAction::Wait,
            LoopAction::HandleTimeout,
            LoopAction::Wait,
            LoopAction::HandleTimeout,
            LoopAction::FailHandler,
        ]
    );
}

#[test]
fn events_are_listed_and_handled_in_order() {
    assert_eq!(
        play(
            true,
            &[
                LoopReply::Paused(false),
                LoopReply::Events(2),
                LoopReply::Done,
                LoopReply::Event(16),
                LoopReply::Done,
                LoopReply::Event(17),
                LoopReply::Done,
            ]
        )[2..],
        [
            LoopAction::ListEvents { count: 2 },
            LoopAction::Fetch { index: 0, count: 2 },
            LoopAction::Handle { index: 0, count: 2 },
            LoopAction::Fetch { index: 1, count: 2 },
            LoopAction::Handle { index: 1, count: 2 },
            LoopAction::Wait,
        ]
    );
    assert_eq!(
        next_action(LoopAction::Wait, LoopReply::Events(2), false),
        LoopAction::Fetch { index: 0, count: 2 }
    );
    assert_eq!(
        next_action(LoopAction::ListEvents { count: 2 }, LoopReply::Failed, true),
        LoopAction::FailHandler
    );
    assert_eq!(
        next_action(
            LoopAction::Handle { index: 0, count: 2 },
            LoopReply::Failed,
            true
        ),
        LoopAction::FailHandler
    );
}

#[test]
fn a_pause_is_flushed_then_acknowledged_then_slept_through() {
    let at = |i| (i, 3usize);
    let (index, count) = at(1usize);
    let pause = u64::from(EPOLL_HELPER_EVENT_PAUSE);
    let mut action = LoopAction::Fetch { index, count };
    let mut seen = Vec::new();
    for reply in [
        LoopReply::Event(pause),
        LoopReply::Done,
        LoopReply::Done,
        LoopReply::Paused(true),
        LoopReply::Unparked,
        LoopReply::Paused(false),
        LoopReply::Done,
    ] {
        action = next_action(action, reply, false);
        seen.push(action);
    }
    assert_eq!(
        seen,
        vec![
            LoopAction::Flush { index, count },
            LoopAction::Acknowledge { index, count },
            LoopAction::CheckResumed { index, count },
            LoopAction::ParkPaused { index, count },
            LoopAction::CheckResumed { index, count },
            LoopAction::DrainPause { index, count },
            LoopAction::Fetch { index: 2, count },
        ]
    );
}

#[test]
fn a_kill_ends_the_loop_at_once() {
    let kill = u64::from(EPOLL_HELPER_EVENT_KILL);
    let fetch = LoopAction::Fetch { index: 0, count: 5 };
    assert_eq!(
        next_action(fetch, LoopReply::Event(kill), false),
        LoopAction::Stop
    );
    // The token is the low 16 bits.
    assert_eq!(
        next_action(fetch, LoopReply::Event(kill | 0x7_0000), false),
        LoopAction::Stop
    );
    assert_eq!(
        next_action(LoopAction::Stop, LoopReply::Paused(false), false),
        LoopAction::Stop
    );
}

#[test]
fn a_reply_that_does_not_belong_changes_nothing() {
    let fetch = LoopAction::Fetch { index: 0, count: 5 };
    assert_eq!(next_action(fetch, LoopReply::Done, false), fetch);
    let flush = LoopAction::Flush { index: 0, count: 5 };
    assert_eq!(next_action(flush, LoopReply::Failed, false), flush);
}

#[test]
fn a_fuzzed_loop_ends_when_it_is_idle() {
    assert_eq!(
        next_fuzzing_action(LoopAction::Wait, LoopReply::Events(0)),
        LoopAction::Stop
    );
    let fetch = LoopAction::Fetch { index: 0, count: 2 };
    assert_eq!(
        next_fuzzing_action(LoopAction::Wait, LoopReply::Events(2)),
        fetch
    );
    assert_eq!(
        next_fuzzing_action(fetch, LoopReply::Event(u64::from(EPOLL_HELPER_EVENT_PAUSE))),
        LoopAction::Acknowledge { index: 0, count: 2 }
    );
    assert_eq!(
        next_fuzzing_action(fetch, LoopReply::Event(20)),
        LoopAction::Handle { index: 0, count: 2 }
    );
}
