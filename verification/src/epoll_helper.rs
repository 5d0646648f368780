//! The event loop of a device thread, as a sequence of decisions.
//!
//! The thread performs one [`LoopAction`] at a time and reports back how it
//! went; [`next_action`] says what comes next. The loop starts at
//! [`LoopAction::CheckPaused`]: the restore path creates threads whose device
//! is expected to be paused, and they must not process anything before the
//! device has been resumed.

use vstd::prelude::*;

verus! {

/// Token of the event that pauses the thread.
pub const EPOLL_HELPER_EVENT_PAUSE: u16 = 0;

/// Token of the event that terminates the thread.
pub const EPOLL_HELPER_EVENT_KILL: u16 = 1;

/// Last token that is reserved for the loop itself.
pub const EPOLL_HELPER_EVENT_LAST: u16 = 15;

/// What the device thread does next.
#[derive(Clone, Copy, Debug, PartialEq, Eq, Structural)]
pub enum LoopAction {
    /// Look at the paused flag before entering the loop.
    CheckPaused,
    /// Park until unparked, then look at the flag again.
    Park,
    /// Wait for events.
    Wait,
    /// Let the handler react to the timeout.
    HandleTimeout,
    /// Show the handler the whole list of `count` events.
    ListEvents { count: usize },
    /// Look at the token of event `index` of `count`.
    Fetch { index: usize, count: usize },
    /// Let the handler process the event.
    Handle { index: usize, count: usize },
    /// Let the handler flush pending work before the pause is acknowledged.
    Flush { index: usize, count: usize },
    /// Acknowledge that the pause is effective, at the barrier.
    Acknowledge { index: usize, count: usize },
    /// Look at the paused flag during a pause.
    CheckResumed { index: usize, count: usize },
    /// Park during a pause; parking may return spuriously.
    ParkPaused { index: usize, count: usize },
    /// Drain the pause event after the device has been resumed, so that each
    /// thread of the device has seen it.
    DrainPause { index: usize, count: usize },
    /// Leave the loop: the thread was killed.
    Stop,
    /// Leave the loop with the error of the wait.
    FailWait,
    /// Leave the loop with the handler's error.
    FailHandler,
}

/// How an action went.
#[derive(Clone, Copy, Debug, PartialEq, Eq, Structural)]
pub enum LoopReply {
    /// The paused flag.
    Paused(bool),
    /// Parking returned.
    Unparked,
    /// The wait returned this many events; none means that it timed out.
    Events(usize),
    /// The wait was interrupted before any event occurred or the timeout
    /// expired.
    Interrupted,
    /// The wait failed.
    WaitFailed,
    /// An event's data, whose low 16 bits are its token.
    Event(u64),
    /// The action was carried out.
    Done,
    /// The handler failed.
    Failed,
}

/// What follows event `index` of `count`.
pub open spec fn after_event(index: usize, count: usize) -> LoopAction {
    if index + 1 < count {
        LoopAction::Fetch { index: (index + 1) as usize, count }
    } else {
        LoopAction::Wait
    }
}

/// What follows an action. A reply that does not belong to the action changes
/// nothing.
pub open spec fn follows(action: LoopAction, reply: LoopReply, list_events: bool) -> LoopAction {
    match (action, reply) {
        (LoopAction::CheckPaused, LoopReply::Paused(paused)) => if paused {
            LoopAction::Park
        } else {
            LoopAction::Wait
        },
        (LoopAction::Park, LoopReply::Unparked) => LoopAction::CheckPaused,
        (LoopAction::Wait, LoopReply::WaitFailed) => LoopAction::FailWait,
        (LoopAction::Wait, LoopReply::Events(count)) => if count == 0 {
            LoopAction::HandleTimeout
        } else if list_events {
            LoopAction::ListEvents { count }
        } else {
            LoopAction::Fetch { index: 0, count }
        },
        (LoopAction::HandleTimeout, LoopReply::Done) => LoopAction::Wait,
        (LoopAction::HandleTimeout, LoopReply::Failed) => LoopAction::FailHandler,
        (LoopAction::ListEvents { count }, LoopReply::Done) => LoopAction::Fetch {
            index: 0,
            count,
        },
        (LoopAction::ListEvents { count }, LoopReply::Failed) => LoopAction::FailHandler,
        (LoopAction::Fetch { index, count }, LoopReply::Event(data)) => if data as u16
            == EPOLL_HELPER_EVENT_KILL {
            LoopAction::Stop
        } else if data as u16 == EPOLL_HELPER_EVENT_PAUSE {
            LoopAction::Flush { index, count }
        } else {
            LoopAction::Handle { index, count }
        },
        (LoopAction::Handle { index, count }, LoopReply::Done) => after_event(index, count),
        (LoopAction::Handle { index, count }, LoopReply::Failed) => LoopAction::FailHandler,
        (LoopAction::Flush { index, count }, LoopReply::Done) => LoopAction::Acknowledge {
            index,
            count,
        },
        (LoopAction::Acknowledge { index, count }, LoopReply::Done) => LoopAction::CheckResumed {
            index,
            count,
        },
        (LoopAction::CheckResumed { index, count }, LoopReply::Paused(paused)) => if paused {
            LoopAction::ParkPaused { index, count }
        } else {
            LoopAction::DrainPause { index, count }
        },
        (LoopAction::ParkPaused { index, count }, LoopReply::Unparked) => LoopAction::CheckResumed {
            index,
            count,
        },
        (LoopAction::DrainPause { index, count }, LoopReply::Done) => after_event(index, count),
        _ => action,
    }
}

/// Decide what the device thread does after `action` went as `reply` says.
pub fn next_action(action: LoopAction, reply: LoopReply, list_events: bool) -> (r: LoopAction)
    ensures
        r == follows(action, reply, list_events),
{
    match action {
        LoopAction::CheckPaused => match reply {
            LoopReply::Paused(true) => LoopAction::Park,
            LoopReply::Paused(false) => LoopAction::Wait,
            _ => action,
        },
        LoopAction::Park => match reply {
            LoopReply::Unparked => LoopAction::CheckPaused,
            _ => action,
        },
        LoopAction::Wait => match reply {
            // An interrupted wait is not an error: it is retried.
            LoopReply::Interrupted => LoopAction::Wait,
            LoopReply::WaitFailed => LoopAction::FailWait,
            LoopReply::Events(0) => LoopAction::HandleTimeout,
            LoopReply::Events(count) => if list_events {
                LoopAction::ListEvents { count }
            } else {
                LoopAction::Fetch { index: 0, count }
            },
            _ => action,
        },
        LoopAction::HandleTimeout => match reply {
            LoopReply::Done => LoopAction::Wait,
            LoopReply::Failed => LoopAction::FailHandler,
            _ => action,
        },
        LoopAction::ListEvents { count } => match reply {
            LoopReply::Done => LoopAction::Fetch { index: 0, count },
            LoopReply::Failed => LoopAction::FailHandler,
            _ => action,
        },
        LoopAction::Fetch { index, count } => match reply {
            LoopReply::Event(data) => {
                let token: u16 = data as u16;
                if token == EPOLL_HELPER_EVENT_KILL {
                    LoopAction::Stop
                } else if token == EPOLL_HELPER_EVENT_PAUSE {
                    LoopAction::Flush { index, count }
                } else {
                    LoopAction::Handle { index, count }
                }
            },
            _ => action,
        },
        LoopAction::Handle { index, count } => match reply {
            LoopReply::Done => next_event(index, count),
            LoopReply::Failed => LoopAction::FailHandler,
            _ => action,
        },
        LoopAction::Flush { index, count } => match reply {
            LoopReply::Done => LoopAction::Acknowledge { index, count },
            _ => action,
        },
        LoopAction::Acknowledge { index, count } => match reply {
            LoopReply::Done => LoopAction::CheckResumed { index, count },
            _ => action,
        },
        LoopAction::CheckResumed { index, count } => match reply {
            LoopReply::Paused(true) => LoopAction::ParkPaused { index, count },
            LoopReply::Paused(false) => LoopAction::DrainPause { index, count },
            _ => action,
        },
        LoopAction::ParkPaused { index, count } => match reply {
            LoopReply::Unparked => LoopAction::CheckResumed { index, count },
            _ => action,
        },
        LoopAction::DrainPause { index, count } => match reply {
            LoopReply::Done => next_event(index, count),
            _ => action,
        },
        LoopAction::Stop => action,
        LoopAction::FailWait => action,
        LoopAction::FailHandler => action,
    }
}

/// What follows an action when the loop is driven by a fuzzer: as above, but
/// the loop ends as soon as no event is active, and a pause is acknowledged
/// without a flush. It starts at [`LoopAction::Wait`].
pub open spec fn fuzzing_follows(action: LoopAction, reply: LoopReply) -> LoopAction {
    match follows(action, reply, false) {
        LoopAction::HandleTimeout => LoopAction::Stop,
        LoopAction::Flush { index, count } => LoopAction::Acknowledge { index, count },
        next => next,
    }
}

/// Decide what the device thread of a fuzzing build does after `action` went
/// as `reply` says.
pub fn next_fuzzing_action(action: LoopAction, reply: LoopReply) -> (r: LoopAction)
    ensures
        r == fuzzing_follows(action, reply),
{
    match next_action(action, reply, false) {
        LoopAction::HandleTimeout => LoopAction::Stop,
        LoopAction::Flush { index, count } => LoopAction::Acknowledge { index, count },
        next => next,
    }
}

fn next_event(index: usize, count: usize) -> (r: LoopAction)
    ensures
        r == after_event(index, count),
{
    if index < count && index + 1 < count {
        LoopAction::Fetch { index: index + 1, count }
    } else {
        LoopAction::Wait
    }
}

/// Whether an action that speaks of one of several events speaks of one that
/// is there.
pub open spec fn in_bounds(action: LoopAction) -> bool {
    match action {
        LoopAction::ListEvents { count } => count > 0,
        LoopAction::Fetch { index, count } => index < count,
        LoopAction::Handle { index, count } => index < count,
        LoopAction::Flush { index, count } => index < count,
        LoopAction::Acknowledge { index, count } => index < count,
        LoopAction::CheckResumed { index, count } => index < count,
        LoopAction::ParkPaused { index, count } => index < count,
        LoopAction::DrainPause { index, count } => index < count,
        _ => true,
    }
}

/// The loop only ever speaks of events that the wait returned, and takes the
/// events of one wait in order: the next event looked at is the one after the
/// one that was processed.
pub proof fn law_events_in_order(action: LoopAction, reply: LoopReply, list_events: bool)
    requires
        in_bounds(action),
    ensures
        in_bounds(follows(action, reply, list_events)),
        follows(action, reply, list_events) matches LoopAction::Fetch { index, count } ==> {
            ||| follows(action, reply, list_events) == action
            ||| index == 0
            ||| action == (LoopAction::Handle { index: (index - 1) as usize, count })
            ||| action == (LoopAction::DrainPause { index: (index - 1) as usize, count })
        },
{
}

/// A pause is acknowledged only after the handler has flushed, and left only
/// after the device has been seen resumed.
pub proof fn law_pause_protocol(action: LoopAction, reply: LoopReply, list_events: bool)
    ensures
        ({
            let next = follows(action, reply, list_events);
            next != action ==> {
                &&& next matches LoopAction::Acknowledge { index, count } ==> action == (
                LoopAction::Flush { index, count }) && reply is Done
                &&& next matches LoopAction::DrainPause { index, count } ==> action == (
                LoopAction::CheckResumed { index, count }) && reply == LoopReply::Paused(false)
                &&& action matches LoopAction::Flush { index, count } ==> next == (
                LoopAction::Acknowledge { index, count })
            }
        }),
{
}

/// Nothing is waited for before the device has been seen unpaused.
pub proof fn law_paused_thread_does_not_start(reply: LoopReply, list_events: bool)
    ensures
        ({
            let next = follows(LoopAction::CheckPaused, reply, list_events);
            next == LoopAction::CheckPaused || next == LoopAction::Park || reply
                == LoopReply::Paused(false)
        }),
        ({
            let next = follows(LoopAction::Park, reply, list_events);
            next == LoopAction::CheckPaused || next == LoopAction::Park
        }),
{
}

/// The kill event ends the loop, and nothing restarts it.
pub proof fn law_kill_is_final(index: usize, count: usize, data: u64, reply: LoopReply, list: bool)
    requires
        data as u16 == EPOLL_HELPER_EVENT_KILL,
    ensures
        follows(LoopAction::Fetch { index, count }, LoopReply::Event(data), list)
            == LoopAction::Stop,
        follows(LoopAction::Stop, reply, list) == LoopAction::Stop,
{
}

/// Whether a reply is an answer to an action. An interrupted wait answers
/// nothing: it is retried.
pub open spec fn answers(action: LoopAction, reply: LoopReply) -> bool {
    match action {
        LoopAction::CheckPaused => reply is Paused,
        LoopAction::Park => reply is Unparked,
        LoopAction::Wait => reply is Events || reply is WaitFailed,
        LoopAction::HandleTimeout => reply is Done || reply is Failed,
        LoopAction::ListEvents { .. } => reply is Done || reply is Failed,
        LoopAction::Fetch { .. } => reply is Event,
        LoopAction::Handle { .. } => reply is Done || reply is Failed,
        LoopAction::Flush { .. } => reply is Done,
        LoopAction::Acknowledge { .. } => reply is Done,
        LoopAction::CheckResumed { .. } => reply is Paused,
        LoopAction::ParkPaused { .. } => reply is Unparked,
        LoopAction::DrainPause { .. } => reply is Done,
        LoopAction::Stop => false,
        LoopAction::FailWait => false,
        LoopAction::FailHandler => false,
    }
}

/// The loop goes on exactly when its action has been answered: an answer is
/// never ignored, and nothing else moves the loop.
pub proof fn law_only_answers_move_the_loop(action: LoopAction, reply: LoopReply, list_events: bool)
    ensures
        follows(action, reply, list_events) != action <==> answers(action, reply),
{
}

/// An event goes to the handler unless its token, the low 16 bits of its data,
/// is the one that kills (1) or the one that pauses (0). The upper bits make no
/// difference, and neither does the place of the event among the others.
pub proof fn law_tokens_decide(index: usize, count: usize, data: u64, list_events: bool)
    ensures
        ({
            let next = follows(
                LoopAction::Fetch { index, count },
                LoopReply::Event(data),
                list_events,
            );
            &&& next == LoopAction::Stop <==> data % 65536 == 1
            &&& next == (LoopAction::Flush { index, count }) <==> data % 65536 == 0
            &&& next == (LoopAction::Handle { index, count }) <==> data % 65536 > 1
        }),
{
    assert(data as u16 == data % 65536) by (bit_vector);
}

/// How the loop comes to the actions that end it or that concern the handler:
/// only a kill token stops it, only a failed wait or a handler that failed make
/// it fail, only a wait without events is a timeout, and the handler sees the
/// list of events only if it asked for it.
pub proof fn law_where_actions_come_from(action: LoopAction, reply: LoopReply, list_events: bool)
    requires
        follows(action, reply, list_events) != action,
    ensures
        match follows(action, reply, list_events) {
            LoopAction::Stop => action is Fetch && (reply matches LoopReply::Event(data) && data
                % 65536 == 1),
            LoopAction::FailWait => action is Wait && reply is WaitFailed,
            LoopAction::FailHandler => reply is Failed && (action is HandleTimeout
                || action is ListEvents || action is Handle),
            LoopAction::HandleTimeout => action is Wait && reply == LoopReply::Events(0),
            LoopAction::ListEvents { count } => action is Wait && reply == LoopReply::Events(count)
                && count > 0 && list_events,
            LoopAction::Fetch { index, count } => {
                ||| index == 0 && count > 0 && !list_events && action is Wait && reply
                    == LoopReply::Events(count)
                ||| index == 0 && action == (LoopAction::ListEvents { count }) && reply is Done
                ||| 0 < index < count && reply is Done && (action == (LoopAction::Handle {
                    index: (index - 1) as usize,
                    count,
                }) || action == (LoopAction::DrainPause { index: (index - 1) as usize, count }))
            },
            LoopAction::Handle { index, count } => action == (LoopAction::Fetch { index, count })
                && (reply matches LoopReply::Event(data) && data % 65536 > 1),
            LoopAction::Flush { index, count } => action == (LoopAction::Fetch { index, count })
                && (reply matches LoopReply::Event(data) && data % 65536 == 0),
            LoopAction::Wait => {
                ||| action is CheckPaused && reply == LoopReply::Paused(false)
                ||| action is HandleTimeout && reply is Done
                ||| action matches LoopAction::Handle { index, count } && reply is Done && index + 1
                    >= count
                ||| action matches LoopAction::DrainPause { index, count } && reply is Done && index
                    + 1 >= count
            },
            _ => true,
        },
{
    if let LoopReply::Event(data) = reply {
        assert(data as u16 == data % 65536) by (bit_vector);
    }
}

/// How the loop goes through a pause, and through a start in the paused state:
/// it parks exactly while the device is seen paused, looks again whenever it
/// has been unparked, and the event that paused it stays the current one.
pub proof fn law_where_pauses_come_from(action: LoopAction, reply: LoopReply, list_events: bool)
    requires
        follows(action, reply, list_events) != action,
    ensures
        match follows(action, reply, list_events) {
            LoopAction::CheckPaused => action is Park && reply is Unparked,
            LoopAction::Park => action is CheckPaused && reply == LoopReply::Paused(true),
            LoopAction::Acknowledge { index, count } => action == (LoopAction::Flush {
                index,
                count,
            }) && reply is Done,
            LoopAction::CheckResumed { index, count } => {
                ||| action == (LoopAction::Acknowledge { index, count }) && reply is Done
                ||| action == (LoopAction::ParkPaused { index, count }) && reply is Unparked
            },
            LoopAction::ParkPaused { index, count } => action == (LoopAction::CheckResumed {
                index,
                count,
            }) && reply == LoopReply::Paused(true),
            LoopAction::DrainPause { index, count } => action == (LoopAction::CheckResumed {
                index,
                count,
            }) && reply == LoopReply::Paused(false),
            _ => true,
        },
{
}

/// A fuzzer's loop differs from a device thread's in two places: it ends where
/// the other lets the handler react to a timeout, and it acknowledges a pause
/// where the other lets the handler flush first.
pub proof fn law_fuzzing_ends_when_idle(
    action: LoopAction,
    reply: LoopReply,
    index: usize,
    count: usize,
    data: u64,
)
    ensures
        fuzzing_follows(LoopAction::Wait, LoopReply::Events(0)) == LoopAction::Stop,
        data % 65536 == 0 ==> fuzzing_follows(
            LoopAction::Fetch { index, count },
            LoopReply::Event(data),
        ) == (LoopAction::Acknowledge { index, count }),
        ({
            let next = follows(action, reply, false);
            !(next is HandleTimeout) && !(next is Flush) ==> fuzzing_follows(action, reply) == next
        }),
        !(fuzzing_follows(action, reply) is HandleTimeout),
        !(fuzzing_follows(action, reply) is Flush),
{
    assert(data as u16 == data % 65536) by (bit_vector);
}

} // verus!
