//! Setting up a vhost-user block device, as a sequence of decisions.
//!
//! The caller talks to the backend: it performs one [`SetupAction`] at a time
//! and reports back what the backend said; [`next_setup`] says what comes next.
//! Setting up starts at [`first_setup`].

use crate::blk::{
    self, check_queue_count, offered_features, reports_queue_count, requested_config_len, Blk,
    BlkError, State,
};
use crate::zoned::{self, ZonedError};
use vstd::prelude::*;

verus! {

/// What is to be done next.
#[derive(Clone, Copy, Debug, PartialEq, Eq, Structural)]
pub enum SetupAction {
    /// Negotiate with the backend, offering it these features.
    Negotiate { features: u64 },
    /// Ask the backend how many queues it supports.
    AskQueueCount { acked_features: u64, acked_protocol_features: u64 },
    /// Ask the backend for `len` bytes of configuration space.
    AskConfig { acked_features: u64, acked_protocol_features: u64, len: usize },
    /// Set the features that a device to be restored had acked.
    SetProtocolFeatures { state: State },
    /// Hand the backend the state of the device to be restored.
    RestoreState { device: Blk },
    /// The device is set up.
    Ready { device: Blk },
    /// The device cannot be set up.
    Refuse { error: BlkError },
    /// The backend failed.
    GiveUp,
}

/// What the backend said.
#[derive(Clone, Copy, Debug)]
pub enum SetupEvent<'a> {
    /// The negotiation acked these features.
    Negotiated { acked_features: u64, acked_protocol_features: u64 },
    /// The backend supports this many queues.
    QueueCount(usize),
    /// The configuration space.
    Config(&'a [u8]),
    /// The features of the backend that a device is restored onto.
    BackendFeatures(u64),
    /// The backend took the state.
    Restored,
    /// The backend could not be talked to, or refused.
    Failed,
}

/// How far setting up a device has come.
#[derive(Clone, Copy, Debug, PartialEq, Eq, Structural)]
pub struct SetupState {
    /// Queues that the device is to have.
    pub num_queues: usize,
    pub access_platform_enabled: bool,
    /// What is being done.
    pub action: SetupAction,
}

/// The first thing to do: restore the device from `saved`, or else negotiate.
pub open spec fn setup_starts(
    num_queues: usize,
    ring_features: u64,
    saved: Option<State>,
) -> SetupAction {
    match saved {
        Some(state) => SetupAction::SetProtocolFeatures { state },
        None => SetupAction::Negotiate { features: blk::offered(num_queues, ring_features) },
    }
}

/// What follows once it is known how many queues the backend has.
pub open spec fn counted(
    num_queues: usize,
    backend_queues: usize,
    acked_features: u64,
    acked_protocol_features: u64,
) -> SetupAction {
    if num_queues > backend_queues {
        SetupAction::Refuse { error: BlkError::BadQueueNum }
    } else {
        SetupAction::AskConfig {
            acked_features,
            acked_protocol_features,
            len: if zoned::has_zoned(acked_features) {
                96
            } else {
                60
            },
        }
    }
}

/// What follows an action. An event that does not belong to the action changes
/// nothing.
pub open spec fn setup_follows(state: SetupState, event: SetupEvent) -> SetupAction {
    match (state.action, event) {
        (SetupAction::Ready { .. }, _) => state.action,
        (SetupAction::Refuse { .. }, _) => state.action,
        (SetupAction::GiveUp, _) => state.action,
        (_, SetupEvent::Failed) => SetupAction::GiveUp,
        (
            SetupAction::Negotiate { .. },
            SetupEvent::Negotiated { acked_features, acked_protocol_features },
        ) => if acked_protocol_features & blk::VHOST_USER_PROTOCOL_F_MQ != 0 {
            SetupAction::AskQueueCount { acked_features, acked_protocol_features }
        } else {
            counted(
                state.num_queues,
                blk::DEFAULT_QUEUE_NUMBER,
                acked_features,
                acked_protocol_features,
            )
        },
        (
            SetupAction::AskQueueCount { acked_features, acked_protocol_features },
            SetupEvent::QueueCount(n),
        ) => counted(state.num_queues, n, acked_features, acked_protocol_features),
        (
            SetupAction::AskConfig { acked_features, acked_protocol_features, .. },
            SetupEvent::Config(config_space),
        ) => match Blk::built(
            state.num_queues,
            acked_features,
            acked_protocol_features,
            config_space@,
            state.access_platform_enabled,
        ) {
            Ok(device) => SetupAction::Ready { device },
            Err(error) => SetupAction::Refuse { error },
        },
        (
            SetupAction::SetProtocolFeatures { state: saved },
            SetupEvent::BackendFeatures(backend_features),
        ) => if zoned::has_zoned(saved.avail_features) && !zoned::has_zoned(backend_features) {
            SetupAction::Refuse { error: BlkError::ZonedConfig(ZonedError::RestoreBackendNotZoned) }
        } else {
            SetupAction::RestoreState {
                device: Blk::restored(saved, state.access_platform_enabled),
            }
        },
        (SetupAction::RestoreState { device }, SetupEvent::Restored) => SetupAction::Ready {
            device,
        },
        _ => state.action,
    }
}

/// Decide what setting up a device starts with.
pub fn first_setup(num_queues: usize, ring_features: u64, saved: Option<State>) -> (r: SetupAction)
    ensures
        r == setup_starts(num_queues, ring_features, saved),
{
    match saved {
        Some(state) => SetupAction::SetProtocolFeatures { state },
        None => SetupAction::Negotiate { features: offered_features(num_queues, ring_features) },
    }
}

fn count_queues(
    num_queues: usize,
    reported: Option<usize>,
    acked_features: u64,
    acked_protocol_features: u64,
) -> (r: SetupAction)
    ensures
        r == counted(
            num_queues,
            match reported {
                Some(n) => n,
                None => 1,
            },
            acked_features,
            acked_protocol_features,
        ),
{
    match check_queue_count(num_queues, reported) {
        Err(error) => SetupAction::Refuse { error },
        Ok(()) => SetupAction::AskConfig {
            acked_features,
            acked_protocol_features,
            len: requested_config_len(acked_features),
        },
    }
}

/// Decide what follows after `event`. A configuration space must have the base
/// fields at least.
pub fn next_setup(state: SetupState, event: SetupEvent) -> (r: SetupAction)
    requires
        state.action is AskConfig ==> (event matches SetupEvent::Config(config_space)
            ==> config_space@.len() >= 60),
    ensures
        r == setup_follows(state, event),
{
    match event {
        SetupEvent::Failed => match state.action {
            SetupAction::Ready { .. } => state.action,
            SetupAction::Refuse { .. } => state.action,
            _ => SetupAction::GiveUp,
        },
        SetupEvent::Negotiated { acked_features, acked_protocol_features } => match state.action {
            SetupAction::Negotiate { .. } => {
                if reports_queue_count(acked_protocol_features) {
                    SetupAction::AskQueueCount { acked_features, acked_protocol_features }
                } else {
                    count_queues(state.num_queues, None, acked_features, acked_protocol_features)
                }
            },
            _ => state.action,
        },
        SetupEvent::QueueCount(n) => match state.action {
            SetupAction::AskQueueCount { acked_features, acked_protocol_features } => count_queues(
                state.num_queues,
                Some(n),
                acked_features,
                acked_protocol_features,
            ),
            _ => state.action,
        },
        SetupEvent::Config(config_space) => match state.action {
            SetupAction::AskConfig { acked_features, acked_protocol_features, .. } => match Blk::new(
                state.num_queues,
                acked_features,
                acked_protocol_features,
                config_space,
                state.access_platform_enabled,
            ) {
                Ok(device) => SetupAction::Ready { device },
                Err(error) => SetupAction::Refuse { error },
            },
            _ => state.action,
        },
        SetupEvent::BackendFeatures(backend_features) => match state.action {
            SetupAction::SetProtocolFeatures { state: saved } => match Blk::restore(
                &saved,
                backend_features,
                state.access_platform_enabled,
            ) {
                Ok(device) => SetupAction::RestoreState { device },
                Err(error) => SetupAction::Refuse { error },
            },
            _ => state.action,
        },
        SetupEvent::Restored => match state.action {
            SetupAction::RestoreState { device } => SetupAction::Ready { device },
            _ => state.action,
        },
    }
}

/// How many more events setting up can take.
pub open spec fn events_left(action: SetupAction) -> nat {
    match action {
        SetupAction::Negotiate { .. } => 3,
        SetupAction::AskQueueCount { .. } => 2,
        SetupAction::AskConfig { .. } => 1,
        SetupAction::SetProtocolFeatures { .. } => 2,
        SetupAction::RestoreState { .. } => 1,
        _ => 0,
    }
}

/// The backend is asked for its configuration space only once it is known to
/// have queues enough, and is handed a device's state only if it can serve the
/// device; once setting up has ended, nothing more is asked of it. Every step
/// comes nearer to the end.
pub proof fn law_setup_order(state: SetupState, event: SetupEvent)
    ensures
        ({
            let next = setup_follows(state, event);
            &&& next != state.action ==> {
                &&& events_left(next) < events_left(state.action)
                &&& next matches SetupAction::AskConfig {
                    acked_features,
                    acked_protocol_features,
                    ..
                } ==> {
                    ||| event matches SetupEvent::QueueCount(n) && state.num_queues <= n
                        && state.action == (SetupAction::AskQueueCount {
                        acked_features,
                        acked_protocol_features,
                    })
                    ||| state.num_queues <= 1 && acked_protocol_features
                        & blk::VHOST_USER_PROTOCOL_F_MQ == 0 && state.action is Negotiate
                }
                &&& next is RestoreState ==> (state.action matches SetupAction::SetProtocolFeatures {
                    state: saved,
                } && event matches SetupEvent::BackendFeatures(backend_features) && (
                zoned::has_zoned(saved.avail_features) ==> zoned::has_zoned(backend_features)))
                &&& next is Ready ==> state.action is AskConfig || state.action is RestoreState
            }
            &&& state.action is Ready || state.action is Refuse || state.action is GiveUp ==> next
                == state.action
        }),
{
}

/// Whether an event is an answer to what is being done. Until setting up has
/// ended, a failure is one.
pub open spec fn setup_answers(action: SetupAction, event: SetupEvent) -> bool {
    match action {
        SetupAction::Negotiate { .. } => event is Negotiated || event is Failed,
        SetupAction::AskQueueCount { .. } => event is QueueCount || event is Failed,
        SetupAction::AskConfig { .. } => event is Config || event is Failed,
        SetupAction::SetProtocolFeatures { .. } => event is BackendFeatures || event is Failed,
        SetupAction::RestoreState { .. } => event is Restored || event is Failed,
        SetupAction::Ready { .. } => false,
        SetupAction::Refuse { .. } => false,
        SetupAction::GiveUp => false,
    }
}

/// Setting up goes on exactly when there is an answer, and it is given up
/// exactly when the answer is a failure.
pub proof fn law_only_answers_move_setup(state: SetupState, event: SetupEvent)
    ensures
        setup_follows(state, event) != state.action <==> setup_answers(state.action, event),
        setup_answers(state.action, event) ==> (setup_follows(state, event) is GiveUp
            <==> event is Failed),
{
}

/// A device is set up as it was asked for. One that is made from a configuration
/// space has the number of queues asked for, sits behind an IOMMU exactly if
/// that was asked for, keeps what the negotiation acked, and is not paused. One
/// that is restored is the saved one, paused, with the IOMMU as asked for now;
/// handing its state to the backend changes nothing about it.
pub proof fn law_devices_are_set_up_as_asked(state: SetupState, event: SetupEvent)
    requires
        setup_follows(state, event) != state.action,
    ensures
        match setup_follows(state, event) {
            SetupAction::Ready { device } => {
                ||| state.action == (SetupAction::RestoreState { device }) && event is Restored
                ||| {
                    &&& event is Config
                    &&& state.action matches SetupAction::AskConfig {
                        acked_features,
                        acked_protocol_features,
                        ..
                    }
                    &&& device.acked_protocol_features == acked_protocol_features
                    &&& device.acked_features == acked_features & 0x4000_0000
                    &&& device.avail_features == acked_features || device.avail_features
                        == acked_features & !(1u64 << 17)
                    &&& device.vu_num_queues == state.num_queues
                    &&& device.access_platform_enabled == state.access_platform_enabled
                    &&& !device.paused
                }
            },
            SetupAction::RestoreState { device } => {
                &&& event is BackendFeatures
                &&& state.action matches SetupAction::SetProtocolFeatures { state: saved }
                &&& device.avail_features == saved.avail_features
                &&& device.acked_features == saved.acked_features
                &&& device.acked_protocol_features == saved.acked_protocol_features
                &&& device.vu_num_queues == saved.vu_num_queues
                &&& device.config == saved.config.base
                &&& device.zoned == saved.config.zoned
                &&& device.access_platform_enabled == state.access_platform_enabled
                &&& device.paused
            },
            _ => true,
        },
{
}

/// The guest of a device that has just been made sees the IOMMU feature exactly
/// if the device was asked for behind one, unless the negotiation has the bit
/// already.
pub proof fn law_iommu_reaches_the_guest(state: SetupState, event: SetupEvent, acked: u64)
    requires
        state.action matches SetupAction::AskConfig { acked_features, .. } && acked_features
            == acked,
        setup_follows(state, event) is Ready,
        acked & (1u64 << 33) == 0,
    ensures
        setup_follows(state, event) matches SetupAction::Ready { device }
            && (device.seen_features() & (1u64 << 33) != 0 <==> state.access_platform_enabled),
{
    law_devices_are_set_up_as_asked(state, event);
    if let SetupAction::Ready { device } = setup_follows(state, event) {
        blk::law_seen_bits(device, 33);
        assert(acked & (1u64 << 33) == 0 ==> (acked & !(1u64 << 17)) & (1u64 << 33) == 0)
            by (bit_vector);
    }
}

/// A device to be restored starts with its saved features; a new one with a
/// negotiation that offers the block features, the ring's features, and bit 12
/// if it is to have more than one queue.
pub proof fn law_setup_starts(num_queues: usize, ring_features: u64, saved: State, bit: u64)
    requires
        bit < 64,
    ensures
        setup_starts(num_queues, ring_features, Some(saved)) == (SetupAction::SetProtocolFeatures {
            state: saved,
        }),
        setup_starts(num_queues, ring_features, None) matches SetupAction::Negotiate { features }
            && (features & (1u64 << bit) != 0 <==> {
            ||| bit == 1 || bit == 2 || bit == 4 || bit == 5 || bit == 6 || bit == 9 || bit == 10
                || bit == 11 || bit == 13 || bit == 14 || bit == 17
            ||| bit == 12 && num_queues > 1
            ||| ring_features & (1u64 << bit) != 0
        }),
{
    blk::law_offered_bits(num_queues, ring_features, bit);
}

/// After the negotiation the backend is asked for its number of queues exactly
/// if it acked the protocol feature for that (bit 0); one that did not has one
/// queue. What the negotiation acked is carried along unchanged.
pub proof fn law_queues_are_counted(
    state: SetupState,
    acked_features: u64,
    acked_protocol_features: u64,
    n: usize,
)
    ensures
        ({
            let asked = SetupAction::AskQueueCount { acked_features, acked_protocol_features };
            let config = SetupAction::AskConfig {
                acked_features,
                acked_protocol_features,
                len: if (acked_features / 131072) % 2 == 1 {
                    96
                } else {
                    60
                },
            };
            let refused = SetupAction::Refuse { error: BlkError::BadQueueNum };
            &&& state.action is Negotiate ==> {
                let next = setup_follows(
                    state,
                    SetupEvent::Negotiated { acked_features, acked_protocol_features },
                );
                &&& acked_protocol_features % 2 == 1 <==> next == asked
                &&& acked_protocol_features % 2 == 0 && state.num_queues <= 1 <==> next == config
                &&& acked_protocol_features % 2 == 0 && state.num_queues > 1 <==> next == refused
            }
            &&& state.action == asked ==> {
                let next = setup_follows(state, SetupEvent::QueueCount(n));
                &&& state.num_queues <= n <==> next == config
                &&& state.num_queues > n <==> next == refused
            }
        }),
{
    zoned::law_zoned_bit(acked_features, zoned::ZonedExposure::Expose, 17);
    assert(acked_protocol_features & 1 != 0 <==> acked_protocol_features % 2 == 1) by (bit_vector);
}

/// A saved device is handed to every backend but one: a backend without the
/// zoned feature (bit 17) is refused for a device that has it.
pub proof fn law_zoned_devices_need_zoned_backends(state: SetupState, saved: State, backend: u64)
    requires
        state.action == (SetupAction::SetProtocolFeatures { state: saved }),
    ensures
        ({
            let next = setup_follows(state, SetupEvent::BackendFeatures(backend));
            let loses = (saved.avail_features / 131072) % 2 == 1 && (backend / 131072) % 2 == 0;
            &&& loses <==> next == (SetupAction::Refuse {
                error: BlkError::ZonedConfig(ZonedError::RestoreBackendNotZoned),
            })
            &&& !loses <==> next is RestoreState
        }),
{
    zoned::law_zoned_bit(saved.avail_features, zoned::ZonedExposure::Expose, 17);
    zoned::law_zoned_bit(backend, zoned::ZonedExposure::Expose, 17);
}

/// The configuration space that the backend returns makes the device: it is
/// taken unless the backend has the zoned feature (bit 17) and the bytes do not
/// describe a disk that the guest can drive, and the guest then reads it byte
/// by byte, but for the number of queues.
pub proof fn law_config_makes_the_device(state: SetupState, acked: u64, b: &[u8], i: int)
    requires
        state.action matches SetupAction::AskConfig { acked_features, .. } && acked_features
            == acked,
        60 <= b@.len() <= usize::MAX,
        0 <= i < b@.len(),
    ensures
        ({
            let next = setup_follows(state, SetupEvent::Config(b));
            let feature = (acked / 131072) % 2 == 1;
            &&& next is Ready <==> !feature || b@.len() == 96 && (b@[92] == 0
                || blk::drivable_zones(b@))
            &&& !(next is Ready) <==> next is Refuse
            &&& next matches SetupAction::Ready { device } ==> {
                &&& device.zoned is Some <==> feature && b@[92] != 0
                &&& i < 60 && i != 34 && i != 35 ==> device.guest_config()[i] == b@[i]
                &&& device.zoned is Some && 60 <= i < 93 ==> device.guest_config()[i] == b@[i]
                &&& zoned::number(device.guest_config(), 34, 2) == state.num_queues % 65536
            }
        }),
{
    if let SetupAction::AskConfig { acked_features, acked_protocol_features, len } = state.action {
        let n = state.num_queues;
        let iommu = state.access_platform_enabled;
        blk::law_when_a_device_has_zones(n, acked, acked_protocol_features, b@, iommu);
        blk::law_what_a_new_device_is(
            n,
            acked,
            acked_protocol_features,
            b@,
            iommu,
            if i < 60 {
                i
            } else {
                0
            },
        );
        if b@.len() == 96 && 60 <= i < 93 {
            blk::law_zoned_tail_is_passed_on(n, acked, acked_protocol_features, b@, iommu, i);
        }
    }
}

} // verus!
