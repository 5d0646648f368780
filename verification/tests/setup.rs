//! The order in which a block device is set up.

use vhost_bounce::blk::{offered_features, Blk, BlkError, State, VHOST_USER_PROTOCOL_F_MQ};
use vhost_bounce::setup::{first_setup, next_setup, SetupAction, SetupEvent, SetupState};
use vhost_bounce::zoned::ZonedError;

const ZONED: u64 = 1 << 17;

fn at(num_queues: usize, action: SetupAction) -> SetupState {
    SetupState {
        num_queues,
        access_platform_enabled: false,
        action,
    }
}

fn saved(avail_features: u64) -> State {
    let device = Blk::new(1, avail_features & !ZONED, 0, &[7; 60], false).unwrap();
    State {
        avail_features,
        ..device.state()
    }
}

#[test]
fn a_new_device_is_negotiated_counted_and_configured() {
    let features = offered_features(2, 1 << 32);
    let action = first_setup(2, 1 << 32, None);
    assert_eq!(action, SetupAction::Negotiate { features });

    let (acked_features, acked_protocol_features) = (4, VHOST_USER_PROTOCOL_F_MQ);
    let action = next_setup(
        at(2, action),
        SetupEvent::Negotiated {
            acked_features,
            acked_protocol_features,
        },
    );
    assert_eq!(
        action,
        SetupAction::AskQueueCount {
            acked_features,
            acked_protocol_features
        }
    );
    let action = next_setup(at(2, action), SetupEvent::QueueCount(2));
    assert_eq!(
        action,
        SetupAction::AskConfig {
            acked_features,
            acked_protocol_features,
            len: 60
        }
    );
    let action = next_setup(at(2, action), SetupEvent::Config(&[7; 60]));
    let device = Blk::new(2, acked_features, acked_protocol_features, &[7; 60], false).unwrap();
    assert_eq!(action, SetupAction::Ready { device });
}

#[test]
fn too_many_queues_end_before_the_configuration_is_asked_for() {
    let refused = SetupAction::Refuse {
        error: BlkError::BadQueueNum,
    };
    let negotiate = first_setup(2, 0, None);
    let single = SetupEvent::Negotiated {
        acked_features: 0,
        acked_protocol_features: 0,
    };
    assert_eq!(next_setup(at(2, negotiate), single), refused);
    assert_eq!(
        next_setup(at(1, negotiate), single),
        SetupAction::AskConfig {
            acked_features: 0,
            acked_protocol_features: 0,
            len: 60
        }
    );
    let ask = SetupAction::AskQueueCount {
        acked_features: 0,
        acked_protocol_features: 1,
    };
    assert_eq!(next_setup(at(5, ask), SetupEvent::QueueCount(4)), refused);
    // Nothing starts it again.
    assert_eq!(next_setup(at(5, refused), SetupEvent::QueueCount(9)), refused);
}

#[test]
fn a_zoned_backend_is_asked_for_the_longer_configuration() {
    let ask = SetupAction::AskQueueCount {
        acked_features: ZONED,
        acked_protocol_features: 1,
    };
    let config = next_setup(at(1, ask), SetupEvent::QueueCount(1));
    assert_eq!(
        config,
        SetupAction::AskConfig {
            acked_features: ZONED,
            acked_protocol_features: 1,
            len: 96
        }
    );
    assert_eq!(
        next_setup(at(1, config), SetupEvent::Config(&[3; 96])),
        SetupAction::Refuse {
            error: BlkError::ZonedConfig(ZonedError::UnknownModel(3))
        }
    );
}

#[test]
fn a_refused_restore_leaves_the_backend_alone() {
    let state = saved(ZONED);
    let action = first_setup(1, 0, Some(state));
    assert_eq!(action, SetupAction::SetProtocolFeatures { state });
    assert_eq!(
        next_setup(at(1, action), SetupEvent::BackendFeatures(0)),
        SetupAction::Refuse {
            error: BlkError::ZonedConfig(ZonedError::RestoreBackendNotZoned)
        }
    );
    let device = Blk::restore(&state, ZONED, false).unwrap();
    let restore = next_setup(at(1, action), SetupEvent::BackendFeatures(ZONED));
    assert_eq!(restore, SetupAction::RestoreState { device });
    assert_eq!(
        next_setup(at(1, restore), SetupEvent::Restored),
        SetupAction::Ready { device }
    );
}

#[test]
fn a_failing_backend_ends_the_set_up() {
    let action = first_setup(1, 0, None);
    let given_up = next_setup(at(1, action), SetupEvent::Failed);
    assert_eq!(given_up, SetupAction::GiveUp);
    assert_eq!(next_setup(at(1, given_up), SetupEvent::Restored), given_up);
    // An event that does not belong changes nothing.
    assert_eq!(next_setup(at(1, action), SetupEvent::Restored), action);
}
