//! The vhost-user block device.

use vhost::vhost_user::message::{VhostUserProtocolFeatures, VhostUserVirtioFeatures};
use vhost_bounce::blk::{
    check_queue_count, offered_features, reports_queue_count, requested_config_len, Blk, BlkError,
    VirtioBlockConfig, OFFERED_BLK_FEATURES, VHOST_USER_F_PROTOCOL_FEATURES,
    VHOST_USER_PROTOCOL_F_MQ, WRITEBACK_OFFSET,
};
use vhost_bounce::zoned::{VirtioBlockZonedConfig, ZonedError};
use virtio_bindings::virtio_blk::{
    VIRTIO_BLK_F_BLK_SIZE, VIRTIO_BLK_F_CONFIG_WCE, VIRTIO_BLK_F_DISCARD, VIRTIO_BLK_F_FLUSH,
    VIRTIO_BLK_F_GEOMETRY, VIRTIO_BLK_F_MQ, VIRTIO_BLK_F_RO, VIRTIO_BLK_F_SEG_MAX,
    VIRTIO_BLK_F_SIZE_MAX, VIRTIO_BLK_F_TOPOLOGY, VIRTIO_BLK_F_WRITE_ZEROES, VIRTIO_BLK_F_ZONED,
};
use virtio_bindings::virtio_config::VIRTIO_F_ACCESS_PLATFORM;

const ZONED: u64 = 1 << VIRTIO_BLK_F_ZONED;
const PROTOCOL: u64 = 0x4000_0000;

fn zoned_tail() -> VirtioBlockZonedConfig {
    VirtioBlockZonedConfig {
        zone_sectors: 0x1_0000,
        max_open_zones: 32,
        max_active_zones: 64,
        max_append_sectors: 2048,
        write_granularity: 4096,
        model: 1,
        ..Default::default()
    }
}

/// Distinct bytes, so that a field read from the wrong place shows.
fn base_bytes() -> Vec<u8> {
    (1..=60).collect()
}

fn zoned_space(tail: &VirtioBlockZonedConfig) -> Vec<u8> {
    let mut space = base_bytes();
    space.extend_from_slice(&tail.to_le_bytes());
    space
}

#[test]
fn offered_features_match_the_bindings() {
    let mut expected = 0u64;
    for bit in [
        VIRTIO_BLK_F_SIZE_MAX,
        VIRTIO_BLK_F_SEG_MAX,
        VIRTIO_BLK_F_GEOMETRY,
        VIRTIO_BLK_F_RO,
        VIRTIO_BLK_F_BLK_SIZE,
        VIRTIO_BLK_F_FLUSH,
        VIRTIO_BLK_F_TOPOLOGY,
        VIRTIO_BLK_F_CONFIG_WCE,
        VIRTIO_BLK_F_DISCARD,
        VIRTIO_BLK_F_WRITE_ZEROES,
        VIRTIO_BLK_F_ZONED,
    ] {
        expected |= 1u64 << bit;
    }
    assert_eq!(OFFERED_BLK_FEATURES, expected);
    assert_eq!(offered_features(1, 1 << 32), expected | (1 << 32));
    assert_eq!(
        offered_features(2, 1 << 32),
        expected | (1 << 32) | (1 << VIRTIO_BLK_F_MQ)
    );
}

#[test]
fn vhost_user_bits_match_the_crate() {
    assert_eq!(
        VHOST_USER_F_PROTOCOL_FEATURES,
        VhostUserVirtioFeatures::PROTOCOL_FEATURES.bits()
    );
    assert_eq!(
        VHOST_USER_PROTOCOL_F_MQ,
        VhostUserProtocolFeatures::MQ.bits()
    );
    assert!(reports_queue_count(VhostUserProtocolFeatures::MQ.bits()));
    assert!(!reports_queue_count(
        VhostUserProtocolFeatures::CONFIG.bits()
    ));
}

#[test]
fn queue_count_is_checked_against_the_backend() {
    assert_eq!(check_queue_count(4, Some(4)), Ok(()));
    assert_eq!(check_queue_count(5, Some(4)), Err(BlkError::BadQueueNum));
    assert_eq!(check_queue_count(1, None), Ok(()));
    assert_eq!(check_queue_count(2, None), Err(BlkError::BadQueueNum));
}

#[test]
fn zoned_config_space_is_asked_for_only_when_acked() {
    assert_eq!(requested_config_len(0), 60);
    assert_eq!(requested_config_len(!ZONED), 60);
    assert_eq!(requested_config_len(ZONED), 96);
}

#[test]
fn base_config_round_trips_byte_for_byte() {
    let bytes = base_bytes();
    let config = VirtioBlockConfig::from_slice(&bytes).unwrap();
    assert_eq!(config.to_vec(), bytes);
    assert_eq!(config.capacity, 0x0807_0605_0403_0201);
    assert_eq!(config.size_max, 0x0c0b_0a09);
    assert_eq!(config.cylinders, 0x1211);
    assert_eq!(config.blk_size, 0x1817_1615);
    assert_eq!(config.writeback, 33);
    assert_eq!(config.num_queues, 0x2423);
    assert_eq!(config.max_discard_sectors, 0x2827_2625);
    assert_eq!(config.write_zeroes_may_unmap, 57);
    assert_eq!(
        VirtioBlockConfig::from_slice(&config.to_vec()),
        Some(config)
    );
    assert_eq!(VirtioBlockConfig::from_slice(&bytes[..59]), None);
    assert_eq!(VirtioBlockConfig::default().to_vec(), vec![0u8; 60]);
}

#[test]
fn conventional_backend_gives_a_conventional_device() {
    let acked = PROTOCOL | (1 << VIRTIO_BLK_F_FLUSH);
    let blk = Blk::new(3, acked, 0x23, &base_bytes(), false).unwrap();
    assert_eq!(blk.avail_features, acked);
    assert_eq!(blk.acked_features, PROTOCOL);
    assert_eq!(blk.acked_protocol_features, 0x23);
    assert_eq!(blk.vu_num_queues, 3);
    assert_eq!(blk.zoned, None);
    assert!(!blk.paused);
    // The guest reads what the backend returned, but for its own queue count.
    let mut expected = base_bytes();
    expected[34] = 3;
    expected[35] = 0;
    assert_eq!(blk.config_space(), expected);
    assert_eq!(blk.required_backend_features(5), 5);
}

#[test]
fn zoned_backend_gives_a_zoned_device() {
    let tail = zoned_tail();
    let acked = PROTOCOL | ZONED;
    let blk = Blk::new(1, acked, 0, &zoned_space(&tail), false).unwrap();
    assert_eq!(blk.avail_features, acked);
    assert_eq!(blk.zoned, Some(tail));
    let space = blk.config_space();
    assert_eq!(space.len(), 96);
    assert_eq!(&space[60..], &tail.to_le_bytes()[..]);
    assert_eq!(blk.required_backend_features(5), 5 | ZONED);
}

#[test]
fn zoned_backend_with_a_conventional_disk_withholds_the_feature() {
    let tail = VirtioBlockZonedConfig {
        model: 0,
        ..zoned_tail()
    };
    let acked = PROTOCOL | ZONED | 2;
    let mut blk = Blk::new(1, acked, 0, &zoned_space(&tail), false).unwrap();
    assert_eq!(blk.avail_features, PROTOCOL | 2);
    assert_eq!(blk.zoned, None);
    assert_eq!(blk.config_space().len(), 60);
    // Not even a guest that acks it gets it.
    blk.ack_features(u64::MAX);
    assert_eq!(blk.acked_features, PROTOCOL | 2);
}

#[test]
fn unusable_zoned_configs_fail_the_device() {
    let acked = ZONED;
    let bad = VirtioBlockZonedConfig {
        zone_sectors: 3,
        ..zoned_tail()
    };
    assert_eq!(
        Blk::new(1, acked, 0, &zoned_space(&bad), false),
        Err(BlkError::ZonedConfig(ZonedError::UnalignedZoneSectors(3)))
    );
    assert_eq!(
        Blk::new(1, acked, 0, &base_bytes(), false),
        Err(BlkError::ZonedConfig(ZonedError::TailLength {
            expected: 36,
            got: 0
        }))
    );
}

#[test]
fn access_platform_is_added_for_the_guest() {
    let blk = Blk::new(1, 2, 0, &base_bytes(), true).unwrap();
    assert_eq!(blk.features(), 2 | (1 << VIRTIO_F_ACCESS_PLATFORM));
    let blk = Blk::new(1, 2, 0, &base_bytes(), false).unwrap();
    assert_eq!(blk.features(), 2);
}

#[test]
fn only_the_writeback_field_can_be_written() {
    let mut blk = Blk::new(1, 0, 0, &base_bytes(), false).unwrap();
    let before = blk;
    assert!(!blk.write_config(WRITEBACK_OFFSET, &[1, 2]));
    assert!(!blk.write_config(WRITEBACK_OFFSET, &[]));
    assert!(!blk.write_config(0, &[7]));
    assert!(!blk.write_config(33, &[7]));
    assert_eq!(blk, before);
    assert!(blk.write_config(WRITEBACK_OFFSET, &[7]));
    assert_eq!(blk.config_space()[32], 7);
    assert_eq!(blk.config.writeback, 7);
}

#[test]
fn restore_gives_back_the_saved_device() {
    let mut blk = Blk::new(2, PROTOCOL | ZONED, 9, &zoned_space(&zoned_tail()), true).unwrap();
    blk.ack_features(ZONED);
    let restored = Blk::restore(&blk.state(), ZONED, true).unwrap();
    assert!(restored.paused);
    assert_eq!(restored, Blk { paused: true, ..blk });
    assert_eq!(restored.config_space(), blk.config_space());
}

#[test]
fn restore_of_a_zoned_device_needs_a_zoned_backend() {
    let blk = Blk::new(1, ZONED, 0, &zoned_space(&zoned_tail()), false).unwrap();
    assert_eq!(
        Blk::restore(&blk.state(), 0, false),
        Err(BlkError::ZonedConfig(ZonedError::RestoreBackendNotZoned))
    );
    let plain = Blk::new(1, 2, 0, &base_bytes(), false).unwrap();
    assert!(Blk::restore(&plain.state(), 0, false).is_ok());
}
