//! Feature masking and pool sizing for bounce mode.

use vhost_bounce::bounce::{
    default_buffer_capacity, mask_bounce_features, BounceConfig, VIRTIO_F_IN_ORDER,
    VIRTIO_F_RING_EVENT_IDX, VIRTIO_F_RING_INDIRECT_DESC,
};
use virtio_bindings::virtio_config::VIRTIO_F_IN_ORDER as IN_ORDER;
use virtio_bindings::virtio_ring::{VIRTIO_RING_F_EVENT_IDX, VIRTIO_RING_F_INDIRECT_DESC};

/// Ring features of a device: indirect descriptors, virtio 1.0 and vhost-user
/// protocol features.
const DEFAULT_VIRTIO_FEATURES: u64 = (1 << 28) | (1 << 32) | (1 << 30);

#[test]
fn mask_bounce_features_clears_indirect_event_idx_in_order() {
    let all = (1 << VIRTIO_F_RING_INDIRECT_DESC)
        | (1 << VIRTIO_F_RING_EVENT_IDX)
        | (1 << VIRTIO_F_IN_ORDER);
    assert_eq!(mask_bounce_features(all), 0);
}

#[test]
fn mask_bounce_features_preserves_other_bits() {
    let masked = mask_bounce_features(DEFAULT_VIRTIO_FEATURES);
    let expected = DEFAULT_VIRTIO_FEATURES
        & !(1 << VIRTIO_F_RING_INDIRECT_DESC)
        & !(1 << VIRTIO_F_RING_EVENT_IDX)
        & !(1 << VIRTIO_F_IN_ORDER);
    assert_eq!(masked, expected);
    // The event-idx and in-order bits are not part of the default set,
    // but indirect-desc is, so masking must actually change the value.
    assert_ne!(masked, DEFAULT_VIRTIO_FEATURES);
}

#[test]
fn masking_twice_is_masking_once() {
    for features in [0, u64::MAX, DEFAULT_VIRTIO_FEATURES] {
        let once = mask_bounce_features(features);
        assert_eq!(mask_bounce_features(once), once);
    }
    assert_eq!(
        mask_bounce_features(u64::MAX),
        u64::MAX & !(1 << 28) & !(1 << 29) & !(1 << 35)
    );
}

#[test]
fn ring_feature_bits_match_the_bindings() {
    assert_eq!(VIRTIO_F_RING_INDIRECT_DESC, VIRTIO_RING_F_INDIRECT_DESC as u64);
    assert_eq!(VIRTIO_F_RING_EVENT_IDX, VIRTIO_RING_F_EVENT_IDX as u64);
    assert_eq!(VIRTIO_F_IN_ORDER, IN_ORDER as u64);
}

#[test]
fn layout_uses_the_default_size_unless_overridden() {
    let layout = BounceConfig::default().layout(4, 256);
    assert_eq!(layout.buffer_capacity, default_buffer_capacity(4, 256));
    assert_eq!(layout.buffer_capacity, 4 * 4 * 256 * 4096);
    assert_eq!(layout.num_queues, 4);
    assert_eq!(layout.queue_size, 256);

    let cfg = BounceConfig {
        pool_size: Some(1 << 20),
    };
    assert_eq!(cfg.layout(2, 128).buffer_capacity, 1 << 20);
}
