//! Zoned configuration space, feature gating and restore compatibility.

use vhost_bounce::blk::VirtioBlockConfig;
use vhost_bounce::zoned::{
    assemble_config_space, check_restore_compat, config_space_len, gate_features,
    zoned_negotiated, VirtioBlockZonedConfig, ZonedError, ZonedExposure, MODEL_HA, MODEL_HM,
    MODEL_NONE,
    VIRTIO_BLK_CONFIG_BASE_LEN, VIRTIO_BLK_CONFIG_TAIL_LEN, VIRTIO_BLK_CONFIG_ZONED_LEN,
    VIRTIO_BLK_CONFIG_ZONED_OFFSET, VIRTIO_BLK_CONFIG_ZONED_TOTAL_LEN,
    VIRTIO_BLK_F_ZONED as F_ZONED,
};
use virtio_bindings::virtio_blk::{
    VIRTIO_BLK_F_ZONED, VIRTIO_BLK_Z_HA, VIRTIO_BLK_Z_HM, VIRTIO_BLK_Z_NONE,
};

/// A host-managed configuration that should pass validation.
fn valid_hm() -> VirtioBlockZonedConfig {
    VirtioBlockZonedConfig {
        zone_sectors: 0x1_0000,
        max_open_zones: 32,
        max_active_zones: 64,
        max_append_sectors: 2048,
        write_granularity: 4096,
        model: VIRTIO_BLK_Z_HM as u8,
        ..Default::default()
    }
}

// ---------------------------------------------------------------------
// Layout
// ---------------------------------------------------------------------

#[test]
fn base_len_matches_virtio_block_config() {
    assert_eq!(
        VIRTIO_BLK_CONFIG_BASE_LEN,
        VirtioBlockConfig::default().to_vec().len()
    );
}

#[test]
fn layout_constants_are_consistent() {
    assert_eq!(VIRTIO_BLK_CONFIG_TAIL_LEN, 36);
    assert_eq!(VIRTIO_BLK_CONFIG_ZONED_TOTAL_LEN, 96);
    assert_eq!(VIRTIO_BLK_CONFIG_ZONED_OFFSET, 72);
    assert_eq!(
        VIRTIO_BLK_CONFIG_ZONED_OFFSET + VIRTIO_BLK_CONFIG_ZONED_LEN,
        VIRTIO_BLK_CONFIG_ZONED_TOTAL_LEN
    );
}

#[test]
fn to_le_bytes_places_fields_at_spec_offsets() {
    let cfg = VirtioBlockZonedConfig {
        max_secure_erase_sectors: 0x0403_0201,
        max_secure_erase_seg: 0x0807_0605,
        secure_erase_sector_alignment: 0x0c0b_0a09,
        zone_sectors: 0x100f_0e0d,
        max_open_zones: 0x1413_1211,
        max_active_zones: 0x1817_1615,
        max_append_sectors: 0x1c1b_1a19,
        write_granularity: 0x201f_1e1d,
        model: 0x21,
    };
    let bytes = cfg.to_le_bytes();

    // Little-endian, ascending, with no padding between fields.
    let expected: [u8; VIRTIO_BLK_CONFIG_TAIL_LEN] = [
        0x01, 0x02, 0x03, 0x04, // max_secure_erase_sectors
        0x05, 0x06, 0x07, 0x08, // max_secure_erase_seg
        0x09, 0x0a, 0x0b, 0x0c, // secure_erase_sector_alignment
        0x0d, 0x0e, 0x0f, 0x10, // zone_sectors
        0x11, 0x12, 0x13, 0x14, // max_open_zones
        0x15, 0x16, 0x17, 0x18, // max_active_zones
        0x19, 0x1a, 0x1b, 0x1c, // max_append_sectors
        0x1d, 0x1e, 0x1f, 0x20, // write_granularity
        0x21, // model
        0x00, 0x00, 0x00, // unused2
    ];
    assert_eq!(bytes, expected);
}

#[test]
fn zoned_section_starts_at_offset_72_of_config_space() {
    let cfg = VirtioBlockZonedConfig {
        zone_sectors: 0xdead_beef,
        ..valid_hm()
    };
    let full = assemble_config_space(&[0u8; VIRTIO_BLK_CONFIG_BASE_LEN], Some(&cfg));

    let at_zoned = &full[VIRTIO_BLK_CONFIG_ZONED_OFFSET..VIRTIO_BLK_CONFIG_ZONED_OFFSET + 4];
    assert_eq!(at_zoned, 0xdead_beefu32.to_le_bytes());
}

#[test]
fn model_lands_at_config_space_offset_92() {
    let cfg = VirtioBlockZonedConfig {
        model: VIRTIO_BLK_Z_HM as u8,
        ..valid_hm()
    };
    let full = assemble_config_space(&[0u8; VIRTIO_BLK_CONFIG_BASE_LEN], Some(&cfg));
    assert_eq!(full[92], VIRTIO_BLK_Z_HM as u8);
}

#[test]
fn to_le_bytes_reserved_bytes_are_zero() {
    let bytes = valid_hm().to_le_bytes();
    assert_eq!(&bytes[33..36], &[0, 0, 0]);
}

#[test]
fn byte_round_trip_is_lossless() {
    let cfg = VirtioBlockZonedConfig {
        max_secure_erase_sectors: 1,
        max_secure_erase_seg: 2,
        secure_erase_sector_alignment: 3,
        zone_sectors: 0x8000,
        max_open_zones: 5,
        max_active_zones: 6,
        max_append_sectors: 7,
        write_granularity: 8,
        model: VIRTIO_BLK_Z_HA as u8,
    };
    let parsed = VirtioBlockZonedConfig::from_le_bytes(&cfg.to_le_bytes()).unwrap();
    assert_eq!(parsed, cfg);
}

#[test]
fn from_le_bytes_decodes_little_endian() {
    let mut tail = [0u8; VIRTIO_BLK_CONFIG_TAIL_LEN];
    // zone_sectors is at tail offset 12.
    tail[12..16].copy_from_slice(&0x1234_5678u32.to_le_bytes());
    tail[32] = VIRTIO_BLK_Z_HM as u8;

    let cfg = VirtioBlockZonedConfig::from_le_bytes(&tail).unwrap();
    assert_eq!(cfg.zone_sectors, 0x1234_5678);
    assert_eq!(cfg.model, VIRTIO_BLK_Z_HM as u8);
}

#[test]
fn from_le_bytes_ignores_reserved_bytes() {
    let mut tail = valid_hm().to_le_bytes();
    tail[33..36].copy_from_slice(&[0xff, 0xff, 0xff]);
    assert_eq!(
        VirtioBlockZonedConfig::from_le_bytes(&tail).unwrap(),
        valid_hm()
    );
}

#[test]
fn from_le_bytes_rejects_short_input() {
    let err = VirtioBlockZonedConfig::from_le_bytes(&[0u8; 35]).unwrap_err();
    assert_eq!(
        err,
        ZonedError::TailLength {
            expected: VIRTIO_BLK_CONFIG_TAIL_LEN,
            got: 35,
        }
    );
}

#[test]
fn from_le_bytes_rejects_long_input() {
    let err = VirtioBlockZonedConfig::from_le_bytes(&[0u8; 37]).unwrap_err();
    assert_eq!(
        err,
        ZonedError::TailLength {
            expected: VIRTIO_BLK_CONFIG_TAIL_LEN,
            got: 37,
        }
    );
}

#[test]
fn from_le_bytes_rejects_empty_input() {
    VirtioBlockZonedConfig::from_le_bytes(&[]).unwrap_err();
}

// ---------------------------------------------------------------------
// Validation
// ---------------------------------------------------------------------

#[test]
fn host_managed_valid_config_is_exposed() {
    assert_eq!(valid_hm().validate().unwrap(), ZonedExposure::Expose);
}

#[test]
fn host_managed_rejects_zero_zone_sectors() {
    let cfg = VirtioBlockZonedConfig {
        zone_sectors: 0,
        ..valid_hm()
    };
    assert_eq!(cfg.validate().unwrap_err(), ZonedError::ZeroZoneSectors);
}

#[test]
fn host_managed_rejects_non_power_of_two_zone_sectors() {
    let cfg = VirtioBlockZonedConfig {
        zone_sectors: 0x1_0001,
        ..valid_hm()
    };
    assert_eq!(
        cfg.validate().unwrap_err(),
        ZonedError::UnalignedZoneSectors(0x1_0001)
    );
}

#[test]
fn host_managed_accepts_minimal_power_of_two_zone_size() {
    let cfg = VirtioBlockZonedConfig {
        zone_sectors: 1,
        ..valid_hm()
    };
    assert_eq!(cfg.validate().unwrap(), ZonedExposure::Expose);
}

#[test]
fn host_managed_rejects_zero_max_append_sectors() {
    let cfg = VirtioBlockZonedConfig {
        max_append_sectors: 0,
        ..valid_hm()
    };
    assert_eq!(
        cfg.validate().unwrap_err(),
        ZonedError::ZeroMaxAppendSectors
    );
}

#[test]
fn host_managed_rejects_zero_write_granularity() {
    let cfg = VirtioBlockZonedConfig {
        write_granularity: 0,
        ..valid_hm()
    };
    assert_eq!(
        cfg.validate().unwrap_err(),
        ZonedError::ZeroWriteGranularity
    );
}

#[test]
fn host_managed_allows_unlimited_open_and_active_zones() {
    let cfg = VirtioBlockZonedConfig {
        max_open_zones: 0,
        max_active_zones: 0,
        ..valid_hm()
    };
    assert_eq!(cfg.validate().unwrap(), ZonedExposure::Expose);
}

#[test]
fn host_aware_skips_geometry_checks() {
    // The Linux driver presents host-aware devices as regular block
    // devices, so nonsensical geometry must not fail the device.
    let cfg = VirtioBlockZonedConfig {
        zone_sectors: 0,
        max_append_sectors: 0,
        write_granularity: 0,
        model: VIRTIO_BLK_Z_HA as u8,
        ..Default::default()
    };
    assert_eq!(cfg.validate().unwrap(), ZonedExposure::Expose);
}

#[test]
fn model_none_is_not_exposed() {
    let cfg = VirtioBlockZonedConfig {
        model: VIRTIO_BLK_Z_NONE as u8,
        ..valid_hm()
    };
    assert_eq!(cfg.validate().unwrap(), ZonedExposure::ModelNone);
}

#[test]
fn unknown_model_is_rejected() {
    let cfg = VirtioBlockZonedConfig {
        model: 3,
        ..valid_hm()
    };
    assert_eq!(cfg.validate().unwrap_err(), ZonedError::UnknownModel(3));
}

// ---------------------------------------------------------------------
// Feature gating
// ---------------------------------------------------------------------

#[test]
fn zoned_negotiated_detects_the_bit() {
    assert!(zoned_negotiated(1u64 << VIRTIO_BLK_F_ZONED));
    assert!(!zoned_negotiated(0));
    assert!(!zoned_negotiated(!(1u64 << VIRTIO_BLK_F_ZONED)));
}

#[test]
fn config_space_len_depends_on_zoned() {
    assert_eq!(config_space_len(false), VIRTIO_BLK_CONFIG_BASE_LEN);
    assert_eq!(config_space_len(true), VIRTIO_BLK_CONFIG_ZONED_TOTAL_LEN);
}

#[test]
fn gate_features_keeps_bit_when_exposed() {
    let features = 1u64 << VIRTIO_BLK_F_ZONED;
    assert_eq!(
        gate_features(features, ZonedExposure::Expose),
        1u64 << VIRTIO_BLK_F_ZONED
    );
}

#[test]
fn gate_features_strips_bit_when_not_advertised() {
    let features = 1u64 << VIRTIO_BLK_F_ZONED;
    assert_eq!(gate_features(features, ZonedExposure::NotAdvertised), 0);
}

#[test]
fn gate_features_strips_bit_for_model_none() {
    let features = 1u64 << VIRTIO_BLK_F_ZONED;
    assert_eq!(gate_features(features, ZonedExposure::ModelNone), 0);
}

#[test]
fn gate_features_leaves_other_bits_untouched() {
    let others = !(1u64 << VIRTIO_BLK_F_ZONED);
    assert_eq!(gate_features(others, ZonedExposure::NotAdvertised), others);
    assert_eq!(gate_features(others, ZonedExposure::ModelNone), others);
    assert_eq!(gate_features(others, ZonedExposure::Expose), others);
}

#[test]
fn gate_features_is_idempotent() {
    let features = 1u64 << VIRTIO_BLK_F_ZONED;
    let once = gate_features(features, ZonedExposure::NotAdvertised);
    assert_eq!(gate_features(once, ZonedExposure::NotAdvertised), once);
}

#[test]
fn exposure_is_exposed_only_for_expose() {
    assert!(ZonedExposure::Expose.is_exposed());
    assert!(!ZonedExposure::NotAdvertised.is_exposed());
    assert!(!ZonedExposure::ModelNone.is_exposed());
}

// ---------------------------------------------------------------------
// Restore compatibility
// ---------------------------------------------------------------------

#[test]
fn restore_non_zoned_onto_non_zoned_backend_is_allowed() {
    check_restore_compat(0, 0).unwrap();
}

#[test]
fn restore_non_zoned_onto_zoned_backend_is_allowed() {
    check_restore_compat(0, 1u64 << VIRTIO_BLK_F_ZONED).unwrap();
}

#[test]
fn restore_zoned_onto_zoned_backend_is_allowed() {
    let zoned = 1u64 << VIRTIO_BLK_F_ZONED;
    check_restore_compat(zoned, zoned).unwrap();
}

#[test]
fn restore_zoned_onto_non_zoned_backend_is_rejected() {
    let err = check_restore_compat(1u64 << VIRTIO_BLK_F_ZONED, 0).unwrap_err();
    assert_eq!(err, ZonedError::RestoreBackendNotZoned);
}

#[test]
fn restore_compat_ignores_unrelated_features() {
    let unrelated = 0xffu64;
    check_restore_compat(unrelated, 0).unwrap();
}

// ---------------------------------------------------------------------
// Config-space assembly
// ---------------------------------------------------------------------

#[test]
fn assemble_without_tail_returns_base_unchanged() {
    let base: Vec<u8> = (0..VIRTIO_BLK_CONFIG_BASE_LEN as u8).collect();
    let out = assemble_config_space(&base, None);
    assert_eq!(out, base);
    assert_eq!(out.len(), VIRTIO_BLK_CONFIG_BASE_LEN);
}

#[test]
fn assemble_with_tail_produces_full_zoned_length() {
    let base = vec![0u8; VIRTIO_BLK_CONFIG_BASE_LEN];
    let out = assemble_config_space(&base, Some(&valid_hm()));
    assert_eq!(out.len(), VIRTIO_BLK_CONFIG_ZONED_TOTAL_LEN);
}

#[test]
fn assemble_preserves_base_bytes() {
    let base: Vec<u8> = (0..VIRTIO_BLK_CONFIG_BASE_LEN as u8).collect();
    let out = assemble_config_space(&base, Some(&valid_hm()));
    assert_eq!(&out[..VIRTIO_BLK_CONFIG_BASE_LEN], &base[..]);
}

#[test]
fn assemble_appends_tail_verbatim() {
    let cfg = valid_hm();
    let out = assemble_config_space(&[0u8; VIRTIO_BLK_CONFIG_BASE_LEN], Some(&cfg));
    assert_eq!(&out[VIRTIO_BLK_CONFIG_BASE_LEN..], &cfg.to_le_bytes()[..]);
}

#[test]
fn assemble_passes_secure_erase_fields_through() {
    let cfg = VirtioBlockZonedConfig {
        max_secure_erase_sectors: 0xaabb_ccdd,
        ..valid_hm()
    };
    let out = assemble_config_space(&[0u8; VIRTIO_BLK_CONFIG_BASE_LEN], Some(&cfg));
    assert_eq!(
        &out[VIRTIO_BLK_CONFIG_BASE_LEN..VIRTIO_BLK_CONFIG_BASE_LEN + 4],
        0xaabb_ccddu32.to_le_bytes()
    );
}

#[test]
fn constants_match_the_bindings() {
    assert_eq!(F_ZONED, VIRTIO_BLK_F_ZONED as u64);
    assert_eq!(MODEL_NONE, VIRTIO_BLK_Z_NONE as u8);
    assert_eq!(MODEL_HM, VIRTIO_BLK_Z_HM as u8);
    assert_eq!(MODEL_HA, VIRTIO_BLK_Z_HA as u8);
}

#[test]
fn every_power_of_two_is_a_zone_size() {
    for k in 0..32 {
        let cfg = VirtioBlockZonedConfig {
            zone_sectors: 1 << k,
            ..valid_hm()
        };
        assert_eq!(cfg.validate(), Ok(ZonedExposure::Expose));
        let odd = (1u32 << k).wrapping_add(3);
        if k > 1 {
            let cfg = VirtioBlockZonedConfig {
                zone_sectors: odd,
                ..valid_hm()
            };
            assert_eq!(cfg.validate(), Err(ZonedError::UnalignedZoneSectors(odd)));
        }
    }
}

#[test]
fn gating_touches_one_bit_only() {
    for exposure in [ZonedExposure::NotAdvertised, ZonedExposure::ModelNone] {
        assert_eq!(gate_features(u64::MAX, exposure), u64::MAX & !(1 << 17));
    }
    assert_eq!(gate_features(u64::MAX, ZonedExposure::Expose), u64::MAX);
}

#[test]
fn any_tail_keeps_its_fields_byte_for_byte() {
    let tail: Vec<u8> = (101..137).collect();
    let back = VirtioBlockZonedConfig::from_le_bytes(&tail)
        .unwrap()
        .to_le_bytes();
    assert_eq!(back[..33], tail[..33]);
    assert_eq!(back[33..], [0, 0, 0]);
}
