//! Zoned block device (`VIRTIO_BLK_F_ZONED`) configuration-space support.
//!
//! The virtio 1.2 specification places the zoned characteristics at the *end*
//! of the virtio-blk configuration space, after the secure-erase fields:
//!
//! ```text
//!  offset  size  field
//!  ------  ----  -------------------------------------------------
//!       0    60  base config (capacity .. write_zeroes_may_unmap)
//!      60    12  max_secure_erase_sectors / _seg / _sector_alignment
//!      72    24  zoned characteristics
//!  ------  ----
//!              96 total
//! ```
//!
//! Most devices expose the first 60 bytes only. The zoned tail is modelled
//! separately here and concatenated onto the base config only for devices
//! that actually negotiated `VIRTIO_BLK_F_ZONED`.
//!
//! Virtio configuration space is little-endian regardless of host byte order,
//! so this module serialises explicitly rather than reinterpreting memory.

use vstd::prelude::*;

verus! {

/// Length of the base virtio-blk configuration space.
pub const VIRTIO_BLK_CONFIG_BASE_LEN: usize = 60;

/// Length of the secure-erase fields that sit between the base config and the
/// zoned characteristics.
pub const VIRTIO_BLK_CONFIG_SECURE_ERASE_LEN: usize = 12;

/// Length of the `virtio_blk_zoned_characteristics` structure.
pub const VIRTIO_BLK_CONFIG_ZONED_LEN: usize = 24;

/// Length of the tail appended to the base config for a zoned device: the
/// secure-erase fields plus the zoned characteristics.
pub const VIRTIO_BLK_CONFIG_TAIL_LEN: usize = VIRTIO_BLK_CONFIG_SECURE_ERASE_LEN
    + VIRTIO_BLK_CONFIG_ZONED_LEN;

/// Total configuration-space length of a zoned virtio-blk device.
pub const VIRTIO_BLK_CONFIG_ZONED_TOTAL_LEN: usize = VIRTIO_BLK_CONFIG_BASE_LEN
    + VIRTIO_BLK_CONFIG_TAIL_LEN;

/// Offset of the `virtio_blk_zoned_characteristics` structure within the
/// configuration space.
pub const VIRTIO_BLK_CONFIG_ZONED_OFFSET: usize = VIRTIO_BLK_CONFIG_BASE_LEN
    + VIRTIO_BLK_CONFIG_SECURE_ERASE_LEN;

/// Feature bit of zoned block devices.
pub const VIRTIO_BLK_F_ZONED: u64 = 17;

/// Not a zoned disk. Legal even when the backend advertises
/// `VIRTIO_BLK_F_ZONED`: a backend able to serve zoned disks may still be
/// configured with a conventional one.
pub const MODEL_NONE: u8 = 0;

/// Host-managed: writes within a zone must be sequential, and the guest needs
/// the zone geometry to drive the disk at all.
pub const MODEL_HM: u8 = 1;

/// Host-aware: accepts non-sequential writes, so it is safe to drive as a
/// conventional disk.
pub const MODEL_HA: u8 = 2;

/// Errors that make a backend's zoned configuration unusable.
#[derive(Debug, Copy, Clone, PartialEq, Eq, Structural)]
pub enum ZonedError {
    /// The zoned tail returned by the backend was not the expected length.
    TailLength { expected: usize, got: usize },
    /// The backend reported a zoned model this build does not understand.
    ///
    /// Refused rather than downgraded: an unrecognised model may still require
    /// zone-aware access, and presenting such a disk to the guest as a regular
    /// block device could corrupt it.
    UnknownModel(u8),
    /// A host-managed device reported a zone size of zero.
    ZeroZoneSectors,
    /// A host-managed device reported a zone size that is not a power of two.
    ///
    /// The Linux virtio-blk driver rejects such a device, so this is caught
    /// here to produce a comprehensible error instead of an opaque guest-side
    /// probe failure.
    UnalignedZoneSectors(u32),
    /// A host-managed device reported that zone append is unsupported.
    ZeroMaxAppendSectors,
    /// A host-managed device reported a write granularity of zero.
    ZeroWriteGranularity,
    /// A zoned device is being restored onto a backend that is not zoned.
    RestoreBackendNotZoned,
}

/// Whether, and why, `VIRTIO_BLK_F_ZONED` should be exposed to the guest.
#[derive(Debug, Copy, Clone, PartialEq, Eq, Structural)]
pub enum ZonedExposure {
    /// The backend is zoned; advertise `VIRTIO_BLK_F_ZONED` to the guest.
    Expose,
    /// The backend did not advertise `VIRTIO_BLK_F_ZONED`.
    NotAdvertised,
    /// The backend advertised `VIRTIO_BLK_F_ZONED` but reports the zoned model
    /// as `VIRTIO_BLK_Z_NONE`, i.e. it is capable of serving zoned disks but
    /// this particular disk is not one. Treated as a plain block device.
    ModelNone,
}

impl ZonedExposure {
    /// Whether `VIRTIO_BLK_F_ZONED` should be advertised to the guest.
    pub fn is_exposed(&self) -> (r: bool)
        ensures
            r == (*self is Expose),
    {
        matches!(self, ZonedExposure::Expose)
    }
}

/// The tail of a zoned virtio-blk configuration space.
///
/// Carries the secure-erase fields as well as the zoned characteristics:
/// `VIRTIO_BLK_F_SECURE_ERASE` is never negotiated, but those bytes occupy the
/// gap before the zoned section and are passed through from the backend
/// verbatim so that the zoned fields land at their specified offsets.
#[derive(Copy, Clone, Debug, PartialEq, Eq, Structural)]
pub struct VirtioBlockZonedConfig {
    /// `max_secure_erase_sectors`; passed through, never negotiated.
    pub max_secure_erase_sectors: u32,
    /// `max_secure_erase_seg`; passed through, never negotiated.
    pub max_secure_erase_seg: u32,
    /// `secure_erase_sector_alignment`; passed through, never negotiated.
    pub secure_erase_sector_alignment: u32,
    /// Size of each zone, in 512-byte sectors.
    pub zone_sectors: u32,
    /// Maximum number of simultaneously open zones; zero means unlimited.
    pub max_open_zones: u32,
    /// Maximum number of simultaneously active zones; zero means unlimited.
    pub max_active_zones: u32,
    /// Maximum number of sectors a single zone-append request may write.
    pub max_append_sectors: u32,
    /// Write granularity, in bytes.
    pub write_granularity: u32,
    /// Zoned model: one of `VIRTIO_BLK_Z_NONE`, `_HM`, or `_HA`.
    pub model: u8,
}

impl Default for VirtioBlockZonedConfig {
    fn default() -> (r: Self)
        ensures
            r.max_secure_erase_sectors == 0,
            r.max_secure_erase_seg == 0,
            r.secure_erase_sector_alignment == 0,
            r.zone_sectors == 0,
            r.max_open_zones == 0,
            r.max_active_zones == 0,
            r.max_append_sectors == 0,
            r.write_granularity == 0,
            r.model == 0,
    {
        VirtioBlockZonedConfig {
            max_secure_erase_sectors: 0,
            max_secure_erase_seg: 0,
            secure_erase_sector_alignment: 0,
            zone_sectors: 0,
            max_open_zones: 0,
            max_active_zones: 0,
            max_append_sectors: 0,
            write_granularity: 0,
            model: 0,
        }
    }
}

/// The little-endian bytes of `value`.
pub open spec fn le_u32(value: u32) -> Seq<u8> {
    seq![
        (value % 256) as u8,
        (value / 256 % 256) as u8,
        (value / 65536 % 256) as u8,
        (value / 16777216) as u8,
    ]
}

/// The number whose little-endian bytes stand at `offset`.
pub open spec fn u32_at(buf: Seq<u8>, offset: int) -> u32 {
    (buf[offset] + 256 * buf[offset + 1] + 65536 * buf[offset + 2] + 16777216 * buf[offset + 3]) as u32
}

impl VirtioBlockZonedConfig {
    /// The configuration-space tail: the fields in order, without padding,
    /// then three reserved bytes that read as zero.
    pub open spec fn bytes(self) -> Seq<u8> {
        le_u32(self.max_secure_erase_sectors) + le_u32(self.max_secure_erase_seg) + le_u32(
            self.secure_erase_sector_alignment,
        ) + le_u32(self.zone_sectors) + le_u32(self.max_open_zones) + le_u32(self.max_active_zones)
            + le_u32(self.max_append_sectors) + le_u32(self.write_granularity) + seq![
            self.model,
            0u8,
            0u8,
            0u8,
        ]
    }

    /// The fields that a tail of the right length holds.
    pub open spec fn parsed(tail: Seq<u8>) -> Self {
        VirtioBlockZonedConfig {
            max_secure_erase_sectors: u32_at(tail, 0),
            max_secure_erase_seg: u32_at(tail, 4),
            secure_erase_sector_alignment: u32_at(tail, 8),
            zone_sectors: u32_at(tail, 12),
            max_open_zones: u32_at(tail, 16),
            max_active_zones: u32_at(tail, 20),
            max_append_sectors: u32_at(tail, 24),
            write_granularity: u32_at(tail, 28),
            model: tail[32],
        }
    }

    /// What becomes of a device with these characteristics.
    pub open spec fn verdict(self) -> Result<ZonedExposure, ZonedError> {
        if self.model == MODEL_NONE {
            Ok(ZonedExposure::ModelNone)
        } else if self.model == MODEL_HA {
            Ok(ZonedExposure::Expose)
        } else if self.model != MODEL_HM {
            Err(ZonedError::UnknownModel(self.model))
        } else if self.zone_sectors == 0 {
            Err(ZonedError::ZeroZoneSectors)
        } else if !is_pow2(self.zone_sectors) {
            Err(ZonedError::UnalignedZoneSectors(self.zone_sectors))
        } else if self.max_append_sectors == 0 {
            Err(ZonedError::ZeroMaxAppendSectors)
        } else if self.write_granularity == 0 {
            Err(ZonedError::ZeroWriteGranularity)
        } else {
            Ok(ZonedExposure::Expose)
        }
    }

    /// Parse the configuration-space tail as returned by a vhost-user backend.
    ///
    /// `tail` must be exactly [`VIRTIO_BLK_CONFIG_TAIL_LEN`] bytes, i.e. the
    /// bytes at offset [`VIRTIO_BLK_CONFIG_BASE_LEN`] onwards.
    pub fn from_le_bytes(tail: &[u8]) -> (r: Result<Self, ZonedError>)
        ensures
            r == if tail@.len() == 36 {
                Ok::<Self, ZonedError>(Self::parsed(tail@))
            } else {
                Err(ZonedError::TailLength { expected: 36, got: tail@.len() as usize })
            },
    {
        if tail.len() != VIRTIO_BLK_CONFIG_TAIL_LEN {
            return Err(
                ZonedError::TailLength { expected: VIRTIO_BLK_CONFIG_TAIL_LEN, got: tail.len() },
            );
        }
        Ok(
            VirtioBlockZonedConfig {
                max_secure_erase_sectors: read_le_u32(tail, 0),
                max_secure_erase_seg: read_le_u32(tail, 4),
                secure_erase_sector_alignment: read_le_u32(tail, 8),
                zone_sectors: read_le_u32(tail, 12),
                max_open_zones: read_le_u32(tail, 16),
                max_active_zones: read_le_u32(tail, 20),
                max_append_sectors: read_le_u32(tail, 24),
                write_granularity: read_le_u32(tail, 28),
                model: tail[32],
            },
        )
    }

    /// Serialise to the little-endian configuration-space tail.
    pub fn to_le_bytes(&self) -> (r: [u8; 36])
        ensures
            r@ == self.bytes(),
    {
        let mut tail: [u8; 36] = [0u8; 36];
        write_le_u32(&mut tail, 0, self.max_secure_erase_sectors);
        write_le_u32(&mut tail, 4, self.max_secure_erase_seg);
        write_le_u32(&mut tail, 8, self.secure_erase_sector_alignment);
        write_le_u32(&mut tail, 12, self.zone_sectors);
        write_le_u32(&mut tail, 16, self.max_open_zones);
        write_le_u32(&mut tail, 20, self.max_active_zones);
        write_le_u32(&mut tail, 24, self.max_append_sectors);
        write_le_u32(&mut tail, 28, self.write_granularity);
        tail[32] = self.model;
        assert(tail@ =~= self.bytes());
        tail
    }

    /// Check that the reported characteristics describe a device the guest can
    /// actually drive, and report whether it should be exposed as zoned.
    ///
    /// Host-aware devices are accepted without geometry checks: the Linux
    /// driver presents them as regular block devices, so their zoned fields are
    /// advisory.
    pub fn validate(&self) -> (r: Result<ZonedExposure, ZonedError>)
        ensures
            r == self.verdict(),
    {
        if self.model == MODEL_NONE {
            return Ok(ZonedExposure::ModelNone);
        }
        // Host-aware disks accept ordinary writes anywhere, and the Linux
        // driver deliberately presents them as regular block devices, so the
        // geometry fields below are advisory and not worth failing on.
        if self.model == MODEL_HA {
            return Ok(ZonedExposure::Expose);
        }
        if self.model != MODEL_HM {
            return Err(ZonedError::UnknownModel(self.model));
        }
        // A host-managed disk is only usable if the guest can derive a zone
        // layout from these fields. max_open_zones and max_active_zones are
        // unconstrained: zero is the specified encoding for "no limit".
        if self.zone_sectors == 0 {
            return Err(ZonedError::ZeroZoneSectors);
        }
        if !power_of_two(self.zone_sectors) {
            return Err(ZonedError::UnalignedZoneSectors(self.zone_sectors));
        }
        if self.max_append_sectors == 0 {
            return Err(ZonedError::ZeroMaxAppendSectors);
        }
        if self.write_granularity == 0 {
            return Err(ZonedError::ZeroWriteGranularity);
        }
        Ok(ZonedExposure::Expose)
    }
}

/// Whether `n` is a power of two.
pub open spec fn is_pow2(n: u32) -> bool {
    exists|k: nat| n == #[trigger] vstd::arithmetic::power2::pow2(k)
}

fn power_of_two(n: u32) -> (r: bool)
    ensures
        r == is_pow2(n),
{
    let mut p: u64 = 1;
    let ghost mut k: nat = 0;
    proof {
        vstd::arithmetic::power2::lemma2_to64();
    }
    while p < n as u64
        invariant
            p == vstd::arithmetic::power2::pow2(k),
            p < 0x2_0000_0000,
            0 < p,
            forall|j: nat| j < k ==> #[trigger] vstd::arithmetic::power2::pow2(j) < n,
        decreases n as u64 * 2 - p,
    {
        proof {
            vstd::arithmetic::power2::lemma_pow2_unfold(k + 1);
            k = k + 1;
        }
        p = p * 2;
    }
    proof {
        assert forall|j: nat| n == #[trigger] vstd::arithmetic::power2::pow2(j) implies p == n by {
            if j > k {
                vstd::arithmetic::power2::lemma_pow2_strictly_increases(k, j);
            }
        }
    }
    p == n as u64
}

/// Read a little-endian `u32` at `offset`.
pub(crate) fn read_le_u32(buf: &[u8], offset: usize) -> (r: u32)
    requires
        offset + 4 <= buf@.len(),
    ensures
        r == u32_at(buf@, offset as int),
{
    buf[offset] as u32 + 256 * buf[offset + 1] as u32 + 65536 * buf[offset + 2] as u32 + 16777216
        * buf[offset + 3] as u32
}

/// Write `value` as little-endian at `offset`.
fn write_le_u32(buf: &mut [u8; 36], offset: usize, value: u32)
    requires
        offset + 4 <= 36,
    ensures
        final(buf)@ == old(buf)@.take(offset as int) + le_u32(value) + old(buf)@.skip(
            offset as int + 4,
        ),
{
    buf[offset] = (value % 256) as u8;
    buf[offset + 1] = (value / 256 % 256) as u8;
    buf[offset + 2] = (value / 65536 % 256) as u8;
    buf[offset + 3] = (value / 16777216) as u8;
    assert(buf@ =~= old(buf)@.take(offset as int) + le_u32(value) + old(buf)@.skip(
        offset as int + 4,
    ));
}

/// Whether `VIRTIO_BLK_F_ZONED` is set in `features`.
pub open spec fn has_zoned(features: u64) -> bool {
    features & (1u64 << 17) != 0
}

/// Whether `VIRTIO_BLK_F_ZONED` is set in `features`.
pub fn zoned_negotiated(features: u64) -> (r: bool)
    ensures
        r == has_zoned(features),
{
    features & (1u64 << VIRTIO_BLK_F_ZONED) != 0
}

/// Length of configuration space to request from a vhost-user-blk backend.
///
/// Requesting the zoned length from a backend that is not zoned would fail, as
/// the vhost-user `GET_CONFIG` reply must match the requested size exactly.
pub fn config_space_len(zoned: bool) -> (r: usize)
    ensures
        r == if zoned {
            96int
        } else {
            60
        },
{
    if zoned {
        VIRTIO_BLK_CONFIG_ZONED_TOTAL_LEN
    } else {
        VIRTIO_BLK_CONFIG_BASE_LEN
    }
}

/// The feature set without `VIRTIO_BLK_F_ZONED`, unless it is exposed.
pub open spec fn gated(features: u64, exposure: ZonedExposure) -> u64 {
    if exposure is Expose {
        features
    } else {
        features & !(1u64 << 17)
    }
}

/// Strip `VIRTIO_BLK_F_ZONED` from the guest-facing feature set unless the
/// backend is actually serving a zoned disk.
pub fn gate_features(avail_features: u64, exposure: ZonedExposure) -> (r: u64)
    ensures
        r == gated(avail_features, exposure),
{
    if exposure.is_exposed() {
        avail_features
    } else {
        avail_features & !(1u64 << VIRTIO_BLK_F_ZONED)
    }
}

/// Reject a restore that would silently drop zoned semantics.
///
/// A guest that negotiated `VIRTIO_BLK_F_ZONED` before migration holds zone
/// state and issues zone-management commands; resuming it against a backend
/// that cannot serve them would fail in ways the guest cannot recover from, so
/// this fails the restore outright.
pub fn check_restore_compat(state_avail_features: u64, backend_features: u64) -> (r: Result<
    (),
    ZonedError,
>)
    ensures
        r == if has_zoned(state_avail_features) && !has_zoned(backend_features) {
            Err::<(), ZonedError>(ZonedError::RestoreBackendNotZoned)
        } else {
            Ok(())
        },
{
    if zoned_negotiated(state_avail_features) && !zoned_negotiated(backend_features) {
        Err(ZonedError::RestoreBackendNotZoned)
    } else {
        Ok(())
    }
}

/// The configuration space: the base, then the zoned tail, if any.
pub open spec fn config_space(base: Seq<u8>, tail: Option<VirtioBlockZonedConfig>) -> Seq<u8> {
    match tail {
        None => base,
        Some(tail) => base + tail.bytes(),
    }
}

/// Concatenate the base configuration space with the zoned tail, if any.
///
/// Passing `None` yields the base configuration space unchanged, which is what
/// every non-zoned device continues to expose to the guest.
pub fn assemble_config_space(base: &[u8], tail: Option<&VirtioBlockZonedConfig>) -> (r: Vec<u8>)
    ensures
        r@ == config_space(
            base@,
            match tail {
                None => None,
                Some(tail) => Some(*tail),
            },
        ),
{
    let mut config: Vec<u8> = Vec::new();
    config.extend_from_slice(base);
    assert(config@ =~= base@);
    match tail {
        None => {},
        Some(tail) => {
            let bytes: [u8; 36] = tail.to_le_bytes();
            config.extend_from_slice(bytes.as_slice());
            assert(config@ =~= base@ + tail.bytes());
        },
    }
    config
}

/// Where the bytes of a number stand, the number is read.
pub(crate) proof fn lemma_u32_at(buf: Seq<u8>, offset: int, value: u32)
    requires
        0 <= offset <= buf.len() - 4,
        buf.subrange(offset, offset + 4) == le_u32(value),
    ensures
        u32_at(buf, offset) == value,
{
    let part = buf.subrange(offset, offset + 4);
    assert(part[0] == buf[offset] && part[1] == buf[offset + 1] && part[2] == buf[offset + 2]
        && part[3] == buf[offset + 3]);
}

/// The bytes of the number that stands at `o` are the bytes that stand there.
pub(crate) proof fn lemma_u32_bytes_at(b: Seq<u8>, o: int)
    requires
        0 <= o <= b.len() - 4,
    ensures
        le_u32(u32_at(b, o)) == b.subrange(o, o + 4),
{
    let v = u32_at(b, o);
    assert(v == b[o] + 256 * b[o + 1] + 65536 * b[o + 2] + 16777216 * b[o + 3]);
    assert(v % 256 == b[o]);
    assert(v / 256 % 256 == b[o + 1]);
    assert(v / 65536 % 256 == b[o + 2]);
    assert(v / 16777216 == b[o + 3]);
    assert(le_u32(v) =~= b.subrange(o, o + 4));
}

/// Whatever tail a backend returns, parsing and serialising it gives its
/// fields back byte for byte, the secure-erase fields included; the reserved
/// bytes behind them read as zero.
#[verifier::spinoff_prover]
#[verifier::rlimit(40)]
pub proof fn law_tail_bytes_round_trip(tail: Seq<u8>)
    requires
        tail.len() == 36,
    ensures
        VirtioBlockZonedConfig::parsed(tail).bytes() == tail.take(33) + seq![0u8, 0u8, 0u8],
{
    lemma_u32_bytes_at(tail, 0);
    lemma_u32_bytes_at(tail, 4);
    lemma_u32_bytes_at(tail, 8);
    lemma_u32_bytes_at(tail, 12);
    lemma_u32_bytes_at(tail, 16);
    lemma_u32_bytes_at(tail, 20);
    lemma_u32_bytes_at(tail, 24);
    lemma_u32_bytes_at(tail, 28);
    assert(VirtioBlockZonedConfig::parsed(tail).bytes() =~= tail.take(33) + seq![0u8, 0u8, 0u8]);
}

/// Parsing the tail that a configuration serialises to gives back the
/// configuration, whatever the reserved bytes have become.
#[verifier::spinoff_prover]
#[verifier::rlimit(40)]
pub proof fn law_tail_round_trip(config: VirtioBlockZonedConfig, tail: Seq<u8>)
    requires
        tail.len() == 36,
        forall|i: int| 0 <= i < 33 ==> (#[trigger] tail[i]) == config.bytes()[i],
    ensures
        config.bytes().len() == 36,
        VirtioBlockZonedConfig::parsed(tail) == config,
{
    let b = config.bytes();
    lemma_fields(config);
    assert forall|i: int| 0 <= i < 29 implies u32_at(tail, i) == #[trigger] u32_at(b, i) by {
        assert(tail[i] == b[i]);
        assert(tail[i + 1] == b[i + 1]);
        assert(tail[i + 2] == b[i + 2]);
        assert(tail[i + 3] == b[i + 3]);
    }
}

/// Each field stands at its offset.
proof fn lemma_fields(config: VirtioBlockZonedConfig)
    ensures
        ({
            let b = config.bytes();
            &&& b.len() == 36
            &&& u32_at(b, 0) == config.max_secure_erase_sectors
            &&& u32_at(b, 4) == config.max_secure_erase_seg
            &&& u32_at(b, 8) == config.secure_erase_sector_alignment
            &&& u32_at(b, 12) == config.zone_sectors
            &&& u32_at(b, 16) == config.max_open_zones
            &&& u32_at(b, 20) == config.max_active_zones
            &&& u32_at(b, 24) == config.max_append_sectors
            &&& u32_at(b, 28) == config.write_granularity
            &&& b[32] == config.model
        }),
{
    let b = config.bytes();
    assert(u32_at(b, 0) == config.max_secure_erase_sectors) by {
        assert(b.subrange(0, 4) =~= le_u32(config.max_secure_erase_sectors));
        lemma_u32_at(b, 0, config.max_secure_erase_sectors);
    }
    assert(u32_at(b, 4) == config.max_secure_erase_seg) by {
        assert(b.subrange(4, 8) =~= le_u32(config.max_secure_erase_seg));
        lemma_u32_at(b, 4, config.max_secure_erase_seg);
    }
    assert(u32_at(b, 8) == config.secure_erase_sector_alignment) by {
        assert(b.subrange(8, 12) =~= le_u32(config.secure_erase_sector_alignment));
        lemma_u32_at(b, 8, config.secure_erase_sector_alignment);
    }
    assert(u32_at(b, 12) == config.zone_sectors) by {
        assert(b.subrange(12, 16) =~= le_u32(config.zone_sectors));
        lemma_u32_at(b, 12, config.zone_sectors);
    }
    assert(u32_at(b, 16) == config.max_open_zones) by {
        assert(b.subrange(16, 20) =~= le_u32(config.max_open_zones));
        lemma_u32_at(b, 16, config.max_open_zones);
    }
    assert(u32_at(b, 20) == config.max_active_zones) by {
        assert(b.subrange(20, 24) =~= le_u32(config.max_active_zones));
        lemma_u32_at(b, 20, config.max_active_zones);
    }
    assert(u32_at(b, 24) == config.max_append_sectors) by {
        assert(b.subrange(24, 28) =~= le_u32(config.max_append_sectors));
        lemma_u32_at(b, 24, config.max_append_sectors);
    }
    assert(u32_at(b, 28) == config.write_granularity) by {
        assert(b.subrange(28, 32) =~= le_u32(config.write_granularity));
        lemma_u32_at(b, 28, config.write_granularity);
    }
}

/// A zoned configuration space is 96 bytes long: the 60 base bytes as they
/// were, the secure-erase fields from offset 60 on, the zone size at offset 72
/// and the model at offset 92. Without a tail it is the base unchanged.
pub proof fn law_config_space_layout(base: Seq<u8>, config: VirtioBlockZonedConfig)
    requires
        base.len() == 60,
    ensures
        config_space(base, None) == base,
        ({
            let full = config_space(base, Some(config));
            &&& full.len() == 96
            &&& full.take(60) == base
            &&& full.skip(60) == config.bytes()
            &&& u32_at(full, 60) == config.max_secure_erase_sectors
            &&& u32_at(full, 72) == config.zone_sectors
            &&& full[92] == config.model
        }),
{
    let full = config_space(base, Some(config));
    let b = config.bytes();
    lemma_fields(config);
    assert(full.take(60) =~= base);
    assert(full.skip(60) =~= b);
    assert(forall|i: int| 0 <= i < 36 ==> full[60 + i] == #[trigger] b[i]);
    assert(full[60] == b[0] && full[61] == b[1] && full[62] == b[2] && full[63] == b[3]);
    assert(full[72] == b[12] && full[73] == b[13] && full[74] == b[14] && full[75] == b[15]);
}

/// Gating withholds the zoned bit unless it is exposed, touches no other bit,
/// and does nothing the second time.
pub proof fn law_gating(features: u64, exposure: ZonedExposure)
    ensures
        has_zoned(gated(features, exposure)) == (has_zoned(features) && exposure is Expose),
        gated(features, exposure) & !(1u64 << 17) == features & !(1u64 << 17),
        gated(gated(features, exposure), exposure) == gated(features, exposure),
{
    assert((features & !(1u64 << 17)) & (1u64 << 17) == 0) by (bit_vector);
    assert((features & !(1u64 << 17)) & !(1u64 << 17) == features & !(1u64 << 17)) by (bit_vector);
}

/// The number that `width` bytes from `at` on stand for, least significant byte
/// first.
pub open spec fn number(b: Seq<u8>, at: int, width: nat) -> int
    decreases width,
{
    if width == 0 {
        0
    } else {
        b[at] + 256 * number(b, at + 1, (width - 1) as nat)
    }
}

pub(crate) proof fn lemma_number(b: Seq<u8>, at: int)
    ensures
        number(b, at, 2) == b[at] + 256 * b[at + 1],
        number(b, at, 4) == u32_at(b, at),
        number(b, at, 8) == u32_at(b, at) + 0x1_0000_0000 * u32_at(b, at + 4),
{
    reveal_with_fuel(number, 9);
}

/// A tail is read field by field: each field is the little-endian number at its
/// place in the virtio layout, and the model is a byte.
pub proof fn law_tail_fields(tail: Seq<u8>)
    requires
        tail.len() == 36,
    ensures
        ({
            let c = VirtioBlockZonedConfig::parsed(tail);
            &&& c.max_secure_erase_sectors == number(tail, 0, 4)
            &&& c.max_secure_erase_seg == number(tail, 4, 4)
            &&& c.secure_erase_sector_alignment == number(tail, 8, 4)
            &&& c.zone_sectors == number(tail, 12, 4)
            &&& c.max_open_zones == number(tail, 16, 4)
            &&& c.max_active_zones == number(tail, 20, 4)
            &&& c.max_append_sectors == number(tail, 24, 4)
            &&& c.write_granularity == number(tail, 28, 4)
            &&& c.model == number(tail, 32, 1)
        }),
{
    lemma_number(tail, 0);
    lemma_number(tail, 4);
    lemma_number(tail, 8);
    lemma_number(tail, 12);
    lemma_number(tail, 16);
    lemma_number(tail, 20);
    lemma_number(tail, 24);
    lemma_number(tail, 28);
    reveal_with_fuel(number, 2);
}

/// The guest reads a zoned device's characteristics where the virtio layout has
/// them: behind the base fields and the secure-erase fields, each as a
/// little-endian number, the last three bytes zero.
#[verifier::spinoff_prover]
#[verifier::rlimit(40)]
pub proof fn law_guest_reads_the_zoned_fields(base: Seq<u8>, config: VirtioBlockZonedConfig)
    requires
        base.len() == 60,
    ensures
        ({
            let full = config_space(base, Some(config));
            &&& full.len() == 96
            &&& forall|i: int| 0 <= i < 60 ==> (#[trigger] full[i]) == base[i]
            &&& number(full, 60, 4) == config.max_secure_erase_sectors
            &&& number(full, 64, 4) == config.max_secure_erase_seg
            &&& number(full, 68, 4) == config.secure_erase_sector_alignment
            &&& number(full, 72, 4) == config.zone_sectors
            &&& number(full, 76, 4) == config.max_open_zones
            &&& number(full, 80, 4) == config.max_active_zones
            &&& number(full, 84, 4) == config.max_append_sectors
            &&& number(full, 88, 4) == config.write_granularity
            &&& full[92] == config.model
            &&& full[93] == 0 && full[94] == 0 && full[95] == 0
        }),
{
    let full = config_space(base, Some(config));
    let b = config.bytes();
    lemma_fields(config);
    assert forall|o: int| 0 <= o < 29 implies number(full, 60 + o, 4) == #[trigger] u32_at(b, o) by {
        lemma_number(full, 60 + o);
        assert(full[60 + o] == b[o] && full[60 + o + 1] == b[o + 1] && full[60 + o + 2] == b[o + 2]
            && full[60 + o + 3] == b[o + 3]);
    }
    assert(number(full, 60, 4) == u32_at(b, 0));
    assert(number(full, 64, 4) == u32_at(b, 4));
    assert(number(full, 68, 4) == u32_at(b, 8));
    assert(number(full, 72, 4) == u32_at(b, 12));
    assert(number(full, 76, 4) == u32_at(b, 16));
    assert(number(full, 80, 4) == u32_at(b, 20));
    assert(number(full, 84, 4) == u32_at(b, 24));
    assert(number(full, 88, 4) == u32_at(b, 28));
}

/// What becomes of a disk. One without zones is no zoned disk, a host-aware one
/// is exposed whatever its geometry, and an unknown model is refused. A
/// host-managed disk is exposed exactly when its zone size is a power of two
/// and neither its append limit nor its write granularity is zero; otherwise
/// the first of these that fails is named.
pub proof fn law_which_disks_are_exposed(c: VirtioBlockZonedConfig)
    ensures
        c.model == 0 <==> c.verdict() == Ok::<ZonedExposure, ZonedError>(ZonedExposure::ModelNone),
        c.model == 2 ==> c.verdict() == Ok::<ZonedExposure, ZonedError>(ZonedExposure::Expose),
        c.model > 2 ==> c.verdict() == Err::<ZonedExposure, ZonedError>(
            ZonedError::UnknownModel(c.model),
        ),
        c.model == 1 ==> {
            let pow2 = exists|k: nat|
                c.zone_sectors == #[trigger] vstd::arithmetic::power2::pow2(k);
            &&& c.verdict() == Ok::<ZonedExposure, ZonedError>(ZonedExposure::Expose) <==> pow2
                && c.max_append_sectors != 0 && c.write_granularity != 0
            &&& c.zone_sectors == 0 <==> c.verdict() == Err::<ZonedExposure, ZonedError>(
                ZonedError::ZeroZoneSectors,
            )
            &&& c.zone_sectors != 0 && !pow2 <==> c.verdict() == Err::<ZonedExposure, ZonedError>(
                ZonedError::UnalignedZoneSectors(c.zone_sectors),
            )
            &&& pow2 && c.max_append_sectors == 0 <==> c.verdict() == Err::<
                ZonedExposure,
                ZonedError,
            >(ZonedError::ZeroMaxAppendSectors)
            &&& pow2 && c.max_append_sectors != 0 && c.write_granularity == 0 <==> c.verdict()
                == Err::<ZonedExposure, ZonedError>(ZonedError::ZeroWriteGranularity)
        },
{
    assert forall|k: nat| 0 < #[trigger] vstd::arithmetic::power2::pow2(k) by {
        vstd::arithmetic::power2::lemma_pow2_pos(k);
    }
}

/// The feature is bit 17, and withholding it leaves every other bit as it was.
pub proof fn law_zoned_bit(features: u64, exposure: ZonedExposure, bit: u64)
    requires
        bit < 64,
    ensures
        has_zoned(features) <==> (features / 131072) % 2 == 1,
        gated(features, exposure) & (1u64 << bit) != 0 <==> features & (1u64 << bit) != 0 && (bit
            != 17 || exposure == ZonedExposure::Expose),
{
    assert(features & (1u64 << 17) != 0 <==> (features / 131072) % 2 == 1) by (bit_vector);
    assert(bit < 64 && bit != 17 ==> (features & !(1u64 << 17)) & (1u64 << bit) == features & (1u64
        << bit)) by (bit_vector);
    assert((features & !(1u64 << 17)) & (1u64 << 17) == 0) by (bit_vector);
}

} // verus!
