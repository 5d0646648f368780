//! A vhost-user block device: what it offers, what it exposes to the guest and
//! what it keeps across a snapshot.
//!
//! Talking to the backend is left to the caller; this module decides what to
//! ask for and what to make of the answers.

use crate::zoned::{
    self, assemble_config_space, check_restore_compat, config_space_len, gate_features,
    zoned_negotiated, VirtioBlockZonedConfig, ZonedError, ZonedExposure,
};
use vstd::prelude::*;
use vstd::slice::slice_subrange;

verus! {

/// Queues of a backend that does not say how many it has.
pub const DEFAULT_QUEUE_NUMBER: usize = 1;

/// Feature bits of virtio-blk that are offered to every backend: segment
/// limits, geometry, read-only, block size, flush, topology, writeback control,
/// discard, write-zeroes and zones. Zones are offered unconditionally:
/// negotiation clears the bit again for any backend that does not support them,
/// and it is withdrawn from the guest-facing feature set unless the backend is
/// actually serving a zoned disk.
pub const OFFERED_BLK_FEATURES: u64 = (1u64 << 1) | (1u64 << 2) | (1u64 << 4) | (1u64 << 5) | (1u64
    << 6) | (1u64 << 9) | (1u64 << 10) | (1u64 << 11) | (1u64 << 13) | (1u64 << 14) | (1u64 << 17);

/// Feature bit: several request queues.
pub const VIRTIO_BLK_F_MQ: u64 = 12;

/// Feature bit: the device sits behind an IOMMU.
pub const VIRTIO_F_ACCESS_PLATFORM: u64 = 33;

/// The vhost-user feature that enables protocol feature negotiation.
pub const VHOST_USER_F_PROTOCOL_FEATURES: u64 = 0x4000_0000;

/// The protocol feature under which a backend reports its number of queues.
pub const VHOST_USER_PROTOCOL_F_MQ: u64 = 1;

/// Offset of the `writeback` field in the configuration space.
pub const WRITEBACK_OFFSET: u64 = 32;

/// Why a block device cannot be set up.
#[derive(Debug, Copy, Clone, PartialEq, Eq, Structural)]
pub enum BlkError {
    /// More queues were asked for than the backend supports.
    BadQueueNum,
    /// The backend's zoned configuration is unusable.
    ZonedConfig(ZonedError),
}

/// The base configuration space, as exposed by every block device.
#[derive(Copy, Clone, Debug, PartialEq, Eq, Structural)]
pub struct VirtioBlockConfig {
    /// Device size, in 512-byte sectors.
    pub capacity: u64,
    /// Largest segment, in bytes.
    pub size_max: u32,
    /// Most segments in a request.
    pub seg_max: u32,
    /// Geometry: cylinders.
    pub cylinders: u16,
    /// Geometry: heads.
    pub heads: u8,
    /// Geometry: sectors.
    pub sectors: u8,
    /// Block size, in bytes.
    pub blk_size: u32,
    /// Logical blocks per physical block, as a power of two.
    pub physical_block_exp: u8,
    /// Offset of the first aligned logical block.
    pub alignment_offset: u8,
    /// Suggested minimum I/O size, in blocks.
    pub min_io_size: u16,
    /// Optimal I/O size, in blocks.
    pub opt_io_size: u32,
    /// Cache mode; the only field that the guest may write.
    pub writeback: u8,
    /// Reserved.
    pub unused: u8,
    /// Number of request queues.
    pub num_queues: u16,
    /// Most sectors in a discard segment.
    pub max_discard_sectors: u32,
    /// Most segments in a discard.
    pub max_discard_seg: u32,
    /// Alignment of discards, in sectors.
    pub discard_sector_alignment: u32,
    /// Most sectors in a write-zeroes segment.
    pub max_write_zeroes_sectors: u32,
    /// Most segments in a write-zeroes.
    pub max_write_zeroes_seg: u32,
    /// Whether a write-zeroes may unmap.
    pub write_zeroes_may_unmap: u8,
    /// Reserved.
    pub unused1: u8,
    /// Reserved.
    pub unused2: u8,
    /// Reserved.
    pub unused3: u8,
}

impl Default for VirtioBlockConfig {
    fn default() -> (r: Self)
        ensures
            r == VirtioBlockConfig::zero(),
    {
        VirtioBlockConfig {
            capacity: 0,
            size_max: 0,
            seg_max: 0,
            cylinders: 0,
            heads: 0,
            sectors: 0,
            blk_size: 0,
            physical_block_exp: 0,
            alignment_offset: 0,
            min_io_size: 0,
            opt_io_size: 0,
            writeback: 0,
            unused: 0,
            num_queues: 0,
            max_discard_sectors: 0,
            max_discard_seg: 0,
            discard_sector_alignment: 0,
            max_write_zeroes_sectors: 0,
            max_write_zeroes_seg: 0,
            write_zeroes_may_unmap: 0,
            unused1: 0,
            unused2: 0,
            unused3: 0,
        }
    }
}

/// The little-endian bytes of `value`.
pub open spec fn le_u16(value: u16) -> Seq<u8> {
    seq![(value % 256) as u8, (value / 256) as u8]
}

/// The little-endian bytes of `value`.
pub open spec fn le_u64(value: u64) -> Seq<u8> {
    zoned::le_u32((value % 0x1_0000_0000) as u32) + zoned::le_u32(
        (value / 0x1_0000_0000) as u32,
    )
}

/// The number whose little-endian bytes stand at `offset`.
pub open spec fn u16_at(buf: Seq<u8>, offset: int) -> u16 {
    (buf[offset] + 256 * buf[offset + 1]) as u16
}

/// The number whose little-endian bytes stand at `offset`.
pub open spec fn u64_at(buf: Seq<u8>, offset: int) -> u64 {
    (zoned::u32_at(buf, offset) + 0x1_0000_0000 * zoned::u32_at(buf, offset + 4)) as u64
}

fn read_le_u16(buf: &[u8], offset: usize) -> (r: u16)
    requires
        offset + 2 <= buf@.len(),
    ensures
        r == u16_at(buf@, offset as int),
{
    buf[offset] as u16 + 256 * buf[offset + 1] as u16
}

fn read_le_u64(buf: &[u8], offset: usize) -> (r: u64)
    requires
        offset + 8 <= buf@.len(),
    ensures
        r == u64_at(buf@, offset as int),
{
    assert(buf.len() >= offset + 8);
    zoned::read_le_u32(buf, offset) as u64 + 0x1_0000_0000 * zoned::read_le_u32(
        buf,
        offset + 4,
    ) as u64
}

fn put_u16(out: &mut Vec<u8>, value: u16)
    ensures
        final(out)@ == old(out)@ + le_u16(value),
{
    out.push((value % 256) as u8);
    out.push((value / 256) as u8);
    assert(out@ =~= old(out)@ + le_u16(value));
}

fn put_u32(out: &mut Vec<u8>, value: u32)
    ensures
        final(out)@ == old(out)@ + zoned::le_u32(value),
{
    out.push((value % 256) as u8);
    out.push((value / 256 % 256) as u8);
    out.push((value / 65536 % 256) as u8);
    out.push((value / 16777216) as u8);
    assert(out@ =~= old(out)@ + zoned::le_u32(value));
}

fn put_u64(out: &mut Vec<u8>, value: u64)
    ensures
        final(out)@ == old(out)@ + le_u64(value),
{
    put_u32(out, (value % 0x1_0000_0000) as u32);
    put_u32(out, (value / 0x1_0000_0000) as u32);
    assert(out@ =~= old(out)@ + le_u64(value));
}

impl VirtioBlockConfig {
    /// The configuration with every field zero.
    pub open spec fn zero() -> Self {
        VirtioBlockConfig {
            capacity: 0,
            size_max: 0,
            seg_max: 0,
            cylinders: 0,
            heads: 0,
            sectors: 0,
            blk_size: 0,
            physical_block_exp: 0,
            alignment_offset: 0,
            min_io_size: 0,
            opt_io_size: 0,
            writeback: 0,
            unused: 0,
            num_queues: 0,
            max_discard_sectors: 0,
            max_discard_seg: 0,
            discard_sector_alignment: 0,
            max_write_zeroes_sectors: 0,
            max_write_zeroes_seg: 0,
            write_zeroes_may_unmap: 0,
            unused1: 0,
            unused2: 0,
            unused3: 0,
        }
    }

    /// The configuration space: the fields in order, without padding.
    pub open spec fn bytes(self) -> Seq<u8> {
        self.head_bytes() + self.middle_bytes() + self.limits_bytes()
    }

    /// The fields up to the block size.
    pub open spec fn head_bytes(self) -> Seq<u8> {
        le_u64(self.capacity) + zoned::le_u32(self.size_max) + zoned::le_u32(self.seg_max)
            + le_u16(self.cylinders) + seq![self.heads] + seq![self.sectors]
            + zoned::le_u32(self.blk_size)
    }

    /// The fields from the topology to the number of queues.
    pub open spec fn middle_bytes(self) -> Seq<u8> {
        seq![self.physical_block_exp] + seq![self.alignment_offset] + le_u16(self.min_io_size)
            + zoned::le_u32(self.opt_io_size) + seq![self.writeback] + seq![self.unused]
            + le_u16(self.num_queues)
    }

    /// The fields on discarding and writing zeroes, and what is reserved.
    pub open spec fn limits_bytes(self) -> Seq<u8> {
        zoned::le_u32(self.max_discard_sectors) + zoned::le_u32(self.max_discard_seg)
            + zoned::le_u32(self.discard_sector_alignment) + zoned::le_u32(
            self.max_write_zeroes_sectors,
        ) + zoned::le_u32(self.max_write_zeroes_seg) + seq![self.write_zeroes_may_unmap] + seq![
            self.unused1,
        ] + seq![self.unused2] + seq![self.unused3]
    }

    /// The fields that a configuration space of the right length holds.
    pub open spec fn parsed(b: Seq<u8>) -> Self {
        VirtioBlockConfig {
            capacity: u64_at(b, 0),
            size_max: zoned::u32_at(b, 8),
            seg_max: zoned::u32_at(b, 12),
            cylinders: u16_at(b, 16),
            heads: b[18],
            sectors: b[19],
            blk_size: zoned::u32_at(b, 20),
            physical_block_exp: b[24],
            alignment_offset: b[25],
            min_io_size: u16_at(b, 26),
            opt_io_size: zoned::u32_at(b, 28),
            writeback: b[32],
            unused: b[33],
            num_queues: u16_at(b, 34),
            max_discard_sectors: zoned::u32_at(b, 36),
            max_discard_seg: zoned::u32_at(b, 40),
            discard_sector_alignment: zoned::u32_at(b, 44),
            max_write_zeroes_sectors: zoned::u32_at(b, 48),
            max_write_zeroes_seg: zoned::u32_at(b, 52),
            write_zeroes_may_unmap: b[56],
            unused1: b[57],
            unused2: b[58],
            unused3: b[59],
        }
    }

    /// Parse a base configuration space.
    pub fn from_slice(b: &[u8]) -> (r: Option<Self>)
        ensures
            r == if b@.len() == 60 {
                Some(Self::parsed(b@))
            } else {
                None
            },
    {
        if b.len() != zoned::VIRTIO_BLK_CONFIG_BASE_LEN {
            return None;
        }
        Some(VirtioBlockConfig {
            capacity: read_le_u64(b, 0),
            size_max: zoned::read_le_u32(b, 8),
            seg_max: zoned::read_le_u32(b, 12),
            cylinders: read_le_u16(b, 16),
            heads: b[18],
            sectors: b[19],
            blk_size: zoned::read_le_u32(b, 20),
            physical_block_exp: b[24],
            alignment_offset: b[25],
            min_io_size: read_le_u16(b, 26),
            opt_io_size: zoned::read_le_u32(b, 28),
            writeback: b[32],
            unused: b[33],
            num_queues: read_le_u16(b, 34),
            max_discard_sectors: zoned::read_le_u32(b, 36),
            max_discard_seg: zoned::read_le_u32(b, 40),
            discard_sector_alignment: zoned::read_le_u32(b, 44),
            max_write_zeroes_sectors: zoned::read_le_u32(b, 48),
            max_write_zeroes_seg: zoned::read_le_u32(b, 52),
            write_zeroes_may_unmap: b[56],
            unused1: b[57],
            unused2: b[58],
            unused3: b[59],
        })
    }

    /// Serialise to the little-endian configuration space.
    pub fn to_vec(&self) -> (r: Vec<u8>)
        ensures
            r@ == self.bytes(),
    {
        let mut out: Vec<u8> = Vec::new();
        put_u64(&mut out, self.capacity);
        put_u32(&mut out, self.size_max);
        put_u32(&mut out, self.seg_max);
        put_u16(&mut out, self.cylinders);
        out.push(self.heads);
        out.push(self.sectors);
        put_u32(&mut out, self.blk_size);
        assert(out@ =~= self.head_bytes());
        let ghost head = out@;
        out.push(self.physical_block_exp);
        out.push(self.alignment_offset);
        put_u16(&mut out, self.min_io_size);
        put_u32(&mut out, self.opt_io_size);
        out.push(self.writeback);
        out.push(self.unused);
        put_u16(&mut out, self.num_queues);
        assert(out@ =~= head + self.middle_bytes());
        let ghost upper = out@;
        put_u32(&mut out, self.max_discard_sectors);
        put_u32(&mut out, self.max_discard_seg);
        put_u32(&mut out, self.discard_sector_alignment);
        put_u32(&mut out, self.max_write_zeroes_sectors);
        put_u32(&mut out, self.max_write_zeroes_seg);
        out.push(self.write_zeroes_may_unmap);
        out.push(self.unused1);
        out.push(self.unused2);
        out.push(self.unused3);
        assert(out@ =~= upper + self.limits_bytes());
        out
    }
}

/// Snapshot representation of a vhost-user-blk device's configuration space.
#[derive(Copy, Clone, Debug, PartialEq, Eq, Structural)]
pub struct BlkConfigState {
    /// The base configuration space, as exposed by every block device.
    pub base: VirtioBlockConfig,
    /// The zoned configuration-space tail, present only for a device that
    /// exposes `VIRTIO_BLK_F_ZONED` to the guest.
    pub zoned: Option<VirtioBlockZonedConfig>,
}

/// What a device keeps across a snapshot.
#[derive(Copy, Clone, Debug, PartialEq, Eq, Structural)]
pub struct State {
    pub avail_features: u64,
    pub acked_features: u64,
    pub acked_protocol_features: u64,
    pub vu_num_queues: usize,
    pub config: BlkConfigState,
}

/// The features that are offered to a backend: those of virtio-blk, those of
/// the ring (`ring_features`), and several queues if there are.
pub open spec fn offered(num_queues: usize, ring_features: u64) -> u64 {
    let base = OFFERED_BLK_FEATURES | ring_features;
    if num_queues > 1 {
        base | (1u64 << 12)
    } else {
        base
    }
}

/// The feature set to negotiate with a backend.
pub fn offered_features(num_queues: usize, ring_features: u64) -> (r: u64)
    ensures
        r == offered(num_queues, ring_features),
{
    let base: u64 = OFFERED_BLK_FEATURES | ring_features;
    if num_queues > 1 {
        base | (1u64 << VIRTIO_BLK_F_MQ)
    } else {
        base
    }
}

/// Whether the backend is to be asked for its number of queues.
pub fn reports_queue_count(acked_protocol_features: u64) -> (r: bool)
    ensures
        r == (acked_protocol_features & VHOST_USER_PROTOCOL_F_MQ != 0),
{
    acked_protocol_features & VHOST_USER_PROTOCOL_F_MQ != 0
}

/// Check that the backend has as many queues as are asked for. One that does
/// not report a number has one.
pub fn check_queue_count(num_queues: usize, reported: Option<usize>) -> (r: Result<(), BlkError>)
    ensures
        r == if num_queues > (match reported {
            Some(n) => n,
            None => 1,
        }) {
            Err::<(), BlkError>(BlkError::BadQueueNum)
        } else {
            Ok(())
        },
{
    let limit: usize = match reported {
        Some(n) => n,
        None => DEFAULT_QUEUE_NUMBER,
    };
    if num_queues > limit {
        Err(BlkError::BadQueueNum)
    } else {
        Ok(())
    }
}

/// Bytes of configuration space to ask a backend for. The longer, zoned
/// configuration space is asked for only when the backend advertised
/// `VIRTIO_BLK_F_ZONED`: a reply must match the requested length exactly.
pub fn requested_config_len(acked_features: u64) -> (r: usize)
    ensures
        r == if zoned::has_zoned(acked_features) {
            96int
        } else {
            60
        },
{
    config_space_len(zoned_negotiated(acked_features))
}

/// What a backend's configuration space says about zones.
pub open spec fn zoned_outcome(acked_features: u64, config_space: Seq<u8>) -> Result<
    (Option<VirtioBlockZonedConfig>, ZonedExposure),
    BlkError,
> {
    if !zoned::has_zoned(acked_features) {
        Ok((None, ZonedExposure::NotAdvertised))
    } else if config_space.len() != 96 {
        Err(
            BlkError::ZonedConfig(
                ZonedError::TailLength { expected: 36, got: (config_space.len() - 60) as usize },
            ),
        )
    } else {
        let tail = VirtioBlockZonedConfig::parsed(config_space.skip(60));
        match tail.verdict() {
            Err(e) => Err(BlkError::ZonedConfig(e)),
            Ok(exposure) => Ok(
                (
                    if exposure is Expose {
                        Some(tail)
                    } else {
                        None
                    },
                    exposure,
                ),
            ),
        }
    }
}

/// A vhost-user block device.
#[derive(Copy, Clone, Debug, PartialEq, Eq, Structural)]
pub struct Blk {
    /// Features offered to the guest.
    pub avail_features: u64,
    /// Features that the guest, or the negotiation on its behalf, has acked.
    pub acked_features: u64,
    pub acked_protocol_features: u64,
    pub vu_num_queues: usize,
    pub config: VirtioBlockConfig,
    /// Zoned characteristics, present only when `VIRTIO_BLK_F_ZONED` is
    /// exposed to the guest. Kept separate from `config` so that the
    /// guest-visible configuration space of non-zoned devices is unchanged.
    pub zoned: Option<VirtioBlockZonedConfig>,
    /// Whether the device starts paused.
    pub paused: bool,
    pub access_platform_enabled: bool,
}

impl Blk {
    /// Whether the zoned tail is there exactly when the guest is offered the
    /// feature.
    pub open spec fn consistent(self) -> bool {
        self.zoned is Some == zoned::has_zoned(self.avail_features)
    }

    /// What the device keeps across a snapshot.
    pub open spec fn saved(self) -> State {
        State {
            avail_features: self.avail_features,
            acked_features: self.acked_features,
            acked_protocol_features: self.acked_protocol_features,
            vu_num_queues: self.vu_num_queues,
            config: BlkConfigState { base: self.config, zoned: self.zoned },
        }
    }

    /// The device that a snapshot stands for.
    pub open spec fn restored(state: State, access_platform_enabled: bool) -> Blk {
        Blk {
            avail_features: state.avail_features,
            acked_features: state.acked_features,
            acked_protocol_features: state.acked_protocol_features,
            vu_num_queues: state.vu_num_queues,
            config: state.config.base,
            zoned: state.config.zoned,
            paused: true,
            access_platform_enabled,
        }
    }

    /// The device that a negotiation and a configuration space make, if they
    /// make one.
    pub open spec fn built(
        num_queues: usize,
        acked_features: u64,
        acked_protocol_features: u64,
        config_space: Seq<u8>,
        access_platform_enabled: bool,
    ) -> Result<Blk, BlkError> {
        match zoned_outcome(acked_features, config_space) {
            Err(e) => Err(e),
            Ok((tail, exposure)) => Ok(
                Blk {
                    avail_features: zoned::gated(acked_features, exposure),
                    acked_features: acked_features & VHOST_USER_F_PROTOCOL_FEATURES,
                    acked_protocol_features,
                    vu_num_queues: num_queues,
                    config: VirtioBlockConfig {
                        num_queues: num_queues as u16,
                        ..VirtioBlockConfig::parsed(config_space.take(60))
                    },
                    zoned: tail,
                    paused: false,
                    access_platform_enabled,
                },
            ),
        }
    }

    /// The features that the guest sees.
    pub open spec fn seen_features(self) -> u64 {
        if self.access_platform_enabled {
            self.avail_features | (1u64 << 33)
        } else {
            self.avail_features
        }
    }

    /// The device once the guest has acked `value`.
    pub open spec fn acking(self, value: u64) -> Blk {
        Blk { acked_features: self.acked_features | (value & self.avail_features), ..self }
    }

    /// The device once the guest has written `data` at `offset`.
    pub open spec fn written(self, offset: u64, data: Seq<u8>) -> Blk {
        if offset == 32 && data.len() == 1 {
            Blk { config: VirtioBlockConfig { writeback: data[0], ..self.config }, ..self }
        } else {
            self
        }
    }

    /// The features that a backend must have for the device.
    pub open spec fn needed_features(self, required: u64) -> u64 {
        if self.zoned is Some {
            required | (1u64 << 17)
        } else {
            required
        }
    }

    /// The configuration space that the guest reads.
    pub open spec fn guest_config(self) -> Seq<u8> {
        zoned::config_space(self.config.bytes(), self.zoned)
    }

    /// Create a device from what was negotiated with the backend and the
    /// configuration space it returned.
    pub fn new(
        num_queues: usize,
        acked_features: u64,
        acked_protocol_features: u64,
        config_space: &[u8],
        access_platform_enabled: bool,
    ) -> (r: Result<Blk, BlkError>)
        requires
            config_space@.len() >= 60,
        ensures
            r == Blk::built(
                num_queues,
                acked_features,
                acked_protocol_features,
                config_space@,
                access_platform_enabled,
            ),
            r matches Ok(device) ==> device.consistent(),
    {
        let base: &[u8] = slice_subrange(config_space, 0, zoned::VIRTIO_BLK_CONFIG_BASE_LEN);
        assert(base@ =~= config_space@.take(60));
        let mut config: VirtioBlockConfig = VirtioBlockConfig::default();
        match VirtioBlockConfig::from_slice(base) {
            Some(backend_config) => {
                config = backend_config;
                config.num_queues = num_queues as u16;
            },
            None => {},
        }
        // A backend that advertises the feature may still be serving a
        // conventional disk, in which case the feature is withdrawn rather
        // than failing the device.
        let mut tail: Option<VirtioBlockZonedConfig> = None;
        let mut exposure: ZonedExposure = ZonedExposure::NotAdvertised;
        if zoned_negotiated(acked_features) {
            let rest: &[u8] = slice_subrange(
                config_space,
                zoned::VIRTIO_BLK_CONFIG_BASE_LEN,
                config_space.len(),
            );
            assert(rest@ =~= config_space@.skip(60));
            let parsed: VirtioBlockZonedConfig = match VirtioBlockZonedConfig::from_le_bytes(rest) {
                Ok(parsed) => parsed,
                Err(e) => return Err(BlkError::ZonedConfig(e)),
            };
            exposure = match parsed.validate() {
                Ok(exposure) => exposure,
                Err(e) => return Err(BlkError::ZonedConfig(e)),
            };
            if exposure.is_exposed() {
                tail = Some(parsed);
            }
        }
        proof {
            law_zones_are_exposed_consistently(acked_features, tail, exposure, config_space@, 0);
        }
        Ok(
            Blk {
                // Withhold VIRTIO_BLK_F_ZONED from the guest unless the backend
                // is actually serving a zoned disk. Because ack_features()
                // masks the guest's acknowledgement against this set, a
                // withheld feature can never reach the backend either.
                avail_features: gate_features(acked_features, exposure),
                // The guest would never ack the PROTOCOL_FEATURES bit, so it is
                // set on its behalf if the negotiation acked it.
                acked_features: acked_features & VHOST_USER_F_PROTOCOL_FEATURES,
                acked_protocol_features,
                vu_num_queues: num_queues,
                config,
                zoned: tail,
                paused: false,
                access_platform_enabled,
            },
        )
    }

    /// Restore a device from its snapshot onto a backend with
    /// `backend_features`. The device starts paused.
    ///
    /// The restore is refused outright if the guest was using a zoned device
    /// and this backend cannot serve one: the guest holds zone state and will
    /// keep issuing zone-management commands, and a negotiated feature cannot
    /// be withdrawn from a running guest.
    pub fn restore(state: &State, backend_features: u64, access_platform_enabled: bool) -> (r: Result<
        Blk,
        BlkError,
    >)
        ensures
            r == if zoned::has_zoned(state.avail_features) && !zoned::has_zoned(backend_features) {
                Err::<Blk, BlkError>(BlkError::ZonedConfig(ZonedError::RestoreBackendNotZoned))
            } else {
                Ok(Blk::restored(*state, access_platform_enabled))
            },
    {
        match check_restore_compat(state.avail_features, backend_features) {
            Err(e) => Err(BlkError::ZonedConfig(e)),
            Ok(()) => Ok(
                Blk {
                    avail_features: state.avail_features,
                    acked_features: state.acked_features,
                    acked_protocol_features: state.acked_protocol_features,
                    vu_num_queues: state.vu_num_queues,
                    config: state.config.base,
                    zoned: state.config.zoned,
                    paused: true,
                    access_platform_enabled,
                },
            ),
        }
    }

    /// What the device keeps across a snapshot.
    pub fn state(&self) -> (r: State)
        ensures
            r == self.saved(),
    {
        State {
            avail_features: self.avail_features,
            acked_features: self.acked_features,
            acked_protocol_features: self.acked_protocol_features,
            vu_num_queues: self.vu_num_queues,
            config: BlkConfigState { base: self.config, zoned: self.zoned },
        }
    }

    /// The features that the guest sees.
    pub fn features(&self) -> (r: u64)
        ensures
            r == if self.access_platform_enabled {
                self.avail_features | (1u64 << 33)
            } else {
                self.avail_features
            },
            r == self.seen_features(),
    {
        if self.access_platform_enabled {
            self.avail_features | (1u64 << VIRTIO_F_ACCESS_PLATFORM)
        } else {
            self.avail_features
        }
    }

    /// Take the guest's acknowledgement, masked against what it was offered.
    pub fn ack_features(&mut self, value: u64)
        ensures
            *final(self) == (Blk {
                acked_features: old(self).acked_features | (value & old(self).avail_features),
                ..*old(self)
            }),
            *final(self) == old(self).acking(value),
    {
        self.acked_features = self.acked_features | (value & self.avail_features);
    }

    /// The configuration space that the guest reads. A non-zoned device yields
    /// the base configuration space unchanged.
    pub fn config_space(&self) -> (r: Vec<u8>)
        ensures
            r@ == zoned::config_space(self.config.bytes(), self.zoned),
            r@ == self.guest_config(),
    {
        let base: Vec<u8> = self.config.to_vec();
        let tail: Option<&VirtioBlockZonedConfig> = match &self.zoned {
            Some(tail) => Some(tail),
            None => None,
        };
        assemble_config_space(base.as_slice(), tail)
    }

    /// Take a guest write to the configuration space. Only the writeback field
    /// is mutable; returns whether the write was taken, and is to be passed on
    /// to the backend.
    pub fn write_config(&mut self, offset: u64, data: &[u8]) -> (r: bool)
        ensures
            r == (offset == 32 && data@.len() == 1),
            *final(self) == if offset == 32 && data@.len() == 1 {
                Blk {
                    config: VirtioBlockConfig { writeback: data@[0], ..old(self).config },
                    ..*old(self)
                }
            } else {
                *old(self)
            },
            *final(self) == old(self).written(offset, data@),
    {
        if offset != WRITEBACK_OFFSET || data.len() != 1 {
            return false;
        }
        self.config.writeback = data[0];
        true
    }

    /// The features that a reconnected backend must still advertise, besides
    /// `required`. One that no longer offers `VIRTIO_BLK_F_ZONED` cannot serve
    /// a guest that is already driving zones.
    pub fn required_backend_features(&self, required: u64) -> (r: u64)
        ensures
            r == if self.zoned is Some {
                required | (1u64 << 17)
            } else {
                required
            },
            r == self.needed_features(required),
    {
        if self.zoned.is_some() {
            required | (1u64 << zoned::VIRTIO_BLK_F_ZONED)
        } else {
            required
        }
    }
}

proof fn lemma_u16_at(b: Seq<u8>, o: int, value: u16)
    requires
        0 <= o <= b.len() - 2,
        b.subrange(o, o + 2) == le_u16(value),
    ensures
        u16_at(b, o) == value,
{
    let part = b.subrange(o, o + 2);
    assert(part[0] == b[o] && part[1] == b[o + 1]);
}

proof fn lemma_u64_at(b: Seq<u8>, o: int, value: u64)
    requires
        0 <= o <= b.len() - 8,
        b.subrange(o, o + 8) == le_u64(value),
    ensures
        u64_at(b, o) == value,
{
    let part = b.subrange(o, o + 8);
    assert(b.subrange(o, o + 4) =~= part.subrange(0, 4));
    assert(part.subrange(0, 4) =~= zoned::le_u32((value % 0x1_0000_0000) as u32));
    assert(b.subrange(o + 4, o + 8) =~= part.subrange(4, 8));
    assert(part.subrange(4, 8) =~= zoned::le_u32((value / 0x1_0000_0000) as u32));
    zoned::lemma_u32_at(b, o, (value % 0x1_0000_0000) as u32);
    zoned::lemma_u32_at(b, o + 4, (value / 0x1_0000_0000) as u32);
}

proof fn lemma_head_fields(config: VirtioBlockConfig)
    ensures
        ({
            let b = config.head_bytes();
            &&& b.len() == 24
            &&& u64_at(b, 0) == config.capacity
            &&& zoned::u32_at(b, 8) == config.size_max
            &&& zoned::u32_at(b, 12) == config.seg_max
            &&& u16_at(b, 16) == config.cylinders
            &&& b[18] == config.heads
            &&& b[19] == config.sectors
            &&& zoned::u32_at(b, 20) == config.blk_size
        }),
{
    let b = config.head_bytes();
    assert(u64_at(b, 0) == config.capacity) by {
        assert(b.subrange(0, 8) =~= le_u64(config.capacity));
        lemma_u64_at(b, 0, config.capacity);
    }
    assert(zoned::u32_at(b, 8) == config.size_max) by {
        assert(b.subrange(8, 12) =~= zoned::le_u32(config.size_max));
        zoned::lemma_u32_at(b, 8, config.size_max);
    }
    assert(zoned::u32_at(b, 12) == config.seg_max) by {
        assert(b.subrange(12, 16) =~= zoned::le_u32(config.seg_max));
        zoned::lemma_u32_at(b, 12, config.seg_max);
    }
    assert(u16_at(b, 16) == config.cylinders) by {
        assert(b.subrange(16, 18) =~= le_u16(config.cylinders));
        lemma_u16_at(b, 16, config.cylinders);
    }
    assert(zoned::u32_at(b, 20) == config.blk_size) by {
        assert(b.subrange(20, 24) =~= zoned::le_u32(config.blk_size));
        zoned::lemma_u32_at(b, 20, config.blk_size);
    }
}

proof fn lemma_middle_fields(config: VirtioBlockConfig)
    ensures
        ({
            let b = config.middle_bytes();
            &&& b.len() == 12
            &&& b[0] == config.physical_block_exp
            &&& b[1] == config.alignment_offset
            &&& u16_at(b, 2) == config.min_io_size
            &&& zoned::u32_at(b, 4) == config.opt_io_size
            &&& b[8] == config.writeback
            &&& b[9] == config.unused
            &&& u16_at(b, 10) == config.num_queues
        }),
{
    let b = config.middle_bytes();
    assert(u16_at(b, 2) == config.min_io_size) by {
        assert(b.subrange(2, 4) =~= le_u16(config.min_io_size));
        lemma_u16_at(b, 2, config.min_io_size);
    }
    assert(zoned::u32_at(b, 4) == config.opt_io_size) by {
        assert(b.subrange(4, 8) =~= zoned::le_u32(config.opt_io_size));
        zoned::lemma_u32_at(b, 4, config.opt_io_size);
    }
    assert(u16_at(b, 10) == config.num_queues) by {
        assert(b.subrange(10, 12) =~= le_u16(config.num_queues));
        lemma_u16_at(b, 10, config.num_queues);
    }
}

proof fn lemma_limits_fields(config: VirtioBlockConfig)
    ensures
        ({
            let b = config.limits_bytes();
            &&& b.len() == 24
            &&& zoned::u32_at(b, 0) == config.max_discard_sectors
            &&& zoned::u32_at(b, 4) == config.max_discard_seg
            &&& zoned::u32_at(b, 8) == config.discard_sector_alignment
            &&& zoned::u32_at(b, 12) == config.max_write_zeroes_sectors
            &&& zoned::u32_at(b, 16) == config.max_write_zeroes_seg
            &&& b[20] == config.write_zeroes_may_unmap
            &&& b[21] == config.unused1
            &&& b[22] == config.unused2
            &&& b[23] == config.unused3
        }),
{
    let b = config.limits_bytes();
    assert(zoned::u32_at(b, 0) == config.max_discard_sectors) by {
        assert(b.subrange(0, 4) =~= zoned::le_u32(config.max_discard_sectors));
        zoned::lemma_u32_at(b, 0, config.max_discard_sectors);
    }
    assert(zoned::u32_at(b, 4) == config.max_discard_seg) by {
        assert(b.subrange(4, 8) =~= zoned::le_u32(config.max_discard_seg));
        zoned::lemma_u32_at(b, 4, config.max_discard_seg);
    }
    assert(zoned::u32_at(b, 8) == config.discard_sector_alignment) by {
        assert(b.subrange(8, 12) =~= zoned::le_u32(config.discard_sector_alignment));
        zoned::lemma_u32_at(b, 8, config.discard_sector_alignment);
    }
    assert(zoned::u32_at(b, 12) == config.max_write_zeroes_sectors) by {
        assert(b.subrange(12, 16) =~= zoned::le_u32(config.max_write_zeroes_sectors));
        zoned::lemma_u32_at(b, 12, config.max_write_zeroes_sectors);
    }
    assert(zoned::u32_at(b, 16) == config.max_write_zeroes_seg) by {
        assert(b.subrange(16, 20) =~= zoned::le_u32(config.max_write_zeroes_seg));
        zoned::lemma_u32_at(b, 16, config.max_write_zeroes_seg);
    }
}

/// A number is the same where its bytes are the same.
proof fn lemma_same_bytes(whole: Seq<u8>, start: int, part: Seq<u8>, k: int)
    requires
        forall|j: int| 0 <= j < part.len() ==> whole[start + j] == #[trigger] part[j],
        0 <= k < part.len(),
    ensures
        whole[start + k] == part[k],
        k + 2 <= part.len() ==> u16_at(whole, start + k) == u16_at(part, k),
        k + 4 <= part.len() ==> zoned::u32_at(whole, start + k) == zoned::u32_at(part, k),
        k + 8 <= part.len() ==> u64_at(whole, start + k) == u64_at(part, k),
{
    assert(whole[start + k] == part[k]);
    if k + 2 <= part.len() {
        assert(whole[start + (k + 1)] == part[k + 1]);
    }
    if k + 4 <= part.len() {
        assert(whole[start + (k + 2)] == part[k + 2]);
        assert(whole[start + (k + 3)] == part[k + 3]);
    }
    if k + 8 <= part.len() {
        assert(whole[start + (k + 4)] == part[k + 4]);
        assert(whole[start + (k + 5)] == part[k + 5]);
        assert(whole[start + (k + 6)] == part[k + 6]);
        assert(whole[start + (k + 7)] == part[k + 7]);
    }
}

proof fn lemma_head_parsed(config: VirtioBlockConfig, b: Seq<u8>)
    requires
        forall|j: int| 0 <= j < config.head_bytes().len() ==> b[0 + j] == #[trigger] config.head_bytes()[j],
    ensures
        VirtioBlockConfig::parsed(b).capacity == config.capacity,
        VirtioBlockConfig::parsed(b).size_max == config.size_max,
        VirtioBlockConfig::parsed(b).seg_max == config.seg_max,
        VirtioBlockConfig::parsed(b).cylinders == config.cylinders,
        VirtioBlockConfig::parsed(b).heads == config.heads,
        VirtioBlockConfig::parsed(b).sectors == config.sectors,
        VirtioBlockConfig::parsed(b).blk_size == config.blk_size,
{
    let part = config.head_bytes();
    lemma_head_fields(config);
    lemma_same_bytes(b, 0, part, 0);
    lemma_same_bytes(b, 0, part, 8);
    lemma_same_bytes(b, 0, part, 12);
    lemma_same_bytes(b, 0, part, 16);
    lemma_same_bytes(b, 0, part, 18);
    lemma_same_bytes(b, 0, part, 19);
    lemma_same_bytes(b, 0, part, 20);
}

proof fn lemma_middle_parsed(config: VirtioBlockConfig, b: Seq<u8>)
    requires
        forall|j: int| 0 <= j < config.middle_bytes().len() ==> b[24 + j] == #[trigger] config.middle_bytes()[j],
    ensures
        VirtioBlockConfig::parsed(b).physical_block_exp == config.physical_block_exp,
        VirtioBlockConfig::parsed(b).alignment_offset == config.alignment_offset,
        VirtioBlockConfig::parsed(b).min_io_size == config.min_io_size,
        VirtioBlockConfig::parsed(b).opt_io_size == config.opt_io_size,
        VirtioBlockConfig::parsed(b).writeback == config.writeback,
        VirtioBlockConfig::parsed(b).unused == config.unused,
        VirtioBlockConfig::parsed(b).num_queues == config.num_queues,
{
    let part = config.middle_bytes();
    lemma_middle_fields(config);
    lemma_same_bytes(b, 24, part, 0);
    lemma_same_bytes(b, 24, part, 1);
    lemma_same_bytes(b, 24, part, 2);
    lemma_same_bytes(b, 24, part, 4);
    lemma_same_bytes(b, 24, part, 8);
    lemma_same_bytes(b, 24, part, 9);
    lemma_same_bytes(b, 24, part, 10);
}

proof fn lemma_limits_parsed(config: VirtioBlockConfig, b: Seq<u8>)
    requires
        forall|j: int| 0 <= j < config.limits_bytes().len() ==> b[36 + j] == #[trigger] config.limits_bytes()[j],
    ensures
        VirtioBlockConfig::parsed(b).max_discard_sectors == config.max_discard_sectors,
        VirtioBlockConfig::parsed(b).max_discard_seg == config.max_discard_seg,
        VirtioBlockConfig::parsed(b).discard_sector_alignment == config.discard_sector_alignment,
        VirtioBlockConfig::parsed(b).max_write_zeroes_sectors == config.max_write_zeroes_sectors,
        VirtioBlockConfig::parsed(b).max_write_zeroes_seg == config.max_write_zeroes_seg,
        VirtioBlockConfig::parsed(b).write_zeroes_may_unmap == config.write_zeroes_may_unmap,
        VirtioBlockConfig::parsed(b).unused1 == config.unused1,
        VirtioBlockConfig::parsed(b).unused2 == config.unused2,
        VirtioBlockConfig::parsed(b).unused3 == config.unused3,
{
    let part = config.limits_bytes();
    lemma_limits_fields(config);
    lemma_same_bytes(b, 36, part, 0);
    lemma_same_bytes(b, 36, part, 4);
    lemma_same_bytes(b, 36, part, 8);
    lemma_same_bytes(b, 36, part, 12);
    lemma_same_bytes(b, 36, part, 16);
    lemma_same_bytes(b, 36, part, 20);
    lemma_same_bytes(b, 36, part, 21);
    lemma_same_bytes(b, 36, part, 22);
    lemma_same_bytes(b, 36, part, 23);
}

/// Parsing the configuration space of a configuration gives it back.
#[verifier::spinoff_prover]
#[verifier::rlimit(40)]
pub proof fn law_base_round_trip(config: VirtioBlockConfig)
    ensures
        config.bytes().len() == 60,
        VirtioBlockConfig::parsed(config.bytes()) == config,
{
    let b = config.bytes();
    lemma_head_fields(config);
    lemma_middle_fields(config);
    lemma_limits_fields(config);
    assert forall|j: int| 0 <= j < 24 implies b[0 + j] == #[trigger] config.head_bytes()[j] by {}
    assert forall|j: int| 0 <= j < 12 implies b[24 + j] == #[trigger] config.middle_bytes()[j] by {}
    assert forall|j: int| 0 <= j < 24 implies b[36 + j] == #[trigger] config.limits_bytes()[j] by {}
    lemma_head_parsed(config, b);
    lemma_middle_parsed(config, b);
    lemma_limits_parsed(config, b);
}

/// The bytes of the number that stands at `o` are the bytes that stand there.
proof fn lemma_bytes_at(b: Seq<u8>, o: int)
    requires
        0 <= o < b.len(),
    ensures
        o + 2 <= b.len() ==> le_u16(u16_at(b, o)) == b.subrange(o, o + 2),
        o + 4 <= b.len() ==> zoned::le_u32(zoned::u32_at(b, o)) == b.subrange(o, o + 4),
        o + 8 <= b.len() ==> le_u64(u64_at(b, o)) == b.subrange(o, o + 8),
{
    if o + 2 <= b.len() {
        lemma_u16_bytes_at(b, o);
    }
    if o + 4 <= b.len() {
        zoned::lemma_u32_bytes_at(b, o);
    }
    if o + 8 <= b.len() {
        lemma_u64_bytes_at(b, o);
    }
}

proof fn lemma_u16_bytes_at(b: Seq<u8>, o: int)
    requires
        0 <= o <= b.len() - 2,
    ensures
        le_u16(u16_at(b, o)) == b.subrange(o, o + 2),
{
    let v = u16_at(b, o);
    assert(v == b[o] + 256 * b[o + 1]);
    assert(v % 256 == b[o]);
    assert(v / 256 == b[o + 1]);
    assert(le_u16(v) =~= b.subrange(o, o + 2));
}

proof fn lemma_u64_bytes_at(b: Seq<u8>, o: int)
    requires
        0 <= o <= b.len() - 8,
    ensures
        le_u64(u64_at(b, o)) == b.subrange(o, o + 8),
{
    let low = zoned::u32_at(b, o);
    let high = zoned::u32_at(b, o + 4);
    zoned::lemma_u32_bytes_at(b, o);
    zoned::lemma_u32_bytes_at(b, o + 4);
    lemma_halves(u64_at(b, o), low, high);
    assert(b.subrange(o, o + 8) =~= b.subrange(o, o + 4) + b.subrange(o + 4, o + 8));
}

proof fn lemma_halves(v: u64, low: u32, high: u32)
    requires
        v == low + 0x1_0000_0000 * high,
    ensures
        v % 0x1_0000_0000 == low,
        v / 0x1_0000_0000 == high,
{
}

#[verifier::spinoff_prover]
#[verifier::rlimit(40)]
proof fn lemma_head_back(b: Seq<u8>)
    requires
        b.len() == 60,
    ensures
        VirtioBlockConfig::parsed(b).head_bytes() == b.subrange(0, 24),
{
    lemma_bytes_at(b, 0);
    lemma_bytes_at(b, 8);
    lemma_bytes_at(b, 12);
    lemma_bytes_at(b, 16);
    lemma_bytes_at(b, 20);
    lemma_head_joined(
        b,
        le_u64(u64_at(b, 0)),
        zoned::le_u32(zoned::u32_at(b, 8)),
        zoned::le_u32(zoned::u32_at(b, 12)),
        le_u16(u16_at(b, 16)),
        zoned::le_u32(zoned::u32_at(b, 20)),
    );
}

proof fn lemma_head_joined(
    b: Seq<u8>,
    capacity: Seq<u8>,
    size_max: Seq<u8>,
    seg_max: Seq<u8>,
    cylinders: Seq<u8>,
    blk_size: Seq<u8>,
)
    requires
        b.len() == 60,
        capacity == b.subrange(0, 8),
        size_max == b.subrange(8, 12),
        seg_max == b.subrange(12, 16),
        cylinders == b.subrange(16, 18),
        blk_size == b.subrange(20, 24),
    ensures
        capacity + size_max + seg_max + cylinders + seq![b[18]] + seq![b[19]] + blk_size
            == b.subrange(0, 24),
{
    assert(capacity + size_max + seg_max + cylinders + seq![b[18]] + seq![b[19]] + blk_size
        =~= b.subrange(0, 24));
}

#[verifier::spinoff_prover]
#[verifier::rlimit(40)]
proof fn lemma_middle_back(b: Seq<u8>)
    requires
        b.len() == 60,
    ensures
        VirtioBlockConfig::parsed(b).middle_bytes() == b.subrange(24, 36),
{
    lemma_bytes_at(b, 26);
    lemma_bytes_at(b, 28);
    lemma_bytes_at(b, 34);
    lemma_middle_joined(
        b,
        le_u16(u16_at(b, 26)),
        zoned::le_u32(zoned::u32_at(b, 28)),
        le_u16(u16_at(b, 34)),
    );
}

proof fn lemma_middle_joined(b: Seq<u8>, min_io: Seq<u8>, opt_io: Seq<u8>, queues: Seq<u8>)
    requires
        b.len() == 60,
        min_io == b.subrange(26, 28),
        opt_io == b.subrange(28, 32),
        queues == b.subrange(34, 36),
    ensures
        seq![b[24]] + seq![b[25]] + min_io + opt_io + seq![b[32]] + seq![b[33]] + queues
            == b.subrange(24, 36),
{
    assert(seq![b[24]] + seq![b[25]] + min_io + opt_io + seq![b[32]] + seq![b[33]] + queues
        =~= b.subrange(24, 36));
}

#[verifier::spinoff_prover]
#[verifier::rlimit(40)]
proof fn lemma_limits_back(b: Seq<u8>)
    requires
        b.len() == 60,
    ensures
        VirtioBlockConfig::parsed(b).limits_bytes() == b.subrange(36, 60),
{
    lemma_bytes_at(b, 36);
    lemma_bytes_at(b, 40);
    lemma_bytes_at(b, 44);
    lemma_bytes_at(b, 48);
    lemma_bytes_at(b, 52);
    lemma_limits_joined(
        b,
        zoned::le_u32(zoned::u32_at(b, 36)),
        zoned::le_u32(zoned::u32_at(b, 40)),
        zoned::le_u32(zoned::u32_at(b, 44)),
        zoned::le_u32(zoned::u32_at(b, 48)),
        zoned::le_u32(zoned::u32_at(b, 52)),
    );
}

proof fn lemma_limits_joined(
    b: Seq<u8>,
    discard: Seq<u8>,
    discard_seg: Seq<u8>,
    alignment: Seq<u8>,
    zeroes: Seq<u8>,
    zeroes_seg: Seq<u8>,
)
    requires
        b.len() == 60,
        discard == b.subrange(36, 40),
        discard_seg == b.subrange(40, 44),
        alignment == b.subrange(44, 48),
        zeroes == b.subrange(48, 52),
        zeroes_seg == b.subrange(52, 56),
    ensures
        discard + discard_seg + alignment + zeroes + zeroes_seg + seq![b[56]] + seq![b[57]] + seq![
            b[58],
        ] + seq![b[59]] == b.subrange(36, 60),
{
    assert(discard + discard_seg + alignment + zeroes + zeroes_seg + seq![b[56]] + seq![b[57]]
        + seq![b[58]] + seq![b[59]] =~= b.subrange(36, 60));
}

/// Whatever 60 bytes a backend returns, parsing and serialising them gives them
/// back: no byte is lost, reserved ones included.
#[verifier::spinoff_prover]
#[verifier::rlimit(40)]
pub proof fn law_base_bytes_round_trip(b: Seq<u8>)
    requires
        b.len() == 60,
    ensures
        VirtioBlockConfig::parsed(b).bytes() == b,
{
    lemma_head_back(b);
    lemma_middle_back(b);
    lemma_limits_back(b);
    assert(VirtioBlockConfig::parsed(b).bytes() =~= b);
}

/// A zoned device tells the guest so in both places or in neither: the feature
/// is offered exactly when the configuration space has the zoned tail. What is
/// withheld can never be acknowledged.
pub proof fn law_zones_are_exposed_consistently(
    acked: u64,
    tail: Option<VirtioBlockZonedConfig>,
    exposure: ZonedExposure,
    config_space: Seq<u8>,
    value: u64,
)
    requires
        zoned_outcome(acked, config_space) == Ok::<
            (Option<VirtioBlockZonedConfig>, ZonedExposure),
            BlkError,
        >((tail, exposure)),
    ensures
        zoned::has_zoned(zoned::gated(acked, exposure)) == (tail is Some),
        tail is None ==> !zoned::has_zoned(
            (acked & VHOST_USER_F_PROTOCOL_FEATURES) | (value & zoned::gated(acked, exposure)),
        ),
{
    zoned::law_gating(acked, exposure);
    let g = zoned::gated(acked, exposure);
    assert(g & (1u64 << 17) == 0 ==> ((acked & 0x4000_0000u64) | (value & g)) & (1u64 << 17) == 0)
        by (bit_vector);
}

/// A device restored from its own snapshot is the device that was saved,
/// paused, and the guest reads the same configuration space.
pub proof fn law_restore_gives_back_the_device(d: Blk)
    ensures
        ({
            let r = Blk::restored(d.saved(), d.access_platform_enabled);
            &&& r == (Blk { paused: true, ..d })
            &&& zoned::config_space(r.config.bytes(), r.zoned) == zoned::config_space(
                d.config.bytes(),
                d.zoned,
            )
            &&& d.consistent() ==> r.consistent()
        }),
{
}

/// A backend is offered these features of virtio-blk, whatever the ring
/// features are, all of the ring features, and several queues exactly if the
/// device has more than one (or the ring features say so).
pub proof fn law_offered_bits(num_queues: usize, ring_features: u64, bit: u64)
    requires
        bit < 64,
    ensures
        offered(num_queues, ring_features) & (1u64 << bit) != 0 <==> {
            ||| bit == 1 || bit == 2 || bit == 4 || bit == 5 || bit == 6 || bit == 9 || bit == 10
                || bit == 11 || bit == 13 || bit == 14 || bit == 17
            ||| bit == 12 && num_queues > 1
            ||| ring_features & (1u64 << bit) != 0
        },
{
    let m = num_queues > 1;
    assert(OFFERED_BLK_FEATURES == 0x26e76u64) by (bit_vector);
    assert(bit < 64 ==> ((0x26e76u64 | ring_features) & (1u64 << bit) != 0 <==> (bit == 1 || bit == 2
        || bit == 4 || bit == 5 || bit == 6 || bit == 9 || bit == 10 || bit == 11 || bit == 13
        || bit == 14 || bit == 17 || ring_features & (1u64 << bit) != 0))) by (bit_vector);
    assert(bit < 64 ==> (((0x26e76u64 | ring_features) | (1u64 << 12)) & (1u64 << bit) != 0 <==> (bit
        == 12 || (0x26e76u64 | ring_features) & (1u64 << bit) != 0))) by (bit_vector);
}

/// A base configuration space is read field by field: each field is the
/// little-endian number at its place in the virtio layout.
pub proof fn law_base_fields(b: Seq<u8>)
    requires
        b.len() == 60,
    ensures
        ({
            let c = VirtioBlockConfig::parsed(b);
            &&& c.capacity == zoned::number(b, 0, 8)
            &&& c.size_max == zoned::number(b, 8, 4)
            &&& c.seg_max == zoned::number(b, 12, 4)
            &&& c.cylinders == zoned::number(b, 16, 2)
            &&& c.heads == b[18]
            &&& c.sectors == b[19]
            &&& c.blk_size == zoned::number(b, 20, 4)
            &&& c.physical_block_exp == b[24]
            &&& c.alignment_offset == b[25]
            &&& c.min_io_size == zoned::number(b, 26, 2)
            &&& c.opt_io_size == zoned::number(b, 28, 4)
            &&& c.writeback == b[32]
            &&& c.unused == b[33]
            &&& c.num_queues == zoned::number(b, 34, 2)
            &&& c.max_discard_sectors == zoned::number(b, 36, 4)
            &&& c.max_discard_seg == zoned::number(b, 40, 4)
            &&& c.discard_sector_alignment == zoned::number(b, 44, 4)
            &&& c.max_write_zeroes_sectors == zoned::number(b, 48, 4)
            &&& c.max_write_zeroes_seg == zoned::number(b, 52, 4)
            &&& c.write_zeroes_may_unmap == b[56]
            &&& c.unused1 == b[57]
            &&& c.unused2 == b[58]
            &&& c.unused3 == b[59]
        }),
{
    zoned::lemma_number(b, 0);
    zoned::lemma_number(b, 8);
    zoned::lemma_number(b, 12);
    zoned::lemma_number(b, 16);
    zoned::lemma_number(b, 20);
    zoned::lemma_number(b, 26);
    zoned::lemma_number(b, 28);
    zoned::lemma_number(b, 34);
    zoned::lemma_number(b, 36);
    zoned::lemma_number(b, 40);
    zoned::lemma_number(b, 44);
    zoned::lemma_number(b, 48);
    zoned::lemma_number(b, 52);
}

/// The guest reads the base fields where the virtio layout has them.
#[verifier::spinoff_prover]
#[verifier::rlimit(40)]
pub proof fn law_guest_reads_the_base_fields(d: Blk)
    ensures
        ({
            let g = d.guest_config();
            let c = d.config;
            &&& g.len() == if d.zoned is Some {
                96int
            } else {
                60
            }
            &&& zoned::number(g, 0, 8) == c.capacity
            &&& zoned::number(g, 8, 4) == c.size_max
            &&& zoned::number(g, 12, 4) == c.seg_max
            &&& zoned::number(g, 16, 2) == c.cylinders
            &&& g[18] == c.heads
            &&& g[19] == c.sectors
            &&& zoned::number(g, 20, 4) == c.blk_size
            &&& g[24] == c.physical_block_exp
            &&& g[25] == c.alignment_offset
            &&& zoned::number(g, 26, 2) == c.min_io_size
            &&& zoned::number(g, 28, 4) == c.opt_io_size
            &&& g[32] == c.writeback
            &&& g[33] == c.unused
            &&& zoned::number(g, 34, 2) == c.num_queues
            &&& zoned::number(g, 36, 4) == c.max_discard_sectors
            &&& zoned::number(g, 40, 4) == c.max_discard_seg
            &&& zoned::number(g, 44, 4) == c.discard_sector_alignment
            &&& zoned::number(g, 48, 4) == c.max_write_zeroes_sectors
            &&& zoned::number(g, 52, 4) == c.max_write_zeroes_seg
            &&& g[56] == c.write_zeroes_may_unmap
            &&& g[57] == c.unused1
            &&& g[58] == c.unused2
            &&& g[59] == c.unused3
        }),
{
    let b = d.config.bytes();
    let g = d.guest_config();
    law_base_round_trip(d.config);
    law_base_fields(b);
    if let Some(tail) = d.zoned {
        zoned::law_guest_reads_the_zoned_fields(b, tail);
    }
    assert(g.take(60) =~= b);
    assert forall|o: int| 0 <= o <= 58 implies #[trigger] zoned::number(g, o, 2) == zoned::number(
        b,
        o,
        2,
    ) by {
        lemma_number_prefix(g, b, o);
    }
    assert forall|o: int| 0 <= o <= 56 implies #[trigger] zoned::number(g, o, 4) == zoned::number(
        b,
        o,
        4,
    ) by {
        lemma_number_prefix(g, b, o);
    }
    lemma_number_prefix(g, b, 0);
    assert(forall|i: int| 0 <= i < 60 ==> (#[trigger] g[i]) == b[i]);
}

proof fn lemma_number_prefix(g: Seq<u8>, b: Seq<u8>, o: int)
    requires
        b.len() == 60,
        g.len() >= 60,
        forall|i: int| 0 <= i < 60 ==> g[i] == b[i],
        0 <= o,
    ensures
        o <= 58 ==> zoned::number(g, o, 2) == zoned::number(b, o, 2),
        o <= 56 ==> zoned::number(g, o, 4) == zoned::number(b, o, 4),
        o <= 52 ==> zoned::number(g, o, 8) == zoned::number(b, o, 8),
{
    zoned::lemma_number(g, o);
    zoned::lemma_number(b, o);
}

/// A guest write changes the configuration space in one place at most: a
/// single byte written to offset 32 is read back there. Any other write changes
/// nothing, and no write changes what was negotiated.
#[verifier::spinoff_prover]
#[verifier::rlimit(40)]
pub proof fn law_only_writeback_is_writable(d: Blk, offset: u64, data: Seq<u8>, i: int)
    requires
        0 <= i < 60,
    ensures
        ({
            let w = d.written(offset, data);
            &&& w.guest_config().len() == d.guest_config().len()
            &&& w.guest_config()[i] == if i == 32 && offset == 32 && data.len() == 1 {
                data[0]
            } else {
                d.guest_config()[i]
            }
            &&& w.zoned == d.zoned
            &&& w.saved() == (State {
                config: BlkConfigState { base: w.config, ..d.saved().config },
                ..d.saved()
            })
            &&& w.seen_features() == d.seen_features()
            &&& w.paused == d.paused
            &&& offset != 32 || data.len() != 1 ==> w == d
        }),
{
    let w = d.written(offset, data);
    lemma_head_fields(d.config);
    lemma_middle_fields(d.config);
    lemma_limits_fields(d.config);
    lemma_head_fields(w.config);
    lemma_middle_fields(w.config);
    lemma_limits_fields(w.config);
    law_guest_reads_the_base_fields(d);
    law_guest_reads_the_base_fields(w);
    assert(w.config.head_bytes() == d.config.head_bytes());
    assert(w.config.limits_bytes() == d.config.limits_bytes());
    let a = d.config.middle_bytes();
    let b = w.config.middle_bytes();
    assert forall|k: int| 0 <= k < 12 && k != 8 implies #[trigger] a[k] == b[k] by {}
}

/// The guest is offered what the device has available, and the IOMMU feature
/// exactly if the device sits behind one (or has the bit already).
pub proof fn law_seen_bits(d: Blk, bit: u64)
    requires
        bit < 64,
    ensures
        d.seen_features() & (1u64 << bit) != 0 <==> d.avail_features & (1u64 << bit) != 0 || bit
            == 33 && d.access_platform_enabled,
{
    let f = d.avail_features;
    assert(bit < 64 ==> ((f | (1u64 << 33)) & (1u64 << bit) != 0 <==> (f & (1u64 << bit) != 0 || bit
        == 33))) by (bit_vector);
}

/// What the guest acks is kept, as far as it was available, and nothing acked
/// before is lost. Nothing else changes.
pub proof fn law_acked_bits(d: Blk, value: u64, bit: u64)
    requires
        bit < 64,
    ensures
        d.acking(value).acked_features & (1u64 << bit) != 0 <==> d.acked_features & (1u64 << bit)
            != 0 || value & (1u64 << bit) != 0 && d.avail_features & (1u64 << bit) != 0,
        d.acking(value) == (Blk { acked_features: d.acking(value).acked_features, ..d }),
{
    let acked = d.acked_features;
    let avail = d.avail_features;
    assert((acked | (value & avail)) & (1u64 << bit) != 0 <==> (acked & (1u64 << bit) != 0 || (value
        & (1u64 << bit) != 0 && avail & (1u64 << bit) != 0))) by (bit_vector)
        requires
            bit < 64,
    ;
}

/// A backend that a device reconnects to must have what is required of any, and
/// zones exactly if the guest sees them (or they are required anyway).
pub proof fn law_needed_bits(d: Blk, required: u64, bit: u64)
    requires
        bit < 64,
    ensures
        d.needed_features(required) & (1u64 << bit) != 0 <==> required & (1u64 << bit) != 0 || bit
            == 17 && d.zoned is Some,
{
    assert(bit < 64 ==> ((required | (1u64 << 17)) & (1u64 << bit) != 0 <==> (required & (1u64
        << bit) != 0 || bit == 17))) by (bit_vector);
}

/// Snapshots keep every field of a device, each under its own name, and
/// restoring takes each from there. Only whether there is an IOMMU is said anew,
/// and a restored device is paused.
pub proof fn law_snapshot_fields(d: Blk, s: State, iommu: bool)
    ensures
        d.saved().avail_features == d.avail_features,
        d.saved().acked_features == d.acked_features,
        d.saved().acked_protocol_features == d.acked_protocol_features,
        d.saved().vu_num_queues == d.vu_num_queues,
        d.saved().config.base == d.config,
        d.saved().config.zoned == d.zoned,
        ({
            let r = Blk::restored(s, iommu);
            &&& r.avail_features == s.avail_features
            &&& r.acked_features == s.acked_features
            &&& r.acked_protocol_features == s.acked_protocol_features
            &&& r.vu_num_queues == s.vu_num_queues
            &&& r.config == s.config.base
            &&& r.zoned == s.config.zoned
            &&& r.paused
            &&& r.access_platform_enabled == iommu
        }),
{
}

/// Whether a configuration space has the tail of a disk that is to be exposed
/// as zoned: a host-aware one, or a host-managed one that the guest can drive.
pub open spec fn drivable_zones(b: Seq<u8>) -> bool {
    ||| b[92] == 2
    ||| b[92] == 1 && (exists|k: nat|
        zoned::number(b, 72, 4) == #[trigger] vstd::arithmetic::power2::pow2(k)) && zoned::number(
        b,
        84,
        4,
    ) != 0 && zoned::number(b, 88, 4) != 0
}

/// What a device is made of: the number of queues asked for, what was
/// negotiated, and the backend's configuration space, of which only the number
/// of queues is replaced. Of the features acked by the negotiation the guest's
/// own start with the protocol feature bit alone.
#[verifier::spinoff_prover]
#[verifier::rlimit(40)]
pub proof fn law_what_a_new_device_is(
    num_queues: usize,
    acked: u64,
    protocol: u64,
    b: Seq<u8>,
    iommu: bool,
    i: int,
)
    requires
        b.len() >= 60,
        0 <= i < 60,
    ensures
        Blk::built(num_queues, acked, protocol, b, iommu) matches Ok(d) ==> {
            &&& d.vu_num_queues == num_queues
            &&& d.acked_protocol_features == protocol
            &&& d.acked_features == acked & 0x4000_0000
            &&& d.access_platform_enabled == iommu
            &&& !d.paused
            &&& d.config.num_queues == num_queues % 65536
            &&& zoned::number(d.guest_config(), 34, 2) == num_queues % 65536
            &&& i != 34 && i != 35 ==> d.guest_config()[i] == b[i]
            &&& d.guest_config().len() == if d.zoned is Some {
                96int
            } else {
                60
            }
        },
{
    if let Ok(d) = Blk::built(num_queues, acked, protocol, b, iommu) {
        let base = b.take(60);
        let p = VirtioBlockConfig::parsed(base);
        law_guest_reads_the_base_fields(d);
        law_base_bytes_round_trip(base);
        lemma_head_fields(d.config);
        lemma_middle_fields(d.config);
        lemma_limits_fields(d.config);
        lemma_head_fields(p);
        lemma_middle_fields(p);
        lemma_limits_fields(p);
        assert(d.config.head_bytes() == p.head_bytes());
        assert(d.config.limits_bytes() == p.limits_bytes());
        let x = d.config.middle_bytes();
        let y = p.middle_bytes();
        assert forall|k: int| 0 <= k < 10 implies #[trigger] x[k] == y[k] by {}
        assert(num_queues as u16 == num_queues % 65536) by (bit_vector);
        assert(p.bytes()[i] == base[i]);
    }
}

/// When a device comes about and when it has zones. A backend without the
/// zoned feature never fails and never has zones; one with the feature must
/// return 96 bytes, and its disk decides: no model means no zones and the
/// feature withdrawn, a disk that the guest can drive is exposed with the
/// backend's own tail, and any other disk is refused.
#[verifier::spinoff_prover]
#[verifier::rlimit(40)]
pub proof fn law_when_a_device_has_zones(
    num_queues: usize,
    acked: u64,
    protocol: u64,
    b: Seq<u8>,
    iommu: bool,
)
    requires
        60 <= b.len() <= usize::MAX,
    ensures
        ({
            let r = Blk::built(num_queues, acked, protocol, b, iommu);
            let feature = (acked / 131072) % 2 == 1;
            &&& !feature ==> (r matches Ok(d) && d.zoned is None && d.avail_features == acked)
            &&& feature && b.len() != 96 ==> r == Err::<Blk, BlkError>(
                BlkError::ZonedConfig(
                    ZonedError::TailLength { expected: 36, got: (b.len() - 60) as usize },
                ),
            )
            &&& feature && b.len() == 96 ==> {
                &&& b[92] == 0 ==> (r matches Ok(d) && d.zoned is None && d.avail_features == acked
                    - 131072)
                &&& b[92] != 0 && drivable_zones(b) ==> (r matches Ok(d) && d.zoned is Some
                    && d.avail_features == acked)
                &&& b[92] != 0 && !drivable_zones(b) ==> r is Err
                &&& b[92] > 2 ==> r == Err::<Blk, BlkError>(
                    BlkError::ZonedConfig(ZonedError::UnknownModel(b[92])),
                )
            }
        }),
{
    zoned::law_zoned_bit(acked, ZonedExposure::Expose, 17);
    assert(acked & (1u64 << 17) != 0 ==> acked & !(1u64 << 17) == acked - 131072) by (bit_vector);
    assert(acked & (1u64 << 17) == 0 ==> acked & !(1u64 << 17) == acked) by (bit_vector);
    if b.len() == 96 {
        let tail = b.skip(60);
        let c = VirtioBlockZonedConfig::parsed(tail);
        zoned::law_tail_fields(tail);
        zoned::law_which_disks_are_exposed(c);
        zoned::lemma_number(tail, 12);
        zoned::lemma_number(tail, 24);
        zoned::lemma_number(tail, 28);
        zoned::lemma_number(b, 72);
        zoned::lemma_number(b, 84);
        zoned::lemma_number(b, 88);
        assert(c.zone_sectors == zoned::number(b, 72, 4));
        assert(c.max_append_sectors == zoned::number(b, 84, 4));
        assert(c.write_granularity == zoned::number(b, 88, 4));
        assert(c.model == b[92]) by {
            reveal_with_fuel(zoned::number, 2);
        }
        let feature = (acked / 131072) % 2 == 1;
        if feature {
            assert(zoned_outcome(acked, b) == match c.verdict() {
                Err(e) => Err(BlkError::ZonedConfig(e)),
                Ok(exposure) => Ok(
                    (
                        if exposure is Expose {
                            Some(c)
                        } else {
                            None
                        },
                        exposure,
                    ),
                ),
            });
            assert(b[92] != 0 ==> (drivable_zones(b) <==> c.verdict() == Ok::<
                ZonedExposure,
                ZonedError,
            >(ZonedExposure::Expose)));
            assert(c.verdict() is Ok ==> c.verdict()->Ok_0 is Expose || c.verdict()->Ok_0 is ModelNone);
        }
    }
}

/// A zoned device shows the guest the backend's tail: every byte from offset
/// 60 on as the backend returned it, but for the reserved ones at the end.
#[verifier::spinoff_prover]
#[verifier::rlimit(40)]
pub proof fn law_zoned_tail_is_passed_on(
    num_queues: usize,
    acked: u64,
    protocol: u64,
    b: Seq<u8>,
    iommu: bool,
    i: int,
)
    requires
        b.len() == 96,
        60 <= i < 93,
    ensures
        Blk::built(num_queues, acked, protocol, b, iommu) matches Ok(d) ==> (d.zoned is Some
            ==> d.guest_config()[i] == b[i]),
{
    if let Ok(d) = Blk::built(num_queues, acked, protocol, b, iommu) {
        let tail = b.skip(60);
        let c = VirtioBlockZonedConfig::parsed(tail);
        if d.zoned is Some {
            assert(d.zoned == Some(c));
            zoned::law_tail_bytes_round_trip(tail);
            law_base_round_trip(d.config);
            lemma_behind_the_base(d.config.bytes(), c.bytes(), b, i);
        }
    }
}

proof fn lemma_behind_the_base(base: Seq<u8>, tail: Seq<u8>, b: Seq<u8>, i: int)
    requires
        base.len() == 60,
        b.len() == 96,
        tail == b.skip(60).take(33) + seq![0u8, 0u8, 0u8],
        60 <= i < 93,
    ensures
        (base + tail)[i] == b[i],
{
}

/// The default configuration space is all zero.
#[verifier::spinoff_prover]
#[verifier::rlimit(40)]
pub proof fn law_default_config_is_zero(i: int)
    requires
        0 <= i < 60,
    ensures
        VirtioBlockConfig::zero().bytes().len() == 60,
        VirtioBlockConfig::zero().bytes()[i] == 0,
{
    let zero = VirtioBlockConfig::zero();
    lemma_head_fields(zero);
    lemma_middle_fields(zero);
    lemma_limits_fields(zero);
}

} // verus!
