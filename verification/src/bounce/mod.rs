//! Bounce buffer pool support for vhost-user devices.
//!
//! With bouncing enabled, the vhost-user backend is never given access to
//! guest RAM. It receives a single "bounce pool" region holding shadow
//! virtqueues managed by the VMM, and request data is copied between guest
//! memory and the pool in both directions.

pub mod account;
pub mod allocator;
pub mod copy;
pub mod guarantees;
pub mod laws;
pub mod memory;
pub mod model;
pub mod ownership;
pub mod pool;
pub mod ring;
pub mod shadow_queue;
pub mod worker;

pub use allocator::{BounceAllocator, BOUNCE_ALLOC_ALIGN};
pub use pool::{default_buffer_capacity, BouncePool, PoolLayout, RingOffsets};
pub use shadow_queue::{CompleteOutcome, MirrorOutcome, ShadowQueue, ShadowQueueConfig};
pub use worker::BounceShared;

use vstd::prelude::*;

verus! {

/// Errors from the bounce buffer pool machinery.
#[derive(Debug)]
pub enum BounceError {
    /// The extent is out of bounds, misaligned, empty or (partly) free.
    InvalidFree { offset: u64, len: u64 },
    /// The pool would not fit into the address space.
    PoolTooLarge,
    /// The memory handed in does not map the whole pool.
    PoolNotMapped { size: u64 },
}

/// Per-device configuration for bounce mode, parsed from the CLI.
#[derive(Clone, Copy, Debug, Default)]
pub struct BounceConfig {
    /// Buffer arena size in bytes; `None` uses the default sizing.
    pub pool_size: Option<u64>,
}

impl BounceConfig {
    /// Bytes of the arena of a device with `num_queues` queues of `queue_size`
    /// entries.
    pub open spec fn capacity(self, num_queues: int, queue_size: int) -> int {
        match self.pool_size {
            Some(size) => size as int,
            None => pool::default_capacity(num_queues, queue_size),
        }
    }

    /// The pool of a device with `num_queues` queues of maximum size
    /// `queue_size`.
    pub fn layout(&self, num_queues: usize, queue_size: u16) -> (r: PoolLayout)
        requires
            self.pool_size is None ==> 4 * num_queues * queue_size * 4096 <= u64::MAX,
        ensures
            r.num_queues == num_queues,
            r.queue_size == queue_size,
            r.buffer_capacity == match self.pool_size {
                Some(size) => size as int,
                None => 4 * num_queues * queue_size * 4096,
            },
            r.buffer_capacity == self.capacity(num_queues as int, queue_size as int),
    {
        let buffer_capacity: u64 = match self.pool_size {
            Some(size) => size,
            None => default_buffer_capacity(num_queues, queue_size),
        };
        PoolLayout { num_queues, queue_size, buffer_capacity }
    }
}

/// Feature bit: descriptors may refer to tables of descriptors.
pub const VIRTIO_F_RING_INDIRECT_DESC: u64 = 28;

/// Feature bit: notifications are suppressed by index.
pub const VIRTIO_F_RING_EVENT_IDX: u64 = 29;

/// Feature bit: buffers are used in the order in which they were made
/// available.
pub const VIRTIO_F_IN_ORDER: u64 = 35;

/// `features` without those that bounce mode does not support.
pub open spec fn masked(features: u64) -> u64 {
    features & !(1u64 << 28) & !(1u64 << 29) & !(1u64 << 35)
}

/// Clear the virtio ring features that bounce mode does not (yet)
/// support, so neither the guest nor the backend ever negotiates them.
/// Applied to a device's available features before feature negotiation.
pub fn mask_bounce_features(avail_features: u64) -> (r: u64)
    ensures
        r == masked(avail_features),
{
    avail_features & !(1u64 << VIRTIO_F_RING_INDIRECT_DESC) & !(1u64 << VIRTIO_F_RING_EVENT_IDX)
        & !(1u64 << VIRTIO_F_IN_ORDER)
}

/// Masking clears the three bits, leaves every other bit as it was, and does
/// nothing the second time.
pub proof fn law_masking(features: u64, bit: u64)
    requires
        bit < 64,
    ensures
        bit == 28 || bit == 29 || bit == 35 ==> masked(features) & (1u64 << bit) == 0,
        bit != 28 && bit != 29 && bit != 35 ==> masked(features) & (1u64 << bit) == features & (1u64
            << bit),
        masked(masked(features)) == masked(features),
{
    assert(bit == 28 || bit == 29 || bit == 35 ==> (features & !(1u64 << 28) & !(1u64 << 29) & !(
    1u64 << 35)) & (1u64 << bit) == 0) by (bit_vector);
    assert(bit < 64 && bit != 28 && bit != 29 && bit != 35 ==> (features & !(1u64 << 28) & !(1u64
        << 29) & !(1u64 << 35)) & (1u64 << bit) == features & (1u64 << bit)) by (bit_vector);
    assert((features & !(1u64 << 28) & !(1u64 << 29) & !(1u64 << 35)) & !(1u64 << 28) & !(1u64
        << 29) & !(1u64 << 35) == features & !(1u64 << 28) & !(1u64 << 29) & !(1u64 << 35))
        by (bit_vector);
}

/// A configured pool size is taken as it is, however many queues there are;
/// without one the arena has four pages for every slot of every queue.
pub proof fn law_configured_pool_size(size: u64, num_queues: int, queue_size: int)
    ensures
        (BounceConfig { pool_size: Some(size) }).capacity(num_queues, queue_size) == size,
        (BounceConfig { pool_size: None }).capacity(num_queues, queue_size) == 16384 * (num_queues
            * queue_size),
{
    assert(4 * num_queues * queue_size * 4096 == 16384 * (num_queues * queue_size))
        by (nonlinear_arith);
}

} // verus!
