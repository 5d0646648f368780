//! Shadow queue translation: mirrors a guest virtqueue into a bounce
//! pool shadow ring for the backend, and completions back again.
//!
//! - The shadow avail/used *index counters* advance in lockstep with the
//!   guest ring's, so `SET_VRING_BASE` semantics are unchanged.
//! - Shadow *descriptor slots* are allocated by the VMM from a per-queue
//!   free stack; used elements coming back from the backend carry shadow
//!   heads that are translated to guest heads via the in-flight table.
//! - Ring flags and event-idx fields are never mirrored: the shadow ring
//!   stays in always-notify mode in both directions, and guest-side
//!   interrupt suppression is applied by the VMM when completing.
//! - Guest-controlled data is validated and captured; completions use the
//!   captured state (immune to concurrent guest descriptor-table rewrites).

use super::allocator::{round_len, Arena};
use super::copy::COPY_CHUNK;
use super::memory::{self, Access, GuestMemoryMmap, LoadOrder};
use super::model::{self, Arrival, ChainView, Completion, Harvest, Scene, ShadowView};
use super::ownership;
use super::pool::{self, BouncePool, RingOffsets};
use super::ring::{self, Chain, Descriptor};
use virtio_queue::Queue;
use vstd::prelude::*;

verus! {

/// Static configuration of one shadow queue.
#[derive(Clone, Copy, Debug)]
pub struct ShadowQueueConfig {
    /// Queue index within the device.
    pub queue_index: usize,
    /// Actual (negotiated) queue size; at most the pool layout's maximum.
    pub queue_size: u16,
}

/// Result of one [`ShadowQueue::mirror_avail`] call.
#[derive(Clone, Copy, Debug, Default, PartialEq, Eq, Structural)]
pub struct MirrorOutcome {
    /// Chains newly published to the shadow ring. Kick the backend when
    /// this is non-zero.
    pub chains: usize,
    /// The next pending chain could not be translated for lack of pool
    /// space or shadow descriptor slots; the queue stalls (consuming
    /// nothing further) until completions free resources.
    pub stalled: bool,
}

/// Result of one [`ShadowQueue::complete_used`] call.
#[derive(Clone, Copy, Debug, Default, PartialEq, Eq, Structural)]
pub struct CompleteOutcome {
    /// Chains completed back into the guest used ring.
    pub chains: usize,
    /// Whether the guest should be interrupted for this progress.
    pub needs_interrupt: bool,
}

/// Why a queue stopped.
#[derive(Clone, Copy, Debug, PartialEq, Eq, Structural)]
pub enum QueueFault {
    /// A chain uses indirect descriptors, which bouncing does not support.
    IndirectDescriptors,
    /// The guest's descriptor table is not accessible.
    DescTableInaccessible,
    /// A chain is empty, loops, is too long or cannot be read to its end.
    MalformedChain,
    /// A buffer lies outside guest memory.
    BufferOutsideGuestMemory,
    /// The shadow avail index could not be stored.
    AvailIndexStoreFailed,
    /// The shadow used index could not be loaded.
    UsedIndexLoadFailed,
    /// The backend completed an unknown or stale used id.
    UnknownUsedId,
    /// Data could not be copied back to the guest.
    WriteBackFailed,
    /// The guest's used ring did not take an element.
    UsedPublishFailed,
}

/// A chain that no arena of this size can hold.
#[derive(Clone, Copy, Debug, PartialEq, Eq, Structural)]
pub struct StallReport {
    /// Arena bytes that the chain needs.
    pub needed: u64,
    /// Arena bytes that there are.
    pub capacity: u64,
}

/// One captured guest buffer segment of an in-flight chain.
#[derive(Clone, Copy, Debug, PartialEq, Eq, Structural)]
pub struct Segment {
    pub guest_addr: u64,
    pub pool_addr: u64,
    pub len: u32,
    pub writable: bool,
}

/// A chain currently owned by the backend.
struct InflightChain {
    guest_head: u16,
    segments: Vec<Segment>,
    /// Shadow descriptor slots used by this chain, head first.
    slots: Vec<u16>,
}

impl View for InflightChain {
    type V = ChainView;

    closed spec fn view(&self) -> ChainView {
        ChainView {
            guest_head: self.guest_head,
            segments: self.segments@,
            slots: self.slots@,
        }
    }
}

spec fn table_view(table: Seq<Option<InflightChain>>) -> Seq<Option<ChainView>> {
    Seq::new(
        table.len(),
        |i: int|
            match table[i] {
                Some(c) => Some(c@),
                None => None,
            },
    )
}

/// Whether every buffer of a chain that has bytes lies in guest memory.
fn buffers_in_memory(guest_mem: &GuestMemoryMmap, descs: &Vec<Descriptor>) -> (r: bool)
    ensures
        r == model::buffers_mapped(memory::mapped(*guest_mem), descs@),
        r ==> forall|i: int|
            0 <= i < descs@.len() && (#[trigger] descs@[i]).len != 0 ==> descs@[i].addr
                + descs@[i].len <= u64::MAX,
{
    let mut i: usize = 0;
    while i < descs.len()
        invariant
            i <= descs@.len(),
            forall|j: int|
                0 <= j < i && (#[trigger] descs@[j]).len != 0 ==> {
                    &&& memory::covers(
                        memory::mapped(*guest_mem),
                        descs@[j].addr,
                        descs@[j].len as int,
                    )
                    &&& descs@[j].addr + descs@[j].len <= u64::MAX
                },
        decreases descs@.len() - i,
    {
        let desc: Descriptor = descs[i];
        if desc.len != 0 && !memory::check_range(guest_mem, desc.addr, desc.len as usize) {
            return false;
        }
        i += 1;
    }
    true
}

/// Arena bytes that a chain needs.
fn arena_bytes_needed(descs: &Vec<Descriptor>) -> (r: u64)
    requires
        descs@.len() <= 131070,
    ensures
        r == model::arena_need(descs@),
{
    let mut sum: u64 = 0;
    let mut i: usize = 0;
    while i < descs.len()
        invariant
            i <= descs@.len(),
            descs@.len() <= 131070,
            sum == model::arena_need(descs@.take(i as int)),
            sum <= i * 0x1_0000_0000,
        decreases descs@.len() - i,
    {
        assert(descs@.take(i + 1).drop_last() =~= descs@.take(i as int));
        sum += round_len(descs[i].len as u64);
        i += 1;
    }
    assert(descs@.take(i as int) =~= descs@);
    sum
}

/// Find arena space for the buffers of a chain, one after another, until
/// one does not fit. Returns the captured segments and whether they are all
/// there.
fn reserve(pool: &mut BouncePool, descs: &Vec<Descriptor>) -> (r: (Vec<Segment>, bool))
    requires
        old(pool).wf(),
    ensures
        final(pool).wf(),
        ({
            let plan = model::reserve(old(pool)@.arena, old(pool)@.arena_base, descs@);
            &&& r.0@ == plan.segments
            &&& r.1 == plan.complete
            &&& final(pool)@ == (pool::PoolView { arena: plan.arena, ..old(pool)@ })
        }),
{
    let mut segments: Vec<Segment> = Vec::new();
    let ghost before = pool@;
    let mut i: usize = 0;
    while i < descs.len()
        invariant
            i <= descs@.len(),
            pool.wf(),
            before == old(pool)@,
            ({
                let plan = model::reserve(before.arena, before.arena_base, descs@.take(i as int));
                &&& plan.complete
                &&& segments@ == plan.segments
                &&& pool@ == (pool::PoolView { arena: plan.arena, ..before })
            }),
        decreases descs@.len() - i,
    {
        let desc: Descriptor = descs[i];
        assert(descs@.take(i + 1).drop_last() =~= descs@.take(i as int));
        assert(descs@.take(i + 1).last() == desc);
        let space: Option<u64> = if desc.len == 0 {
            Some(0)
        } else {
            pool.allocate(desc.len as u64)
        };
        match space {
            Some(pool_addr) => {
                segments.push(
                    Segment {
                        guest_addr: desc.addr,
                        pool_addr,
                        len: desc.len,
                        writable: desc.is_write_only(),
                    },
                );
            },
            None => {
                proof {
                    lemma_reserve_stops(before.arena, before.arena_base, descs@, i + 1);
                }
                return (segments, false);
            },
        }
        i += 1;
    }
    assert(descs@.take(i as int) =~= descs@);
    (segments, true)
}

/// A reservation that failed at one descriptor stays as it is.
proof fn lemma_reserve_stops(arena: Arena, base: u64, descs: Seq<Descriptor>, n: int)
    requires
        0 <= n <= descs.len(),
        !model::reserve(arena, base, descs.take(n)).complete,
    ensures
        model::reserve(arena, base, descs) == model::reserve(arena, base, descs.take(n)),
    decreases descs.len() - n,
{
    if n == descs.len() {
        assert(descs.take(n) =~= descs);
    } else {
        assert(descs.take(n + 1).drop_last() =~= descs.take(n));
        lemma_reserve_stops(arena, base, descs, n + 1);
    }
}

/// Free the extents of captured segments, in order. They are in use, so no
/// free is refused.
fn free_segments(pool: &mut BouncePool, segs: &Vec<Segment>)
    requires
        old(pool).wf(),
        ownership::segs_ok(segs@, old(pool)@.arena_base, old(pool)@.arena.capacity as int),
        forall|b: int| #[trigger]
            ownership::segs_have(segs@, old(pool)@.arena_base, b) ==> !old(pool)@.arena.free_at(b),
    ensures
        final(pool).wf(),
        final(pool)@ == (pool::PoolView {
            arena: model::release(old(pool)@.arena, old(pool)@.arena_base, segs@),
            log: old(pool)@.log + model::scrub(segs@),
            ..old(pool)@
        }),
{
    let ghost before = pool@;
    let ghost base = pool@.arena_base;
    let mut i: usize = 0;
    assert(before.log + model::scrub(segs@.take(0)) =~= before.log);
    while i < segs.len()
        invariant
            i <= segs@.len(),
            pool.wf(),
            before.wf(),
            base == before.arena_base,
            ownership::segs_ok(segs@, base, before.arena.capacity as int),
            forall|b: int| #[trigger]
                ownership::segs_have(segs@, base, b) ==> !before.arena.free_at(b),
            pool@ == (pool::PoolView {
                arena: model::release(before.arena, base, segs@.take(i as int)),
                log: before.log + model::scrub(segs@.take(i as int)),
                ..before
            }),
        decreases segs@.len() - i,
    {
        let seg: Segment = segs[i];
        let ghost upto = segs@.take(i + 1);
        assert(upto.drop_last() =~= segs@.take(i as int));
        proof {
            assert forall|b: int| #[trigger] ownership::segs_have(
                upto,
                base,
                b,
            ) implies !before.arena.free_at(b) by {
                let k = choose|k: int|
                    0 <= k < upto.len() && ownership::seg_has(#[trigger] upto[k], base, b);
                assert(ownership::seg_has(segs@[k], base, b));
                assert(ownership::segs_have(segs@, base, b));
            }
            assert forall|k: int, l: int, b: int|
                0 <= k < l < upto.len() && #[trigger] ownership::seg_has(
                    upto[k],
                    base,
                    b,
                ) implies !#[trigger] ownership::seg_has(upto[l], base, b) by {
                assert(upto[k] == segs@[k] && upto[l] == segs@[l]);
            }
            assert forall|k: int| 0 <= k < upto.len() implies ownership::seg_in_arena(
                #[trigger] upto[k],
                base,
                before.arena.capacity as int,
            ) by {
                assert(upto[k] == segs@[k]);
            }
            ownership::lemma_release(before.arena, base, upto);
        }
        if seg.len != 0 {
            assert(ownership::seg_in_arena(segs@[i as int], base, before.arena.capacity as int));
            let _ = pool.free(seg.pool_addr, seg.len as u64);
        }
        i += 1;
        assert(pool@ =~= (pool::PoolView {
            arena: model::release(before.arena, base, segs@.take(i as int)),
            log: before.log + model::scrub(segs@.take(i as int)),
            ..before
        }));
    }
    assert(segs@.take(i as int) =~= segs@);
}

/// Copy the device-readable data of a chain into the pool.
fn copy_in_all(
    scratch: &mut Vec<u8>,
    guest_mem: &mut GuestMemoryMmap,
    pool: &mut BouncePool,
    segs: &Vec<Segment>,
) -> (data: Ghost<Seq<Seq<u8>>>)
    requires
        old(pool).wf(),
        old(scratch)@.len() == 0 || old(scratch)@.len() == COPY_CHUNK,
        forall|i: int|
            0 <= i < segs@.len() && (#[trigger] segs@[i]).len != 0 ==> {
                &&& memory::covers(
                    memory::mapped(*old(guest_mem)),
                    segs@[i].guest_addr,
                    segs@[i].len as int,
                )
                &&& segs@[i].guest_addr + segs@[i].len <= u64::MAX
                &&& segs@[i].pool_addr + segs@[i].len <= old(pool)@.size
            },
    ensures
        final(pool).wf(),
        final(scratch)@.len() == 0 || final(scratch)@.len() == COPY_CHUNK,
        memory::mapped(*final(guest_mem)) == memory::mapped(*old(guest_mem)),
        data@.len() == segs@.len(),
        forall|i: int|
            0 <= i < segs@.len() ==> (#[trigger] data@[i]).len() == if segs@[i].writable {
                0
            } else {
                segs@[i].len as int
            },
        memory::accesses(*final(guest_mem)) == memory::accesses(*old(guest_mem))
            + model::copy_in_reads(segs@, data@),
        final(pool)@ == old(pool)@.with_accesses(model::copy_in_writes(segs@, data@)),
{
    let ghost mut data = Seq::<Seq<u8>>::empty();
    let ghost map = memory::mapped(*guest_mem);
    let ghost reads = memory::accesses(*guest_mem);
    let ghost before = pool@;
    let mut i: usize = 0;
    assert(segs@.take(0) =~= Seq::empty());
    assert(pool@ =~= before.with_accesses(model::copy_in_writes(segs@.take(0), data)));
    assert(reads =~= reads + model::copy_in_reads(segs@.take(0), data));
    while i < segs.len()
        invariant
            i <= segs@.len(),
            pool.wf(),
            scratch@.len() == 0 || scratch@.len() == COPY_CHUNK,
            memory::mapped(*guest_mem) == map,
            forall|i: int|
                0 <= i < segs@.len() && (#[trigger] segs@[i]).len != 0 ==> {
                    &&& memory::covers(map, segs@[i].guest_addr, segs@[i].len as int)
                    &&& segs@[i].guest_addr + segs@[i].len <= u64::MAX
                    &&& segs@[i].pool_addr + segs@[i].len <= before.size
                },
            data.len() == i,
            forall|k: int|
                0 <= k < i ==> (#[trigger] data[k]).len() == if segs@[k].writable {
                    0
                } else {
                    segs@[k].len as int
                },
            memory::accesses(*guest_mem) == reads + model::copy_in_reads(
                segs@.take(i as int),
                data,
            ),
            pool@ == before.with_accesses(model::copy_in_writes(segs@.take(i as int), data)),
        decreases segs@.len() - i,
    {
        let seg: Segment = segs[i];
        let ghost mut bytes = Seq::<u8>::empty();
        let ghost mid = pool@;
        let ghost mid_reads = memory::accesses(*guest_mem);
        if seg.len != 0 && !seg.writable {
            let Ghost(copied) = pool.copy_in(
                scratch,
                guest_mem,
                seg.guest_addr,
                seg.pool_addr,
                seg.len,
            );
            proof {
                bytes = copied;
            }
        } else {
            assert(pool@ =~= mid.with_accesses(
                memory::piecewise_writes(seg.pool_addr as int, bytes, model::copy_chunk()),
            ));
            assert(mid_reads =~= mid_reads + memory::piecewise_reads(
                seg.guest_addr as int,
                bytes,
                model::copy_chunk(),
            ));
        }
        proof {
            let next = data.push(bytes);
            assert(next.drop_last() =~= data);
            assert(segs@.take(i + 1).drop_last() =~= segs@.take(i as int));
            data = next;
        }
        i += 1;
        assert(pool@ =~= before.with_accesses(model::copy_in_writes(segs@.take(i as int), data)));
        assert(memory::accesses(*guest_mem) =~= reads + model::copy_in_reads(
            segs@.take(i as int),
            data,
        ));
    }
    assert(segs@.take(i as int) =~= segs@);
    Ghost(data)
}

proof fn lemma_writable_total_step(segs: Seq<Segment>, i: int)
    requires
        0 <= i < segs.len(),
    ensures
        model::writable_total(segs.take(i + 1)) == model::writable_total(segs.take(i)) + if segs[i].writable {
            segs[i].len as int
        } else {
            0
        },
{
    assert(segs.take(i + 1).drop_last() =~= segs.take(i));
}

/// Device-writable bytes of a chain.
fn writable_bytes(segs: &Vec<Segment>) -> (r: u64)
    requires
        segs@.len() <= u16::MAX,
    ensures
        r == model::writable_total(segs@),
{
    let mut sum: u64 = 0;
    let mut i: usize = 0;
    while i < segs.len()
        invariant
            i <= segs@.len(),
            segs@.len() <= u16::MAX,
            sum == model::writable_total(segs@.take(i as int)),
            sum <= i * 0x1_0000_0000,
        decreases segs@.len() - i,
    {
        proof {
            lemma_writable_total_step(segs@, i as int);
        }
        if segs[i].writable {
            sum += segs[i].len as u64;
        }
        i += 1;
    }
    assert(segs@.take(i as int) =~= segs@);
    sum
}

/// Copy `len` device-written bytes back to the captured guest addresses,
/// filling the writable segments in chain order.
fn copy_back(
    scratch: &mut Vec<u8>,
    guest_mem: &mut GuestMemoryMmap,
    pool: &mut BouncePool,
    segs: &Vec<Segment>,
    len: u32,
) -> (r: (bool, Ghost<Seq<Seq<u8>>>))
    requires
        old(pool).wf(),
        old(scratch)@.len() == 0 || old(scratch)@.len() == COPY_CHUNK,
        forall|i: int|
            0 <= i < segs@.len() && (#[trigger] segs@[i]).len != 0 ==> {
                &&& segs@[i].guest_addr + segs@[i].len <= u64::MAX
                &&& segs@[i].pool_addr + segs@[i].len <= old(pool)@.size
            },
    ensures
        final(pool).wf(),
        final(scratch)@.len() == 0 || final(scratch)@.len() == COPY_CHUNK,
        memory::mapped(*final(guest_mem)) == memory::mapped(*old(guest_mem)),
        model::copied_back(memory::mapped(*old(guest_mem)), segs@, len as int, r.1@, r.0),
        memory::accesses(*final(guest_mem)) == memory::accesses(*old(guest_mem))
            + model::copy_back_writes(segs@, r.1@),
        final(pool)@ == old(pool)@.with_accesses(model::copy_back_reads(segs@, r.1@)),
{
    let ghost mut data = Seq::<Seq<u8>>::empty();
    let ghost map = memory::mapped(*guest_mem);
    let ghost writes = memory::accesses(*guest_mem);
    let ghost before = pool@;
    let mut remaining: u32 = len;
    let mut i: usize = 0;
    assert(pool@ =~= before.with_accesses(model::copy_back_reads(segs@, data)));
    assert(writes =~= writes + model::copy_back_writes(segs@, data));
    while i < segs.len()
        invariant
            i <= segs@.len(),
            pool.wf(),
            scratch@.len() == 0 || scratch@.len() == COPY_CHUNK,
            memory::mapped(*guest_mem) == map,
            map == memory::mapped(*old(guest_mem)),
            before == old(pool)@,
            writes == memory::accesses(*old(guest_mem)),
            forall|i: int|
                0 <= i < segs@.len() && (#[trigger] segs@[i]).len != 0 ==> {
                    &&& segs@[i].guest_addr + segs@[i].len <= u64::MAX
                    &&& segs@[i].pool_addr + segs@[i].len <= before.size
                },
            remaining <= len,
            remaining == if len <= model::writable_total(segs@.take(i as int)) {
                0
            } else {
                len - model::writable_total(segs@.take(i as int))
            },
            data.len() == i,
            forall|k: int|
                0 <= k < i ==> #[trigger] model::share_copied(map, segs@, len as int, data, k),
            memory::accesses(*guest_mem) == writes + model::copy_back_writes(segs@, data),
            pool@ == before.with_accesses(model::copy_back_reads(segs@, data)),
        decreases segs@.len() - i,
    {
        let seg: Segment = segs[i];
        let n: u32 = if !seg.writable {
            0
        } else if remaining < seg.len {
            remaining
        } else {
            seg.len
        };
        proof {
            lemma_writable_total_step(segs@, i as int);
        }
        assert(n == model::share(segs@, len as int, i as int));
        let ghost mut bytes = Seq::<u8>::empty();
        let ghost mid = pool@;
        let ghost mid_writes = memory::accesses(*guest_mem);
        let mut ok: bool = true;
        if n != 0 {
            let (taken, Ghost(copied)) = pool.copy_out(
                scratch,
                guest_mem,
                seg.pool_addr,
                seg.guest_addr,
                n,
            );
            ok = taken;
            proof {
                bytes = copied;
            }
        } else {
            assert(pool@ =~= mid.with_accesses(
                memory::piecewise_reads(seg.pool_addr as int, bytes, model::copy_chunk()),
            ));
            assert(mid_writes =~= mid_writes + memory::piecewise_writes(
                seg.guest_addr as int,
                bytes,
                model::copy_chunk(),
            ));
        }
        proof {
            let next = data.push(bytes);
            assert(next.drop_last() =~= data);
            data = next;
        }
        assert(pool@ =~= before.with_accesses(model::copy_back_reads(segs@, data)));
        assert(memory::accesses(*guest_mem) =~= writes + model::copy_back_writes(segs@, data));
        assert forall|k: int| 0 <= k < i implies #[trigger] model::share_copied(
            map,
            segs@,
            len as int,
            data,
            k,
        ) by {
            assert(model::share_copied(map, segs@, len as int, data.drop_last(), k));
        }
        assert(data.last() == bytes);
        if !ok {
            return (false, Ghost(data));
        }
        assert(model::share_copied(map, segs@, len as int, data, i as int));
        remaining -= n;
        i += 1;
    }
    (true, Ghost(data))
}

/// Mirrors one guest virtqueue into a shadow ring inside the pool.
pub struct ShadowQueue {
    queue_index: usize,
    size: u16,
    ring: RingOffsets,
    /// Free shadow descriptor slots (LIFO).
    free_slots: Vec<u16>,
    /// In-flight chains indexed by shadow head slot.
    inflight: Vec<Option<InflightChain>>,
    inflight_count: usize,
    shadow_avail_idx: u16,
    /// Next shadow used entry to consume.
    next_used: u16,
    /// Scratch buffer for chunked guest<->pool copies.
    scratch: Vec<u8>,
    fault: Option<QueueFault>,
    stalled: bool,
    /// Set once the current stall episode has been reported.
    stall_report: Option<StallReport>,
}

impl View for ShadowQueue {
    type V = ShadowView;

    closed spec fn view(&self) -> ShadowView {
        ShadowView {
            queue_index: self.queue_index,
            size: self.size,
            ring: self.ring,
            free_slots: self.free_slots@,
            inflight: table_view(self.inflight@),
            avail_idx: self.shadow_avail_idx,
            next_used: self.next_used,
            fault: self.fault,
            stalled: self.stalled,
            stall_report: self.stall_report,
        }
    }
}

/// The scene that a shadow queue, guest memory, a guest queue and a pool
/// make up.
pub open spec fn scene(
    sq: ShadowQueue,
    guest_mem: GuestMemoryMmap,
    guest_q: Queue,
    pool: BouncePool,
) -> Scene {
    Scene {
        queue: sq@,
        pool: pool@,
        guest: memory::accesses(guest_mem),
        ring: ring::ring_state(guest_q),
    }
}

/// How far one step of mirroring got.
enum Progress {
    /// Nothing was available.
    Idle,
    /// A chain was published.
    Published,
    /// A chain was left for later.
    Stalled,
    /// The queue stopped.
    Broken,
}

impl ShadowQueue {
    pub open spec fn wf(self) -> bool {
        self@.wf() && self.intact()
    }

    /// The count of in-flight chains is right and the scratch buffer has its
    /// size.
    pub closed spec fn intact(self) -> bool {
        &&& self.inflight_count == self@.inflight_total()
        &&& self.scratch@.len() == 0 || self.scratch@.len() == COPY_CHUNK
    }

    /// Create the shadow of a guest queue whose rings live at `ring`
    /// inside the pool.
    pub fn new(cfg: ShadowQueueConfig, ring: RingOffsets) -> (r: Self)
        ensures
            r.wf(),
            r@ == ownership::fresh(cfg.queue_index, cfg.queue_size, ring, 0),
            forall|pool: pool::PoolView| #[trigger]
                r@.backed(pool) == ownership::ring_fits(
                    ring,
                    cfg.queue_size as int,
                    pool.arena_base as int,
                ),
    {
        let free_slots = all_slots(cfg.queue_size);
        let inflight = empty_table(cfg.queue_size);
        proof {
            ownership::lemma_fresh(cfg.queue_index, cfg.queue_size, ring, 0);
        }
        let r = ShadowQueue {
            queue_index: cfg.queue_index,
            size: cfg.queue_size,
            ring,
            free_slots,
            inflight,
            inflight_count: 0,
            shadow_avail_idx: 0,
            next_used: 0,
            scratch: Vec::new(),
            fault: None,
            stalled: false,
            stall_report: None,
        };
        assert(r@ =~= ownership::fresh(cfg.queue_index, cfg.queue_size, ring, 0));
        r
    }

    /// Re-initialize counters for a fresh backend session starting at
    /// `base` (device activation or snapshot restore). Assumes the shadow
    /// rings have been zeroed and no chain is in flight.
    pub fn reset_session(&mut self, base: u16)
        requires
            old(self).wf(),
            old(self)@.inflight_total() == 0,
        ensures
            final(self).wf(),
            final(self)@ == ownership::fresh(
                old(self)@.queue_index,
                old(self)@.size,
                old(self)@.ring,
                base,
            ),
            forall|pool: pool::PoolView| #[trigger]
                final(self)@.backed(pool) == ownership::ring_fits(
                    old(self)@.ring,
                    old(self)@.size as int,
                    pool.arena_base as int,
                ),
    {
        proof {
            ownership::lemma_fresh(self.queue_index, self.size, self.ring, base);
        }
        self.free_slots = all_slots(self.size);
        self.inflight = empty_table(self.size);
        self.inflight_count = 0;
        self.shadow_avail_idx = base;
        self.next_used = base;
        self.fault = None;
        self.stalled = false;
        self.stall_report = None;
        assert(self@ =~= ownership::fresh(
            old(self)@.queue_index,
            old(self)@.size,
            old(self)@.ring,
            base,
        ));
    }

    /// Read the raw flags of the head descriptor of `chain` in the guest
    /// descriptor table. A descriptor beyond the last address is as
    /// inaccessible as one that is not mapped.
    fn head_flags(chain: &mut Chain, desc_table: u64) -> (r: Option<u16>)
        ensures
            ring::chain_head(*final(chain)) == ring::chain_head(*old(chain)),
            memory::accesses(ring::chain_memory(*final(chain))) == memory::accesses(
                ring::chain_memory(*old(chain)),
            ) + model::flags_load(desc_table, ring::chain_head(*old(chain)), r),
            model::flags_addr(desc_table, ring::chain_head(*old(chain))) > u64::MAX ==> r is None,
            memory::mapped(ring::chain_memory(*final(chain))) == memory::mapped(
                ring::chain_memory(*old(chain)),
            ),
    {
        // flags is the u16 at offset 12 of the 16-byte descriptor.
        let head: u16 = ring::head_index(chain);
        let offset: u64 = head as u64 * 16 + 12;
        let ghost log = memory::accesses(ring::chain_memory(*chain));
        let r = match desc_table.checked_add(offset) {
            Some(addr) => ring::load_relaxed(chain, addr),
            None => None,
        };
        assert(memory::accesses(ring::chain_memory(*chain)) =~= log + model::flags_load(
            desc_table,
            head,
            r,
        ));
        r
    }

    /// Record a fatal protocol violation; the queue stops processing in
    /// both directions until device reset.
    fn mark_broken(&mut self, fault: QueueFault)
        requires
            old(self).wf(),
        ensures
            final(self).wf(),
            final(self)@ == (ShadowView {
                fault: if old(self)@.fault is None {
                    Some(fault)
                } else {
                    old(self)@.fault
                },
                ..old(self)@
            }),
    {
        if self.fault.is_none() {
            self.fault = Some(fault);
        }
        proof {
            ownership::lemma_wf_ignores_status(old(self)@, self@);
        }
    }

    /// Enter (or stay in) a stall. Permanently unsatisfiable chains are
    /// reported once per episode.
    fn enter_stall(&mut self, needed: u64, capacity: u64)
        requires
            old(self).wf(),
        ensures
            final(self).wf(),
            final(self)@ == (ShadowView {
                stalled: true,
                stall_report: if needed > capacity && old(self)@.stall_report is None {
                    Some(StallReport { needed, capacity })
                } else {
                    old(self)@.stall_report
                },
                ..old(self)@
            }),
    {
        self.stalled = true;
        if needed > capacity && self.stall_report.is_none() {
            self.stall_report = Some(StallReport { needed, capacity });
        }
        proof {
            ownership::lemma_wf_ignores_status(old(self)@, self@);
        }
    }

    /// Take `n` slots off the free stack.
    fn take_slots(&mut self, n: usize) -> (slots: Vec<u16>)
        requires
            n <= old(self)@.free_slots.len(),
        ensures
            slots@ == model::next_slots(old(self)@.free_slots, n as int),
            final(self)@ == (ShadowView {
                free_slots: old(self)@.free_slots.take(old(self)@.free_slots.len() - n),
                ..old(self)@
            }),
            final(self).inflight_count == old(self).inflight_count,
            final(self).scratch == old(self).scratch,
            final(self).inflight == old(self).inflight,
    {
        let ghost free = self.free_slots@;
        let mut slots: Vec<u16> = Vec::new();
        let mut i: usize = 0;
        while i < n
            invariant
                i <= n,
                n <= free.len(),
                free == old(self)@.free_slots,
                self.free_slots@ == free.take(free.len() - i),
                slots@ == model::next_slots(free, i as int),
                self@ == (ShadowView { free_slots: free.take(free.len() - i), ..old(self)@ }),
                self.inflight_count == old(self).inflight_count,
                self.scratch == old(self).scratch,
                self.inflight == old(self).inflight,
            decreases n - i,
        {
            match self.free_slots.pop() {
                Some(slot) => {
                    slots.push(slot);
                },
                None => {},
            }
            i += 1;
            assert(self.free_slots@ =~= free.take(free.len() - i));
            assert(slots@ =~= model::next_slots(free, i as int));
            assert(self@ =~= (ShadowView { free_slots: free.take(free.len() - i), ..old(self)@ }));
        }
        slots
    }

    /// Write the rewritten chain into the shadow descriptor table and its
    /// head into the avail ring, and record it as in flight. The index store
    /// that follows makes it visible to the backend.
    fn publish_chain(&mut self, pool: &mut BouncePool, guest_head: u16, segments: Vec<Segment>)
        requires
            old(self).wf(),
            old(pool).wf(),
            ownership::ring_fits(
                old(self)@.ring,
                old(self)@.size as int,
                old(pool)@.arena_base as int,
            ),
            0 < segments@.len() <= old(self)@.free_slots.len(),
            old(self)@.inflight[model::next_slots(
                old(self)@.free_slots,
                segments@.len() as int,
            )[0] as int] is None,
        ensures
            final(pool).wf(),
            final(self).intact(),
            ({
                let q = old(self)@;
                let n = segments@.len() as int;
                let slots = model::next_slots(q.free_slots, n);
                &&& final(self)@ == (ShadowView {
                    free_slots: q.free_slots.take(q.free_slots.len() - n),
                    inflight: q.inflight.update(
                        slots[0] as int,
                        Some(ChainView { guest_head, segments: segments@, slots }),
                    ),
                    avail_idx: q.avail_idx.wrapping_add(1),
                    stalled: false,
                    stall_report: None,
                    ..q
                })
                &&& final(pool)@ == old(pool)@.with_accesses(
                    model::desc_writes(q.ring, segments@, slots).push(
                        (Access::WriteU16 {
                            addr: (q.ring.avail + 4 + 2 * (q.avail_idx as int % q.size as int)) as u64,
                            value: slots[0],
                        }),
                    ),
                )
            }),
    {
        let ghost q = self@;
        let ghost before = pool@;
        let count: usize = segments.len();
        let slots = self.take_slots(count);
        proof {
            ownership::lemma_next_slots(q.free_slots, count as int);
            assert forall|k: int| 0 <= k < slots@.len() implies (#[trigger] slots@[k]) < q.size by {
                assert(slots@.contains(slots@[k]));
                assert(q.free_slots.contains(slots@[k]));
            }
        }
        let ghost writes = model::desc_writes(q.ring, segments@, slots@);
        let mut i: usize = 0;
        assert(pool@ =~= before.with_accesses(writes.take(0)));
        while i < count
            invariant
                i <= count,
                count == segments@.len(),
                count == slots@.len(),
                pool.wf(),
                before.wf(),
                self.ring == q.ring,
                ownership::ring_fits(q.ring, q.size as int, before.arena_base as int),
                forall|k: int| 0 <= k < slots@.len() ==> (#[trigger] slots@[k]) < q.size,
                writes == model::desc_writes(q.ring, segments@, slots@),
                pool@ == before.with_accesses(writes.take(i as int)),
            decreases count - i,
        {
            let seg: Segment = segments[i];
            let more: bool = i + 1 < count;
            let write_flag: u16 = if seg.writable {
                ring::VRING_DESC_F_WRITE
            } else {
                0
            };
            let next_flag: u16 = if more {
                ring::VRING_DESC_F_NEXT
            } else {
                0
            };
            let next: u16 = if more {
                slots[i + 1]
            } else {
                0
            };
            let shadow = Descriptor {
                addr: seg.pool_addr,
                len: seg.len,
                flags: write_flag | next_flag,
                next,
            };
            let slot: u16 = slots[i];
            pool.write_desc(shadow, self.ring.desc + slot as u64 * 16);
            assert(writes.take(i + 1) =~= writes.take(i as int).push(writes[i as int]));
            i += 1;
            assert(pool@ =~= before.with_accesses(writes.take(i as int)));
        }
        assert(writes.take(i as int) =~= writes);

        let head_slot: u16 = slots[0];
        let pos: u16 = self.shadow_avail_idx % self.size;
        pool.write_u16(head_slot, self.ring.avail + 4 + pos as u64 * 2);
        self.shadow_avail_idx = self.shadow_avail_idx.wrapping_add(1);

        let ghost table = self.inflight@;
        let ghost chain = ChainView { guest_head, segments: segments@, slots: slots@ };
        proof {
            ownership::lemma_occupied_update(q.inflight, head_slot as int, Some(chain));
            ownership::lemma_occupied_bounds(
                q.inflight.update(head_slot as int, Some(chain)),
            );
        }
        self.inflight.set(head_slot as usize, Some(InflightChain { guest_head, segments, slots }));
        assert(table_view(self.inflight@) =~= table_view(table).update(
            head_slot as int,
            Some(chain),
        ));
        self.inflight_count += 1;
        self.stalled = false;
        self.stall_report = None;
        assert(self@ =~= (ShadowView {
            free_slots: q.free_slots.take(q.free_slots.len() - count),
            inflight: q.inflight.update(head_slot as int, Some(chain)),
            avail_idx: q.avail_idx.wrapping_add(1),
            stalled: false,
            stall_report: None,
            ..q
        }));
        assert(pool@ =~= before.with_accesses(
            writes.push(
                Access::WriteU16 {
                    addr: (q.ring.avail + 4 + 2 * (q.avail_idx as int % q.size as int)) as u64,
                    value: head_slot,
                },
            ),
        ));
    }

    /// Translate the next guest avail entry, if there is one.
    fn mirror_next(
        &mut self,
        guest_mem: &mut GuestMemoryMmap,
        guest_q: &mut Queue,
        pool: &mut BouncePool,
    ) -> (r: (Progress, Ghost<Arrival>))
        requires
            old(self).wf(),
            old(pool).wf(),
            old(self)@.backed(old(pool)@),
            old(self)@.fault is None,
        ensures
            final(self).wf(),
            final(pool).wf(),
            final(self)@.backed(final(pool)@),
            memory::mapped(*final(guest_mem)) == memory::mapped(*old(guest_mem)),
            ({
                let s = scene(*old(self), *old(guest_mem), *old(guest_q), *old(pool));
                let t = scene(*final(self), *final(guest_mem), *final(guest_q), *final(pool));
                let v = model::verdict(s, memory::mapped(*old(guest_mem)), r.1@);
                &&& ownership::conserved(s, t)
                &&& match r.0 {
                    Progress::Idle => t == (Scene {
                        guest: s.guest.push((Access::PopChain { popped: None })),
                        ..s
                    }),
                    Progress::Published => {
                        &&& v is Publish
                        &&& model::arrival_ok(r.1@)
                        &&& t == model::published(s, r.1@)
                        &&& r.1@.descs.len() > 0
                    },
                    Progress::Stalled => v is Stall && t == model::stalled(s, r.1@),
                    Progress::Broken => {
                        &&& v is Broken
                        &&& t == model::broken(model::taken(s, r.1@), v->Broken_0)
                    },
                }
            }),
    {
        let ghost s = scene(*self, *guest_mem, *guest_q, *pool);
        let ghost map = memory::mapped(*guest_mem);
        let mut chain = match ring::pop_chain(guest_q, guest_mem) {
            Some(chain) => chain,
            None => {
                assert(scene(*self, *guest_mem, *guest_q, *pool) =~= (Scene {
                    guest: s.guest.push((Access::PopChain { popped: None })),
                    ..s
                }));
                return (Progress::Idle, Ghost(model::no_arrival()));
            },
        };
        let head: u16 = ring::head_index(&chain);

        // Detect indirect chains before walking them: the walk transparently
        // resolves indirect tables, which the bounce path does not support
        // (yet).
        let flags: Option<u16> = Self::head_flags(&mut chain, ring::state(guest_q).desc_table);
        let plain: bool = match flags {
            Some(flags) => flags & ring::VRING_DESC_F_INDIRECT == 0,
            None => false,
        };
        let descs: Vec<Descriptor> = if plain {
            ring::walk(&mut chain)
        } else {
            Vec::new()
        };
        *guest_mem = ring::memory_of(chain);
        let ghost a = Arrival { head, descs: descs@, flags, data: Seq::empty() };
        assert(scene(*self, *guest_mem, *guest_q, *pool) =~= model::taken(s, a));

        // A walk stops silently on loops, overlong chains and unreadable
        // descriptor tables; the last descriptor then still claims a
        // successor.
        let fault: Option<QueueFault> = match flags {
            None => Some(QueueFault::DescTableInaccessible),
            Some(flags) => {
                if flags & ring::VRING_DESC_F_INDIRECT != 0 {
                    Some(QueueFault::IndirectDescriptors)
                } else if descs.len() == 0 || descs[descs.len() - 1].has_next() {
                    Some(QueueFault::MalformedChain)
                } else if !buffers_in_memory(guest_mem, &descs) {
                    Some(QueueFault::BufferOutsideGuestMemory)
                } else {
                    None
                }
            },
        };
        match fault {
            Some(fault) => {
                self.mark_broken(fault);
                proof {
                    ownership::lemma_wf_ignores_status(s.queue, self@);
                }
                assert(scene(*self, *guest_mem, *guest_q, *pool) =~= model::broken(
                    model::taken(s, a),
                    fault,
                ));
                return (Progress::Broken, Ghost(a));
            },
            None => {},
        }
        let needed: u64 = arena_bytes_needed(&descs);

        // Reserve shadow descriptor slots and pool extents, all-or-nothing:
        // on failure roll everything back, rewind the guest queue cursor and
        // stall until completions free space.
        if self.free_slots.len() < descs.len() {
            ring::rewind(guest_q);
            self.enter_stall(needed, pool.buffer_capacity());
            proof {
                ownership::lemma_wf_ignores_status(s.queue, self@);
            }
            assert(scene(*self, *guest_mem, *guest_q, *pool) =~= model::stalled(s, a));
            return (Progress::Stalled, Ghost(a));
        }
        let ghost plan = model::reserve(s.pool.arena, s.pool.arena_base, descs@);
        proof {
            ownership::lemma_reserve(s.pool.arena, s.pool.arena_base, descs@);
        }
        let (segments, reserved) = reserve(pool, &descs);
        if !reserved {
            free_segments(pool, &segments);
            proof {
                ownership::law_rollback_restores_arena(s.pool.arena, s.pool.arena_base, descs@);
            }
            ring::rewind(guest_q);
            self.enter_stall(needed, pool.buffer_capacity());
            proof {
                ownership::lemma_wf_ignores_status(s.queue, self@);
            }
            assert(pool@ =~= s.pool.with_accesses(model::scrub(plan.segments)));
            assert(scene(*self, *guest_mem, *guest_q, *pool) =~= model::stalled(s, a));
            return (Progress::Stalled, Ghost(a));
        }
        // Copy device-readable data into the pool.
        proof {
            ownership::lemma_published(s, map, a);
            assert forall|i: int|
                0 <= i < segments@.len() && (#[trigger] segments@[i]).len != 0 implies {
                &&& memory::covers(map, segments@[i].guest_addr, segments@[i].len as int)
                &&& segments@[i].guest_addr + segments@[i].len <= u64::MAX
                &&& segments@[i].pool_addr + segments@[i].len <= pool@.size
            } by {
                assert(segments@[i] == model::segment_of(descs@[i], segments@[i].pool_addr));
                assert(descs@[i].len != 0);
                assert(ownership::seg_in_arena(
                    segments@[i],
                    s.pool.arena_base,
                    s.pool.arena.capacity as int,
                ));
            }
        }
        let Ghost(data) = copy_in_all(&mut self.scratch, guest_mem, pool, &segments);
        assert(self@ == s.queue);
        let ghost b = Arrival { head, descs: descs@, flags, data };
        proof {
            ownership::lemma_published(s, map, b);
            assert forall|i: int| 0 <= i < descs@.len() implies (#[trigger] data[i]).len()
                == model::reads_len(descs@[i]) by {
                assert(segments@[i] == model::segment_of(descs@[i], segments@[i].pool_addr));
            }
        }
        self.publish_chain(pool, head, segments);
        assert(scene(*self, *guest_mem, *guest_q, *pool) =~= model::published(s, b));
        (Progress::Published, Ghost(b))
    }

    /// Translate new guest avail entries into the shadow ring: allocate
    /// pool extents, copy device-readable data in, publish rewritten
    /// descriptor chains.
    pub fn mirror_avail(
        &mut self,
        guest_mem: &mut GuestMemoryMmap,
        guest_q: &mut Queue,
        pool: &mut BouncePool,
    ) -> (out: MirrorOutcome)
        requires
            old(self).wf(),
            old(pool).wf(),
            old(self)@.backed(old(pool)@),
        ensures
            final(self).wf(),
            final(pool).wf(),
            final(self)@.backed(final(pool)@),
            memory::mapped(*final(guest_mem)) == memory::mapped(*old(guest_mem)),
            ({
                let s = scene(*old(self), *old(guest_mem), *old(guest_q), *old(pool));
                let t = scene(*final(self), *final(guest_mem), *final(guest_q), *final(pool));
                &&& ownership::conserved(s, t)
                &&& s.queue.fault is Some ==> t == s && out == (MirrorOutcome {
                    chains: 0,
                    stalled: false,
                })
                &&& s.queue.fault is None ==> exists|xs: Seq<Arrival>, done: bool|
                    model::mirrored(s, memory::mapped(*old(guest_mem)), xs, done, t, out)
            }),
    {
        let mut out = MirrorOutcome { chains: 0, stalled: false };
        let ghost s = scene(*self, *guest_mem, *guest_q, *pool);
        let ghost map = memory::mapped(*guest_mem);
        if self.fault.is_some() {
            return out;
        }
        let ghost mut xs = Seq::<Arrival>::empty();
        let ghost mut idle = false;
        let mut more: bool = true;
        proof {
            ownership::lemma_free_slot_count(s.queue);
        }
        while more
            invariant
                self.wf(),
                pool.wf(),
                self@.backed(pool@),
                memory::mapped(*guest_mem) == map,
                self@.size == s.queue.size,
                self@.ring == s.queue.ring,
                ownership::conserved(s, scene(*self, *guest_mem, *guest_q, *pool)),
                out.chains + self@.free_slots.len() <= u16::MAX,
                more ==> {
                    &&& !idle
                    &&& self@.fault is None
                    &&& !out.stalled
                    &&& out.chains == xs.len()
                    &&& model::all_published(s, map, xs, xs.len() as int)
                    &&& scene(*self, *guest_mem, *guest_q, *pool) == model::arrive_all(s, map, xs)
                },
                !more && idle ==> {
                    let end = model::arrive_all(s, map, xs);
                    &&& !out.stalled
                    &&& out.chains == xs.len()
                    &&& model::all_published(s, map, xs, xs.len() as int)
                    &&& scene(*self, *guest_mem, *guest_q, *pool) == (Scene {
                        guest: end.guest.push((Access::PopChain { popped: None })),
                        ..end
                    })
                },
                !more && !idle ==> {
                    let stop = model::verdict(
                        model::arrive_all(s, map, xs.drop_last()),
                        map,
                        xs.last(),
                    );
                    &&& xs.len() > 0
                    &&& out.chains == xs.len() - 1
                    &&& model::all_published(s, map, xs, xs.len() - 1)
                    &&& !(stop is Publish)
                    &&& out.stalled == (stop is Stall)
                    &&& scene(*self, *guest_mem, *guest_q, *pool) == model::arrive_all(s, map, xs)
                },
            decreases (if more { 1int } else { 0 }), self@.free_slots.len(),
        {
            let ghost here = scene(*self, *guest_mem, *guest_q, *pool);
            let (progress, Ghost(a)) = self.mirror_next(guest_mem, guest_q, pool);
            let ghost t = scene(*self, *guest_mem, *guest_q, *pool);
            proof {
                ownership::lemma_conserved_chain(s, here, t);
                if !(progress is Idle) {
                    let next = xs.push(a);
                    assert(next.drop_last() =~= xs);
                    assert(next.last() == a);
                    model::lemma_all_published_push(s, map, xs, a);
                    xs = next;
                }
            }
            match progress {
                Progress::Idle => {
                    more = false;
                    proof {
                        idle = true;
                    }
                },
                Progress::Published => {
                    out.chains += 1;
                },
                Progress::Stalled => {
                    out.stalled = true;
                    more = false;
                },
                Progress::Broken => {
                    more = false;
                },
            }
        }
        let ghost end = scene(*self, *guest_mem, *guest_q, *pool);
        let mut done: bool = true;
        if out.chains > 0 {
            // Release-store the new shadow avail index: everything written
            // above becomes visible to the backend no later than this.
            done = pool.store_index(self.shadow_avail_idx, self.ring.avail + 2);
            if !done {
                self.mark_broken(QueueFault::AvailIndexStoreFailed);
            }
        }
        proof {
            let t = scene(*self, *guest_mem, *guest_q, *pool);
            assert(t =~= model::announced(end, out.chains as int, done));
            ownership::lemma_wf_ignores_status(end.queue, self@);
            ownership::lemma_conserved_chain(s, end, t);
            assert(model::mirrored(s, map, xs, done, t, out));
        }
        out
    }

    /// Free a completed (or aborted) chain's pool extents and recycle its
    /// shadow descriptor slots.
    fn release_chain(&mut self, pool: &mut BouncePool, chain: &InflightChain)
        requires
            old(pool).wf(),
            ownership::segs_ok(
                chain@.segments,
                old(pool)@.arena_base,
                old(pool)@.arena.capacity as int,
            ),
            forall|b: int| #[trigger]
                ownership::segs_have(chain@.segments, old(pool)@.arena_base, b) ==> !old(
                    pool,
                )@.arena.free_at(b),
        ensures
            final(pool).wf(),
            final(pool)@ == (pool::PoolView {
                arena: model::release(
                    old(pool)@.arena,
                    old(pool)@.arena_base,
                    chain@.segments,
                ),
                log: old(pool)@.log + model::scrub(chain@.segments),
                ..old(pool)@
            }),
            final(self)@ == (ShadowView {
                free_slots: old(self)@.free_slots + chain@.slots,
                ..old(self)@
            }),
            final(self).inflight_count == old(self).inflight_count,
            final(self).scratch == old(self).scratch,
    {
        free_segments(pool, &chain.segments);
        let ghost q = self@;
        let mut i: usize = 0;
        assert(self@ =~= (ShadowView {
            free_slots: q.free_slots + chain.slots@.take(0),
            ..q
        }));
        while i < chain.slots.len()
            invariant
                i <= chain.slots@.len(),
                self@ == (ShadowView {
                    free_slots: q.free_slots + chain.slots@.take(i as int),
                    ..q
                }),
                self.inflight_count == old(self).inflight_count,
                self.scratch == old(self).scratch,
            decreases chain.slots@.len() - i,
        {
            let slot: u16 = chain.slots[i];
            self.free_slots.push(slot);
            i += 1;
            assert(self@ =~= (ShadowView {
                free_slots: q.free_slots + chain.slots@.take(i as int),
                ..q
            }));
        }
        assert(chain.slots@.take(i as int) =~= chain.slots@);
    }

    /// Take the chain that used id `id` stands for out of the in-flight
    /// table.
    fn take_inflight(&mut self, id: u32) -> (r: Option<InflightChain>)
        requires
            old(self).wf(),
        ensures
            match model::lookup(old(self)@, id) {
                None => r is None && *final(self) == *old(self),
                Some(chain) => {
                    &&& r is Some
                    &&& r->0@ == chain
                    &&& final(self)@ == (ShadowView {
                        inflight: old(self)@.inflight.update(id as int, None),
                        ..old(self)@
                    })
                    &&& final(self).inflight_count == old(self).inflight_count - 1
                    &&& final(self).scratch == old(self).scratch
                },
            },
    {
        if id >= self.size as u32 {
            return None;
        }
        let ghost q = self@;
        let ghost table = self.inflight@;
        if self.inflight[id as usize].is_none() {
            return None;
        }
        let mut entry: Option<InflightChain> = None;
        std::mem::swap(&mut entry, &mut self.inflight[id as usize]);
        assert(table_view(self.inflight@) =~= table_view(table).update(id as int, None));
        proof {
            ownership::lemma_occupied_update(q.inflight, id as int, None);
            ownership::lemma_occupied_bounds(q.inflight.update(id as int, None));
        }
        self.inflight_count -= 1;
        assert(self@ =~= (ShadowView { inflight: q.inflight.update(id as int, None), ..q }));
        entry
    }

    /// Consume the next shadow used entry. Returns whether it went through
    /// to the guest.
    fn complete_next(
        &mut self,
        guest_mem: &mut GuestMemoryMmap,
        guest_q: &mut Queue,
        pool: &mut BouncePool,
    ) -> (r: (bool, Ghost<Completion>))
        requires
            old(self).wf(),
            old(pool).wf(),
            old(self)@.backed(old(pool)@),
            old(self)@.fault is None,
        ensures
            final(self).wf(),
            final(pool).wf(),
            final(self)@.backed(final(pool)@),
            memory::mapped(*final(guest_mem)) == memory::mapped(*old(guest_mem)),
            ({
                let s = scene(*old(self), *old(guest_mem), *old(guest_q), *old(pool));
                let t = scene(*final(self), *final(guest_mem), *final(guest_q), *final(pool));
                &&& ownership::conserved(s, t)
                &&& model::completion_ok(s, memory::mapped(*old(guest_mem)), r.1@)
                &&& r.0 == model::succeeds(s, r.1@)
                &&& t == model::complete(s, r.1@)
                &&& t.ring.event_idx == s.ring.event_idx
                &&& r.0 ==> t.queue.inflight_total() == s.queue.inflight_total() - 1
                    && t.queue.fault is None
            }),
    {
        let ghost s = scene(*self, *guest_mem, *guest_q, *pool);
        let ghost map = memory::mapped(*guest_mem);
        let mut id: u32 = 0;
        let mut claimed: u32 = 0;
        // A ring without entries holds no element; no id is known there.
        if self.size != 0 {
            let pos: u16 = self.next_used % self.size;
            let elem_addr: u64 = self.ring.used + 4 + pos as u64 * 8;
            id = pool.read_u32(elem_addr);
            claimed = pool.read_u32(elem_addr + 4);
        }
        assert(scene(*self, *guest_mem, *guest_q, *pool) =~= model::fetched(
            s,
            Completion {
                id,
                len: claimed,
                data: Seq::empty(),
                copied: false,
                added: false,
                counted: false,
            },
        ));

        // Translate the shadow head back to the captured chain.
        let chain = match self.take_inflight(id) {
            Some(chain) => chain,
            None => {
                let ghost c = Completion {
                    id,
                    len: claimed,
                    data: Seq::empty(),
                    copied: false,
                    added: false,
                    counted: false,
                };
                self.mark_broken(QueueFault::UnknownUsedId);
                proof {
                    ownership::lemma_wf_ignores_status(s.queue, self@);
                    assert(scene(*self, *guest_mem, *guest_q, *pool) =~= model::complete(s, c));
                }
                return (false, Ghost(c));
            },
        };
        proof {
            assert(ownership::chain_ok(s.queue.inflight[id as int]->0, id as int));
            ownership::lemma_chain_len(s.queue, id as int);
            assert forall|b: int| #[trigger] ownership::segs_have(
                chain@.segments,
                s.pool.arena_base,
                b,
            ) implies !s.pool.arena.free_at(b) by {
                assert(s.queue.owns(s.pool.arena_base, id as int, b));
            }
            assert(s.queue.inflight[id as int] is Some);
            assert forall|i: int|
                0 <= i < chain@.segments.len() && (#[trigger] chain@.segments[i]).len != 0 implies {
                &&& chain@.segments[i].guest_addr + chain@.segments[i].len <= u64::MAX
                &&& chain@.segments[i].pool_addr + chain@.segments[i].len <= s.pool.size
            } by {
                assert(ownership::seg_in_arena(
                    chain@.segments[i],
                    s.pool.arena_base,
                    s.pool.arena.capacity as int,
                ));
            }
        }

        // Never trust the backend's written length beyond the chain's
        // device-writable capacity.
        let writable_total: u64 = writable_bytes(&chain.segments);
        let len: u32 = if claimed as u64 <= writable_total {
            claimed
        } else {
            writable_total as u32
        };
        assert(len == model::capped_len(chain@.segments, claimed));

        // Copy device-written data back to the captured guest addresses.
        let (copied, Ghost(data)) = copy_back(
            &mut self.scratch,
            guest_mem,
            pool,
            &chain.segments,
            len,
        );
        self.release_chain(pool, &chain);
        let ghost half = Completion { id, len: claimed, data, copied, added: false, counted: false };
        proof {
            ownership::lemma_returned(s, half, chain@);
            assert(scene(*self, *guest_mem, *guest_q, *pool) =~= model::returned(
                s,
                half,
                chain@,
            ));
        }
        if !copied {
            self.mark_broken(QueueFault::WriteBackFailed);
            proof {
                let t = scene(*self, *guest_mem, *guest_q, *pool);
                let m = model::returned(s, half, chain@);
                ownership::lemma_wf_ignores_status(m.queue, t.queue);
                ownership::lemma_conserved_chain(s, m, t);
                assert(t =~= model::complete(s, half));
            }
            return (false, Ghost(half));
        }
        let ghost ring_before = ring::ring_state(*guest_q);
        let added: bool = ring::add_used(guest_q, guest_mem, chain.guest_head, len);
        let ghost c = Completion {
            id,
            len: claimed,
            data,
            copied,
            added,
            counted: added || ring::ring_state(*guest_q) != ring_before,
        };
        assert(model::returned(s, c, chain@) == model::returned(s, half, chain@));
        if !added {
            self.mark_broken(QueueFault::UsedPublishFailed);
        } else {
            self.next_used = self.next_used.wrapping_add(1);
        }
        proof {
            let t = scene(*self, *guest_mem, *guest_q, *pool);
            let m = model::returned(s, c, chain@);
            ownership::lemma_wf_ignores_status(m.queue, t.queue);
            ownership::lemma_conserved_chain(s, m, t);
            assert(t =~= model::complete(s, c));
        }
        (added, Ghost(c))
    }

    /// Whether the guest wants an interrupt for freshly published used
    /// entries. `needs_notification` provides the ordering fence and the
    /// EVENT_IDX logic when that feature is enabled; without it the
    /// advisory VRING_AVAIL_F_NO_INTERRUPT flag is honored directly
    /// (virtio-queue does not implement it).
    fn guest_needs_interrupt(guest_mem: &mut GuestMemoryMmap, guest_q: &mut Queue) -> (r: (
        bool,
        Ghost<(Option<bool>, Option<u16>)>,
    ))
        ensures
            r.0 == model::wants_interrupt(r.1@.0, r.1@.1),
            !ring::ring_state(*old(guest_q)).event_idx ==> r.1@.0 == Some(true),
            ring::ring_state(*final(guest_q)) == ring::ring_state(*old(guest_q)),
            memory::mapped(*final(guest_mem)) == memory::mapped(*old(guest_mem)),
            memory::accesses(*final(guest_mem)) == memory::accesses(*old(guest_mem)).push(
                (Access::AskNotification { answer: r.1@.0 }),
            ).push(
                (Access::LoadU16 {
                    addr: ring::ring_state(*old(guest_q)).avail_ring,
                    order: LoadOrder::Relaxed,
                    loaded: r.1@.1,
                }),
            ),
    {
        let answer: Option<bool> = ring::needs_notification(guest_q, guest_mem);
        let flags: Option<u16> = memory::load_u16(
            guest_mem,
            ring::state(guest_q).avail_ring,
            LoadOrder::Relaxed,
        );
        let base: bool = match answer {
            Some(wanted) => wanted,
            None => true,
        };
        let allowed: bool = match flags {
            Some(flags) => flags & ring::VRING_AVAIL_F_NO_INTERRUPT == 0,
            None => true,
        };
        (base && allowed, Ghost((answer, flags)))
    }

    /// Consume new shadow used entries: copy device-written data back to
    /// the captured guest buffers, free + scrub pool extents, publish
    /// guest used entries.
    pub fn complete_used(
        &mut self,
        guest_mem: &mut GuestMemoryMmap,
        guest_q: &mut Queue,
        pool: &mut BouncePool,
    ) -> (out: CompleteOutcome)
        requires
            old(self).wf(),
            old(pool).wf(),
            old(self)@.backed(old(pool)@),
        ensures
            final(self).wf(),
            final(pool).wf(),
            final(self)@.backed(final(pool)@),
            memory::mapped(*final(guest_mem)) == memory::mapped(*old(guest_mem)),
            ({
                let s = scene(*old(self), *old(guest_mem), *old(guest_q), *old(pool));
                let t = scene(*final(self), *final(guest_mem), *final(guest_q), *final(pool));
                &&& ownership::conserved(s, t)
                &&& s.queue.fault is Some ==> t == s && out == (CompleteOutcome {
                    chains: 0,
                    needs_interrupt: false,
                })
                &&& s.queue.fault is None ==> exists|h: Harvest| #[trigger]
                    model::completed(s, memory::mapped(*old(guest_mem)), h, t, out)
            }),
    {
        let mut out = CompleteOutcome { chains: 0, needs_interrupt: false };
        let ghost s = scene(*self, *guest_mem, *guest_q, *pool);
        let ghost map = memory::mapped(*guest_mem);
        if self.fault.is_some() {
            return out;
        }
        let loaded: Option<u16> = pool.load_index(self.ring.used + 2);
        let ghost start = scene(*self, *guest_mem, *guest_q, *pool);
        assert(start =~= model::index_loaded(s, loaded));
        let idx: u16 = match loaded {
            Some(idx) => idx,
            None => {
                self.mark_broken(QueueFault::UsedIndexLoadFailed);
                proof {
                    let t = scene(*self, *guest_mem, *guest_q, *pool);
                    let h = Harvest {
                        used_idx: None,
                        completions: Seq::empty(),
                        answer: None,
                        flags: None,
                    };
                    ownership::lemma_wf_ignores_status(s.queue, t.queue);
                    assert(t =~= model::broken(start, QueueFault::UsedIndexLoadFailed));
                    assert(model::completed(s, map, h, t, out));
                }
                return out;
            },
        };
        let ghost mut cs = Seq::<Completion>::empty();
        let mut ok: bool = true;
        proof {
            ownership::lemma_occupied_bounds(s.queue.inflight);
        }
        while ok && self.next_used != idx
            invariant
                self.wf(),
                pool.wf(),
                self@.backed(pool@),
                ring::ring_state(*guest_q).event_idx == s.ring.event_idx,
                memory::mapped(*guest_mem) == map,
                ownership::conserved(s, scene(*self, *guest_mem, *guest_q, *pool)),
                scene(*self, *guest_mem, *guest_q, *pool) == model::complete_all(start, cs),
                0 <= self@.inflight_total(),
                !out.needs_interrupt,
                ok ==> {
                    &&& self@.fault is None
                    &&& out.chains == cs.len()
                    &&& out.chains + self@.inflight_total() <= u16::MAX
                    &&& model::all_succeed(start, map, cs, idx, cs.len() as int)
                },
                !ok ==> {
                    let at = model::complete_all(start, cs.drop_last());
                    &&& cs.len() > 0
                    &&& out.chains == cs.len() - 1
                    &&& model::all_succeed(start, map, cs, idx, cs.len() - 1)
                    &&& at.queue.next_used != idx
                    &&& model::completion_ok(at, map, cs.last())
                    &&& !model::succeeds(at, cs.last())
                },
            decreases (if ok { 1int } else { 0 }), self@.inflight_total(),
        {
            let ghost here = scene(*self, *guest_mem, *guest_q, *pool);
            let (went_through, Ghost(c)) = self.complete_next(guest_mem, guest_q, pool);
            ok = went_through;
            proof {
                let t = scene(*self, *guest_mem, *guest_q, *pool);
                ownership::lemma_conserved_chain(s, here, t);
                let next = cs.push(c);
                assert(next.drop_last() =~= cs);
                model::lemma_all_succeed_push(start, map, cs, c, idx);
                ownership::lemma_occupied_bounds(here.queue.inflight);
                ownership::lemma_occupied_bounds(t.queue.inflight);
                cs = next;
            }
            if ok {
                out.chains += 1;
            }
        }
        let ghost end = scene(*self, *guest_mem, *guest_q, *pool);
        let ghost mut answer: Option<bool> = None;
        let ghost mut flags: Option<u16> = None;
        if out.chains > 0 {
            let (needed, Ghost(said)) = Self::guest_needs_interrupt(guest_mem, guest_q);
            out.needs_interrupt = needed;
            proof {
                answer = said.0;
                flags = said.1;
            }
        }
        proof {
            let t = scene(*self, *guest_mem, *guest_q, *pool);
            let h = Harvest { used_idx: Some(idx), completions: cs, answer, flags };
            assert(t =~= model::asked(end, out.chains as int, answer, flags));
            ownership::lemma_wf_ignores_status(end.queue, t.queue);
            ownership::lemma_conserved_chain(s, end, t);
            assert(model::completed(s, map, h, t, out));
        }
        out
    }

    /// Chains currently owned by the backend.
    pub fn inflight_count(&self) -> (r: usize)
        requires
            self.wf(),
        ensures
            r == self@.inflight_total(),
    {
        self.inflight_count
    }

    /// True when no chain is in flight, i.e. every request handed to the
    /// backend has been copied back to the guest. A snapshot is only
    /// consistent once every queue reports drained.
    pub fn verify_drained(&self) -> (r: bool)
        requires
            self.wf(),
        ensures
            r == (self@.inflight_total() == 0),
            r == (forall|h: int|
                0 <= h < self@.inflight.len() ==> (#[trigger] self@.inflight[h]) is None),
    {
        proof {
            ownership::lemma_occupied_bounds(self@.inflight);
        }
        self.inflight_count == 0
    }

    /// A spec violation was detected; the queue no longer processes
    /// anything (until device reset).
    pub fn is_broken(&self) -> (r: bool)
        ensures
            r == (self@.fault is Some),
    {
        self.fault.is_some()
    }

    /// Why the queue stopped, if it did.
    pub fn fault(&self) -> (r: Option<QueueFault>)
        ensures
            r == self@.fault,
    {
        self.fault
    }

    /// The queue is waiting for completions to free pool resources.
    pub fn is_stalled(&self) -> (r: bool)
        ensures
            r == self@.stalled,
    {
        self.stalled
    }

    /// The chain that the current stall episode cannot place in any pool
    /// state, if there is one.
    pub fn stall_report(&self) -> (r: Option<StallReport>)
        ensures
            r == self@.stall_report,
    {
        self.stall_report
    }

    /// Whether the current stall episode has been reported.
    pub fn stall_logged(&self) -> (r: bool)
        ensures
            r == (self@.stall_report is Some),
    {
        self.stall_report.is_some()
    }
}

/// All slots of a table of `size` entries, slot 0 on top of the stack.
fn all_slots(size: u16) -> (r: Vec<u16>)
    ensures
        r@ == ownership::slot_stack(size),
{
    let mut slots: Vec<u16> = Vec::new();
    let mut i: u16 = 0;
    while i < size
        invariant
            i <= size,
            slots@ == ownership::slot_stack(size).take(i as int),
        decreases size - i,
    {
        slots.push(size - 1 - i);
        i += 1;
        assert(slots@ =~= ownership::slot_stack(size).take(i as int));
    }
    assert(slots@ =~= ownership::slot_stack(size));
    slots
}

/// An in-flight table of `size` entries without a chain.
fn empty_table(size: u16) -> (r: Vec<Option<InflightChain>>)
    ensures
        table_view(r@) == Seq::new(size as nat, |i: int| None::<ChainView>),
{
    let mut table: Vec<Option<InflightChain>> = Vec::new();
    let mut i: u16 = 0;
    while i < size
        invariant
            i <= size,
            table@.len() == i,
            forall|k: int| 0 <= k < i ==> (#[trigger] table@[k]) is None,
        decreases size - i,
    {
        table.push(None);
        i += 1;
    }
    assert(table_view(table@) =~= Seq::new(size as nat, |i: int| None::<ChainView>));
    table
}

} // verus!
