//! What mirroring and completing do, step by step.
//!
//! A shadow queue works on four things at once: its own state, the pool, the
//! guest's memory and the guest's virtqueue. A [`Scene`] holds all four. One
//! guest chain that arrives, and one completion that the backend returns,
//! each take a scene to the next; what the guest and the backend contributed
//! to a step (descriptors, data, used elements) is its input.

use super::allocator::{self, Arena};
use super::memory::{self, Access, LoadOrder};
use super::pool::{self, PoolView, RingOffsets};
use super::ring::{self, Descriptor, RingState};
use super::shadow_queue::{CompleteOutcome, MirrorOutcome, QueueFault, Segment, StallReport};
use vstd::prelude::*;

verus! {

/// A chain currently owned by the backend.
#[verifier::ext_equal]
pub struct ChainView {
    pub guest_head: u16,
    pub segments: Seq<Segment>,
    pub slots: Seq<u16>,
}

/// The state of a shadow queue.
#[verifier::ext_equal]
pub struct ShadowView {
    pub queue_index: usize,
    pub size: u16,
    pub ring: RingOffsets,
    pub free_slots: Seq<u16>,
    pub inflight: Seq<Option<ChainView>>,
    pub avail_idx: u16,
    pub next_used: u16,
    pub fault: Option<QueueFault>,
    pub stalled: bool,
    pub stall_report: Option<StallReport>,
}

/// Everything that a shadow queue reads or changes.
#[verifier::ext_equal]
pub struct Scene {
    pub queue: ShadowView,
    pub pool: PoolView,
    /// The accesses made to guest memory.
    pub guest: Seq<Access>,
    pub ring: RingState,
}

/// Bytes per piece of a copy between guest memory and the pool.
pub open spec fn copy_chunk() -> int {
    16384
}

// ---- Buffers of a chain ----

/// Arena bytes that a chain's buffers take.
pub open spec fn arena_need(descs: Seq<Descriptor>) -> int
    decreases descs.len(),
{
    if descs.len() == 0 {
        0
    } else {
        arena_need(descs.drop_last()) + allocator::rounded(descs.last().len as int)
    }
}

/// Whether every buffer of the chain that has bytes lies in guest memory.
pub open spec fn buffers_mapped(map: Set<int>, descs: Seq<Descriptor>) -> bool {
    forall|i: int|
        0 <= i < descs.len() && (#[trigger] descs[i]).len != 0 ==> memory::covers(
            map,
            descs[i].addr,
            descs[i].len as int,
        )
}

/// An attempt to find arena space for the buffers of a chain.
#[verifier::ext_equal]
pub struct Reservation {
    pub arena: Arena,
    pub segments: Seq<Segment>,
    pub complete: bool,
}

/// Arena space for one buffer after another, until one does not fit. A
/// buffer without bytes takes no space.
pub open spec fn reserve(arena: Arena, base: u64, descs: Seq<Descriptor>) -> Reservation
    decreases descs.len(),
{
    if descs.len() == 0 {
        Reservation { arena, segments: Seq::empty(), complete: true }
    } else {
        let r = reserve(arena, base, descs.drop_last());
        let d = descs.last();
        if !r.complete {
            r
        } else if d.len == 0 {
            Reservation { segments: r.segments.push(segment_of(d, 0)), ..r }
        } else if r.arena.can_alloc(d.len as int) {
            Reservation {
                arena: r.arena.after_alloc(d.len as int),
                segments: r.segments.push(
                    segment_of(d, (base + r.arena.alloc_offset(d.len as int)) as u64),
                ),
                complete: true,
            }
        } else {
            Reservation { complete: false, ..r }
        }
    }
}

/// The captured form of a descriptor whose buffer is at `pool_addr`.
pub open spec fn segment_of(d: Descriptor, pool_addr: u64) -> Segment {
    Segment { guest_addr: d.addr, pool_addr, len: d.len, writable: ring::is_writable(d) }
}

/// The arena after the extents of `segs` have been freed, in order.
pub open spec fn release(arena: Arena, base: u64, segs: Seq<Segment>) -> Arena
    decreases segs.len(),
{
    if segs.len() == 0 {
        arena
    } else {
        let a = release(arena, base, segs.drop_last());
        let s = segs.last();
        if s.len == 0 {
            a
        } else {
            a.after_free(s.pool_addr - base, s.len as int)
        }
    }
}

/// The zeroing of the extents of `segs`, in order.
pub open spec fn scrub(segs: Seq<Segment>) -> Seq<Access>
    decreases segs.len(),
{
    if segs.len() == 0 {
        Seq::empty()
    } else {
        let s = segs.last();
        scrub(segs.drop_last()) + if s.len == 0 {
            Seq::empty()
        } else {
            pool::zero_writes(s.pool_addr as int, allocator::rounded(s.len as int))
        }
    }
}

// ---- Mirroring ----

/// A chain that the guest made available.
#[verifier::ext_equal]
pub struct Arrival {
    pub head: u16,
    /// The descriptors that walking the chain gave, if it was walked.
    pub descs: Seq<Descriptor>,
    /// The raw flags of the head descriptor, if they could be loaded.
    pub flags: Option<u16>,
    /// What was read from each device-readable buffer.
    pub data: Seq<Seq<u8>>,
}

/// What becomes of a chain.
pub enum Verdict {
    /// The guest broke the rules; the queue stops.
    Broken(QueueFault),
    /// Not enough descriptor slots or arena space; the chain is left for
    /// later.
    Stall,
    /// The chain is handed to the backend.
    Publish,
}

/// The flags of the head, as far as it has any: a descriptor beyond the last
/// address has none.
pub open spec fn seen_flags(s: Scene, a: Arrival) -> Option<u16> {
    if flags_addr(s.ring.desc_table, a.head) > u64::MAX {
        None
    } else {
        a.flags
    }
}

pub open spec fn verdict(s: Scene, map: Set<int>, a: Arrival) -> Verdict {
    match seen_flags(s, a) {
        None => Verdict::Broken(QueueFault::DescTableInaccessible),
        Some(flags) => if flags & ring::VRING_DESC_F_INDIRECT != 0 {
            Verdict::Broken(QueueFault::IndirectDescriptors)
        } else if a.descs.len() == 0 || ring::claims_next(a.descs.last()) {
            Verdict::Broken(QueueFault::MalformedChain)
        } else if !buffers_mapped(map, a.descs) {
            Verdict::Broken(QueueFault::BufferOutsideGuestMemory)
        } else if s.queue.free_slots.len() < a.descs.len() || !reserve(
            s.pool.arena,
            s.pool.arena_base,
            a.descs,
        ).complete {
            Verdict::Stall
        } else {
            Verdict::Publish
        },
    }
}

/// Where the raw flags of a head stand.
pub open spec fn flags_addr(desc_table: u64, head: u16) -> int {
    desc_table + 16 * head + 12
}

/// The load of a head's raw flags; none is made where the descriptor would
/// lie beyond the last address.
pub open spec fn flags_load(desc_table: u64, head: u16, flags: Option<u16>) -> Seq<Access> {
    let addr = flags_addr(desc_table, head);
    if addr <= u64::MAX {
        seq![Access::LoadU16 { addr: addr as u64, order: LoadOrder::Relaxed, loaded: flags }]
    } else {
        Seq::empty()
    }
}

/// The walk along a chain. A head that refers to an indirect table, or whose
/// flags could not be loaded, is not walked.
pub open spec fn walks(s: Scene, a: Arrival) -> Seq<Access> {
    match seen_flags(s, a) {
        None => Seq::empty(),
        Some(flags) => if flags & ring::VRING_DESC_F_INDIRECT != 0 {
            Seq::empty()
        } else {
            seq![Access::WalkChain { head: a.head, descs: a.descs }]
        },
    }
}

/// The scene once the chain has been taken off the avail ring: the flags of
/// its head are looked at first, and then it is walked.
pub open spec fn taken(s: Scene, a: Arrival) -> Scene {
    Scene {
        guest: s.guest.push(Access::PopChain { popped: Some(a.head) }) + flags_load(
            s.ring.desc_table,
            a.head,
            a.flags,
        ) + walks(s, a),
        ring: RingState { next_avail: s.ring.next_avail.wrapping_add(1), ..s.ring },
        ..s
    }
}

/// The bytes read from a buffer: all of it if the device reads it.
pub open spec fn reads_len(d: Descriptor) -> int {
    if ring::is_writable(d) {
        0
    } else {
        d.len as int
    }
}

pub open spec fn data_fits(descs: Seq<Descriptor>, data: Seq<Seq<u8>>) -> bool {
    &&& data.len() == descs.len()
    &&& forall|i: int| 0 <= i < descs.len() ==> (#[trigger] data[i]).len() == reads_len(descs[i])
}

/// Whether an arrival that is published is possible: every device-readable
/// buffer was read in full, and no buffer runs past the last address.
pub open spec fn arrival_ok(a: Arrival) -> bool {
    &&& data_fits(a.descs, a.data)
    &&& forall|i: int|
        0 <= i < a.descs.len() && (#[trigger] a.descs[i]).len != 0 ==> a.descs[i].addr
            + a.descs[i].len <= u64::MAX
}

/// The guest reads of copying device-readable data in.
pub open spec fn copy_in_reads(segs: Seq<Segment>, data: Seq<Seq<u8>>) -> Seq<Access>
    decreases segs.len(),
{
    if segs.len() == 0 {
        Seq::empty()
    } else {
        copy_in_reads(segs.drop_last(), data.drop_last()) + memory::piecewise_reads(
            segs.last().guest_addr as int,
            data.last(),
            copy_chunk(),
        )
    }
}

/// The pool writes of copying device-readable data in.
pub open spec fn copy_in_writes(segs: Seq<Segment>, data: Seq<Seq<u8>>) -> Seq<Access>
    decreases segs.len(),
{
    if segs.len() == 0 {
        Seq::empty()
    } else {
        copy_in_writes(segs.drop_last(), data.drop_last()) + memory::piecewise_writes(
            segs.last().pool_addr as int,
            data.last(),
            copy_chunk(),
        )
    }
}

/// The shadow descriptor of segment `i`, linked to the next one.
pub open spec fn shadow_desc(segs: Seq<Segment>, slots: Seq<u16>, i: int) -> Descriptor {
    let more = i + 1 < segs.len();
    Descriptor {
        addr: segs[i].pool_addr,
        len: segs[i].len,
        flags: (if segs[i].writable {
            ring::VRING_DESC_F_WRITE
        } else {
            0
        }) | (if more {
            ring::VRING_DESC_F_NEXT
        } else {
            0
        }),
        next: if more {
            slots[i + 1]
        } else {
            0
        },
    }
}

/// The rewritten chain, written into the shadow descriptor table.
pub open spec fn desc_writes(ring: RingOffsets, segs: Seq<Segment>, slots: Seq<u16>) -> Seq<
    Access,
> {
    Seq::new(
        segs.len(),
        |i: int|
            Access::WriteDesc {
                addr: (ring.desc + 16 * slots[i]) as u64,
                desc: shadow_desc(segs, slots, i),
            },
    )
}

/// The slots that the next chain of `n` descriptors gets: the last ones of
/// the free stack, topmost first.
pub open spec fn next_slots(free: Seq<u16>, n: int) -> Seq<u16> {
    Seq::new(n as nat, |i: int| free[free.len() - 1 - i])
}

pub open spec fn published(s: Scene, a: Arrival) -> Scene {
    let t = taken(s, a);
    let q = s.queue;
    let n = a.descs.len() as int;
    let r = reserve(s.pool.arena, s.pool.arena_base, a.descs);
    let slots = next_slots(q.free_slots, n);
    let entry = Access::WriteU16 {
        addr: (q.ring.avail + 4 + 2 * (q.avail_idx as int % q.size as int)) as u64,
        value: slots[0],
    };
    Scene {
        queue: ShadowView {
            free_slots: q.free_slots.take(q.free_slots.len() - n),
            inflight: q.inflight.update(
                slots[0] as int,
                Some(ChainView { guest_head: a.head, segments: r.segments, slots }),
            ),
            avail_idx: q.avail_idx.wrapping_add(1),
            stalled: false,
            stall_report: None,
            ..q
        },
        pool: PoolView {
            arena: r.arena,
            log: s.pool.log + copy_in_writes(r.segments, a.data) + desc_writes(
                q.ring,
                r.segments,
                slots,
            ).push(entry),
            ..s.pool
        },
        guest: t.guest + copy_in_reads(r.segments, a.data),
        ring: t.ring,
    }
}

/// A stall leaves the chain on the avail ring and the arena as it was. What
/// was reserved on the way is scrubbed. A chain that no arena of this size
/// can hold is reported, once per stall.
pub open spec fn stalled(s: Scene, a: Arrival) -> Scene {
    let need = arena_need(a.descs);
    let capacity = s.pool.arena.capacity;
    Scene {
        queue: ShadowView {
            stalled: true,
            stall_report: if need > capacity && s.queue.stall_report is None {
                Some(StallReport { needed: need as u64, capacity })
            } else {
                s.queue.stall_report
            },
            ..s.queue
        },
        pool: if s.queue.free_slots.len() < a.descs.len() {
            s.pool
        } else {
            s.pool.with_accesses(
                scrub(reserve(s.pool.arena, s.pool.arena_base, a.descs).segments),
            )
        },
        ring: s.ring,
        ..taken(s, a)
    }
}

pub open spec fn broken(s: Scene, fault: QueueFault) -> Scene {
    Scene { queue: ShadowView { fault: Some(fault), ..s.queue }, ..s }
}

/// The scene after one arrival.
pub open spec fn arrive(s: Scene, map: Set<int>, a: Arrival) -> Scene {
    match verdict(s, map, a) {
        Verdict::Broken(fault) => broken(taken(s, a), fault),
        Verdict::Stall => stalled(s, a),
        Verdict::Publish => published(s, a),
    }
}

/// The scene after a number of arrivals.
pub open spec fn arrive_all(s: Scene, map: Set<int>, xs: Seq<Arrival>) -> Scene
    decreases xs.len(),
{
    if xs.len() == 0 {
        s
    } else {
        arrive(arrive_all(s, map, xs.drop_last()), map, xs.last())
    }
}

/// Whether arrival `i` is published, those before it having arrived.
pub open spec fn published_at(s: Scene, map: Set<int>, xs: Seq<Arrival>, i: int) -> bool {
    &&& verdict(arrive_all(s, map, xs.take(i)), map, xs[i]) is Publish
    &&& arrival_ok(xs[i])
}

/// Whether the first `n` arrivals are all published.
pub open spec fn all_published(s: Scene, map: Set<int>, xs: Seq<Arrival>, n: int) -> bool {
    forall|i: int| 0 <= i < n ==> #[trigger] published_at(s, map, xs, i)
}

/// What stands for an arrival where there was none.
pub(crate) closed spec fn no_arrival() -> Arrival {
    Arrival { head: 0, descs: Seq::empty(), flags: None, data: Seq::empty() }
}

/// One more arrival does not change what became of those before it.
pub(crate) proof fn lemma_all_published_push(s: Scene, map: Set<int>, xs: Seq<Arrival>, a: Arrival)
    requires
        all_published(s, map, xs, xs.len() as int),
    ensures
        all_published(s, map, xs.push(a), xs.len() as int),
        verdict(arrive_all(s, map, xs), map, a) is Publish && arrival_ok(a)
            ==> all_published(s, map, xs.push(a), xs.len() as int + 1),
{
    let ys = xs.push(a);
    assert forall|i: int| 0 <= i < xs.len() implies #[trigger] published_at(s, map, ys, i) by {
        assert(published_at(s, map, xs, i));
        assert(ys.take(i) =~= xs.take(i));
        assert(ys[i] == xs[i]);
    }
    assert(ys.take(xs.len() as int) =~= xs);
}

/// The scene after the avail index has been stored, which happens when
/// something was published.
pub open spec fn announced(s: Scene, chains: int, done: bool) -> Scene {
    if chains == 0 {
        s
    } else {
        let store = Access::StoreU16 {
            addr: (s.queue.ring.avail + 2) as u64,
            value: s.queue.avail_idx,
            done,
        };
        let t = Scene { pool: s.pool.with_access(store), ..s };
        if !done && s.queue.fault is None {
            broken(t, QueueFault::AvailIndexStoreFailed)
        } else {
            t
        }
    }
}

/// Whether a sweep over the avail ring that met the arrivals `xs` leads from
/// `s` to `t`: they are published one by one until nothing more is there or
/// one of them is not publishable, and then the index is stored.
pub open spec fn mirrored(
    s: Scene,
    map: Set<int>,
    xs: Seq<Arrival>,
    done: bool,
    t: Scene,
    out: MirrorOutcome,
) -> bool {
    let n = xs.len() as int;
    let end = arrive_all(s, map, xs);
    ||| {
        // Nothing more was there.
        &&& all_published(s, map, xs, n)
        &&& out.chains == n
        &&& !out.stalled
        &&& t == announced(
            Scene { guest: end.guest.push(Access::PopChain { popped: None }), ..end },
            n,
            done,
        )
    }
    ||| {
        // The last arrival stopped the sweep.
        let stop = verdict(arrive_all(s, map, xs.drop_last()), map, xs.last());
        &&& n > 0
        &&& all_published(s, map, xs, n - 1)
        &&& !(stop is Publish)
        &&& out.chains == n - 1
        &&& out.stalled == (stop is Stall)
        &&& t == announced(end, n - 1, done)
    }
}

// ---- Completing ----

/// A completion that the backend returned.
#[verifier::ext_equal]
pub struct Completion {
    pub id: u32,
    pub len: u32,
    /// What was read from the chain's buffers in the pool, buffer by
    /// buffer, until the copy ended.
    pub data: Seq<Seq<u8>>,
    /// Whether all of it was copied back.
    pub copied: bool,
    /// Whether the guest's used ring took the element.
    pub added: bool,
    /// Whether the guest queue's own used count advanced.
    pub counted: bool,
}

/// Device-writable bytes of a chain.
pub open spec fn writable_total(segs: Seq<Segment>) -> int
    decreases segs.len(),
{
    if segs.len() == 0 {
        0
    } else {
        writable_total(segs.drop_last()) + if segs.last().writable {
            segs.last().len as int
        } else {
            0
        }
    }
}

/// The length that is reported to the guest: what the backend claims, but
/// never more than it was allowed to write.
pub open spec fn capped_len(segs: Seq<Segment>, len: u32) -> int {
    if len <= writable_total(segs) {
        len as int
    } else {
        writable_total(segs)
    }
}

/// How many of `len` written bytes fall into buffer `i`: the writable
/// buffers are filled one after another.
pub open spec fn share(segs: Seq<Segment>, len: int, i: int) -> int {
    let left = len - writable_total(segs.take(i));
    if !segs[i].writable || left <= 0 {
        0
    } else if left < segs[i].len {
        left
    } else {
        segs[i].len as int
    }
}

/// Whether `data` holds all of the written bytes that fall into buffer `i`,
/// and guest memory took them.
pub open spec fn share_copied(
    map: Set<int>,
    segs: Seq<Segment>,
    len: int,
    data: Seq<Seq<u8>>,
    i: int,
) -> bool {
    &&& data[i].len() == share(segs, len, i)
    &&& memory::covers(map, segs[i].guest_addr, share(segs, len, i))
}

/// Whether copying back `len` bytes can have read `data` and ended with
/// `copied`. It ends early at the first piece that is not mapped in guest
/// memory.
pub open spec fn copied_back(
    map: Set<int>,
    segs: Seq<Segment>,
    len: int,
    data: Seq<Seq<u8>>,
    copied: bool,
) -> bool {
    let whole = if copied {
        data.len() as int
    } else {
        data.len() - 1
    };
    &&& forall|i: int| 0 <= i < whole ==> #[trigger] share_copied(map, segs, len, data, i)
    &&& copied ==> data.len() == segs.len()
    &&& !copied ==> {
        let n = data.last().len() as int;
        &&& 0 < data.len() <= segs.len()
        &&& 0 < n <= share(segs, len, whole)
        &&& n == share(segs, len, whole) || n % copy_chunk() == 0
        &&& memory::covers(map, segs[whole].guest_addr, memory::last_piece(n, copy_chunk()))
        &&& !memory::covers(map, segs[whole].guest_addr, n)
    }
}

/// The pool reads of copying back.
pub open spec fn copy_back_reads(segs: Seq<Segment>, data: Seq<Seq<u8>>) -> Seq<Access>
    decreases data.len(),
{
    if data.len() == 0 {
        Seq::empty()
    } else {
        copy_back_reads(segs, data.drop_last()) + memory::piecewise_reads(
            segs[data.len() - 1].pool_addr as int,
            data.last(),
            copy_chunk(),
        )
    }
}

/// The guest writes of copying back.
pub open spec fn copy_back_writes(segs: Seq<Segment>, data: Seq<Seq<u8>>) -> Seq<Access>
    decreases data.len(),
{
    if data.len() == 0 {
        Seq::empty()
    } else {
        copy_back_writes(segs, data.drop_last()) + memory::piecewise_writes(
            segs[data.len() - 1].guest_addr as int,
            data.last(),
            copy_chunk(),
        )
    }
}

/// The chain that used id `id` stands for, if there is one.
pub open spec fn lookup(q: ShadowView, id: u32) -> Option<ChainView> {
    if id < q.size {
        q.inflight[id as int]
    } else {
        None
    }
}

/// The scene once a used element has been read. A ring without entries has
/// none to read.
pub open spec fn fetched(s: Scene, c: Completion) -> Scene {
    let q = s.queue;
    let addr = q.ring.used + 4 + 8 * (q.next_used as int % q.size as int);
    if q.size == 0 {
        s
    } else {
        Scene {
            pool: s.pool.with_access(Access::ReadU32 { addr: addr as u64, word: c.id }).with_access(
                Access::ReadU32 { addr: (addr + 4) as u64, word: c.len },
            ),
            ..s
        }
    }
}

/// The scene once the data of a known chain has been copied back and its
/// resources released.
pub open spec fn returned(s: Scene, c: Completion, chain: ChainView) -> Scene {
    let f = fetched(s, c);
    Scene {
        queue: ShadowView {
            free_slots: s.queue.free_slots + chain.slots,
            inflight: s.queue.inflight.update(c.id as int, None),
            ..s.queue
        },
        pool: PoolView {
            arena: release(s.pool.arena, s.pool.arena_base, chain.segments),
            log: f.pool.log + copy_back_reads(chain.segments, c.data) + scrub(chain.segments),
            ..s.pool
        },
        guest: s.guest + copy_back_writes(chain.segments, c.data),
        ring: s.ring,
    }
}

/// The scene after one completion.
pub open spec fn complete(s: Scene, c: Completion) -> Scene {
    match lookup(s.queue, c.id) {
        None => broken(fetched(s, c), QueueFault::UnknownUsedId),
        Some(chain) => {
            let r = returned(s, c, chain);
            if !c.copied {
                broken(r, QueueFault::WriteBackFailed)
            } else {
                let add = Access::AddUsed {
                    head: chain.guest_head,
                    len: capped_len(chain.segments, c.len) as u32,
                    done: c.added,
                };
                let p = Scene {
                    guest: r.guest.push(add),
                    ring: if c.counted {
                        RingState { next_used: s.ring.next_used.wrapping_add(1), ..s.ring }
                    } else {
                        s.ring
                    },
                    ..r
                };
                if !c.added {
                    broken(p, QueueFault::UsedPublishFailed)
                } else {
                    Scene {
                        queue: ShadowView {
                            next_used: s.queue.next_used.wrapping_add(1),
                            ..r.queue
                        },
                        ..p
                    }
                }
            }
        },
    }
}

/// Whether a completion is possible in this scene.
pub open spec fn completion_ok(s: Scene, map: Set<int>, c: Completion) -> bool {
    &&& c.added ==> c.counted
    &&& lookup(s.queue, c.id) matches Some(chain) ==> copied_back(
        map,
        chain.segments,
        capped_len(chain.segments, c.len),
        c.data,
        c.copied,
    )
}

/// Whether a completion goes through to the guest.
pub open spec fn succeeds(s: Scene, c: Completion) -> bool {
    lookup(s.queue, c.id) is Some && c.copied && c.added
}

/// The scene after a number of completions.
pub open spec fn complete_all(s: Scene, cs: Seq<Completion>) -> Scene
    decreases cs.len(),
{
    if cs.len() == 0 {
        s
    } else {
        complete(complete_all(s, cs.drop_last()), cs.last())
    }
}

/// Whether completion `c` comes before the used index is reached and goes
/// through.
pub open spec fn goes_through(at: Scene, map: Set<int>, c: Completion, idx: u16) -> bool {
    &&& at.queue.next_used != idx
    &&& completion_ok(at, map, c)
    &&& succeeds(at, c)
}

/// Whether completion `i` goes through, those before it having been taken.
pub open spec fn succeeds_at(
    s: Scene,
    map: Set<int>,
    cs: Seq<Completion>,
    idx: u16,
    i: int,
) -> bool {
    goes_through(complete_all(s, cs.take(i)), map, cs[i], idx)
}

/// Whether the first `n` completions all go through, each of them before
/// the used index is reached.
pub open spec fn all_succeed(s: Scene, map: Set<int>, cs: Seq<Completion>, idx: u16, n: int) -> bool {
    forall|i: int| 0 <= i < n ==> #[trigger] succeeds_at(s, map, cs, idx, i)
}

/// One more completion does not change what became of those before it.
pub(crate) proof fn lemma_all_succeed_push(
    s: Scene,
    map: Set<int>,
    cs: Seq<Completion>,
    c: Completion,
    idx: u16,
)
    requires
        all_succeed(s, map, cs, idx, cs.len() as int),
    ensures
        all_succeed(s, map, cs.push(c), idx, cs.len() as int),
        goes_through(complete_all(s, cs), map, c, idx) ==> all_succeed(s, map, cs.push(c), idx, cs.len() as int + 1),
{
    let ds = cs.push(c);
    assert forall|i: int| 0 <= i < cs.len() implies #[trigger] succeeds_at(s, map, ds, idx, i) by {
        assert(succeeds_at(s, map, cs, idx, i));
        assert(ds.take(i) =~= cs.take(i));
        assert(ds[i] == cs[i]);
    }
    assert(ds.take(cs.len() as int) =~= cs);
}

/// The scene after the guest has been asked whether it wants an interrupt,
/// which happens when something was completed.
pub open spec fn asked(s: Scene, chains: int, answer: Option<bool>, flags: Option<u16>) -> Scene {
    if chains == 0 {
        s
    } else {
        Scene {
            guest: s.guest.push(Access::AskNotification { answer }).push(
                Access::LoadU16 {
                    addr: s.ring.avail_ring,
                    order: LoadOrder::Relaxed,
                    loaded: flags,
                },
            ),
            ..s
        }
    }
}

/// Whether the guest is to be interrupted: it wants a notification (or did
/// not say) and has not suppressed interrupts (or did not say).
pub open spec fn wants_interrupt(answer: Option<bool>, flags: Option<u16>) -> bool {
    &&& answer != Some(false)
    &&& flags matches Some(f) ==> f & ring::VRING_AVAIL_F_NO_INTERRUPT == 0
}

/// What the backend and the guest contributed to a sweep over the used
/// ring.
#[verifier::ext_equal]
pub struct Harvest {
    /// The used index, if it could be loaded.
    pub used_idx: Option<u16>,
    pub completions: Seq<Completion>,
    /// The guest queue's answer to whether a notification is wanted.
    pub answer: Option<bool>,
    /// The guest's avail ring flags, if they could be loaded.
    pub flags: Option<u16>,
}

/// The scene once the used index has been loaded.
pub open spec fn index_loaded(s: Scene, idx: Option<u16>) -> Scene {
    let load = Access::LoadU16 {
        addr: (s.queue.ring.used + 2) as u64,
        order: LoadOrder::Acquire,
        loaded: idx,
    };
    Scene { pool: s.pool.with_access(load), ..s }
}

/// Whether a sweep over the used ring that met `h` leads from `s` to `t`:
/// completions are taken one by one until the used index is reached or one
/// of them does not go through, and then the guest is asked about an
/// interrupt.
pub open spec fn completed(
    s: Scene,
    map: Set<int>,
    h: Harvest,
    t: Scene,
    out: CompleteOutcome,
) -> bool {
    let start = index_loaded(s, h.used_idx);
    let cs = h.completions;
    let n = cs.len() as int;
    match h.used_idx {
        None => {
            &&& t == broken(start, QueueFault::UsedIndexLoadFailed)
            &&& out == (CompleteOutcome { chains: 0, needs_interrupt: false })
        },
        Some(idx) => {
            let end = complete_all(start, cs);
            &&& out.needs_interrupt == (out.chains > 0 && wants_interrupt(h.answer, h.flags))
            &&& out.chains > 0 && !s.ring.event_idx ==> h.answer == Some(true)
            &&& t == asked(end, out.chains as int, h.answer, h.flags)
            &&& {
                ||| {
                    // The used index was reached.
                    &&& all_succeed(start, map, cs, idx, n)
                    &&& end.queue.next_used == idx
                    &&& out.chains == n
                }
                ||| {
                    // The last completion stopped the sweep.
                    let at = complete_all(start, cs.drop_last());
                    &&& n > 0
                    &&& all_succeed(start, map, cs, idx, n - 1)
                    &&& at.queue.next_used != idx
                    &&& completion_ok(at, map, cs.last())
                    &&& !succeeds(at, cs.last())
                    &&& out.chains == n - 1
                }
            }
        },
    }
}

} // verus!
