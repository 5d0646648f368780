//! The pool and the shadow queues, driven by a guest-side split ring builder
//! (acting as the driver) and a fake vhost-user backend that operates on the
//! pool's shadow rings (acting as the daemon).

use std::sync::atomic::Ordering;

use vhost_bounce::bounce::memory::GuestMemoryMmap;
use vhost_bounce::bounce::pool::{
    avail_ring_size, default_buffer_capacity, desc_table_size, used_ring_size, BouncePool,
    PoolLayout,
};
use vhost_bounce::bounce::shadow_queue::{
    CompleteOutcome, MirrorOutcome, QueueFault, ShadowQueue, ShadowQueueConfig, StallReport,
};
use vhost_bounce::bounce::worker::{
    backend_call_token, drain_round, drain_step, guest_kick_token, initial_sweep, route_event,
    steps_for, BounceShared, DrainStep, Signal, WorkerStep,
};
use vhost_bounce::bounce::{BounceConfig, BounceError};
use vhost_bounce::epoll_helper::{
    next_action, LoopAction, LoopReply, EPOLL_HELPER_EVENT_KILL, EPOLL_HELPER_EVENT_PAUSE,
};
use virtio_bindings::virtio_ring::{
    VRING_AVAIL_F_NO_INTERRUPT, VRING_DESC_F_INDIRECT, VRING_DESC_F_NEXT, VRING_DESC_F_WRITE,
};
use virtio_queue::desc::split::Descriptor;
use virtio_queue::{Queue, QueueT};
use vm_memory::{Address, Bytes, GuestAddress};

fn new_pool(num_queues: usize, queue_size: u16, buffer_capacity: u64) -> BouncePool {
    let layout = PoolLayout {
        num_queues,
        queue_size,
        buffer_capacity,
    };
    let size = layout.size().unwrap() as usize;
    let mem = GuestMemoryMmap::from_ranges(&[(GuestAddress(0), size)]).unwrap();
    BouncePool::new(&layout, mem).unwrap()
}

const GUEST_MEM_SIZE: usize = 0x100_000;

/// Anonymous guest memory for tests: one region at GPA 0.
fn guest_mem() -> GuestMemoryMmap {
    GuestMemoryMmap::from_ranges(&[(GuestAddress(0), GUEST_MEM_SIZE)]).unwrap()
}

/// Builds and manipulates a guest-owned split virtqueue, playing the role
/// of the guest driver.
struct GuestRingBuilder {
    queue_size: u16,
    desc_table: u64,
    avail_ring: u64,
    used_ring: u64,
    buf_base: u64,
    start: u16,
    next_desc: u16,
    avail_idx: u16,
    next_buf: u64,
}

impl GuestRingBuilder {
    fn new(queue_size: u16) -> Self {
        Self::new_at(queue_size, 0)
    }

    /// Lay the ring out at `base` so multiple rings can coexist in one
    /// guest memory (each ring block uses 0x80000 bytes of address space).
    fn new_at(queue_size: u16, base: u64) -> Self {
        GuestRingBuilder {
            queue_size,
            desc_table: base + 0x1000,
            avail_ring: base + 0x3000,
            used_ring: base + 0x4000,
            buf_base: base + 0x10000,
            start: 0,
            next_desc: 0,
            avail_idx: 0,
            next_buf: base + 0x10000,
        }
    }

    /// Recycle the guest buffer address space (for soak tests).
    fn reset_bufs(&mut self) {
        self.next_buf = self.buf_base;
    }

    /// Fast-forward the ring to start at index `base` (as after a
    /// restore): the avail/used indexes begin at `base` and queues
    /// created afterwards resume from there.
    fn set_start(&mut self, mem: &GuestMemoryMmap, base: u16) {
        self.start = base;
        self.avail_idx = base;
        mem.store(base, GuestAddress(self.avail_ring + 2), Ordering::Release)
            .unwrap();
        mem.store(base, GuestAddress(self.used_ring + 2), Ordering::Release)
            .unwrap();
    }

    /// Configure a virtio-queue `Queue` matching this ring, optionally
    /// with EVENT_IDX enabled (as the guest would negotiate it).
    fn queue_with(&self, event_idx: bool) -> Queue {
        let mut q = Queue::new(self.queue_size).unwrap();
        q.try_set_desc_table_address(GuestAddress(self.desc_table))
            .unwrap();
        q.try_set_avail_ring_address(GuestAddress(self.avail_ring))
            .unwrap();
        q.try_set_used_ring_address(GuestAddress(self.used_ring))
            .unwrap();
        q.set_next_avail(self.start);
        q.set_next_used(self.start);
        q.set_event_idx(event_idx);
        q.set_ready(true);
        q
    }

    /// Configure a virtio-queue `Queue` matching this ring.
    fn queue(&self) -> Queue {
        self.queue_with(false)
    }

    /// Write the guest's `used_event` (in the avail ring): the device
    /// should interrupt only once the used index passes this value.
    fn set_used_event(&self, mem: &GuestMemoryMmap, val: u16) {
        let addr = self.avail_ring + 4 + u64::from(self.queue_size) * 2;
        mem.write_obj(val, GuestAddress(addr)).unwrap();
    }

    /// Reserve a buffer of `len` bytes in guest memory.
    fn alloc_buf(&mut self, len: u32) -> u64 {
        let addr = self.next_buf;
        self.next_buf += u64::from(len).next_multiple_of(64);
        assert!(self.next_buf <= self.buf_base + 0x70000);
        addr
    }

    /// Write one descriptor at `slot`.
    fn desc(
        &self,
        mem: &GuestMemoryMmap,
        slot: u16,
        addr: u64,
        len: u32,
        flags: u16,
        next: u16,
    ) {
        let desc = Descriptor::new(addr, len, flags, next);
        mem.write_obj(desc, GuestAddress(self.desc_table + u64::from(slot) * 16))
            .unwrap();
    }

    /// Build a descriptor chain out of `(addr, len, writable)` segments
    /// using sequential descriptor slots; returns the head index. The
    /// chain is not made available until [`Self::publish`] is called.
    fn chain(&mut self, mem: &GuestMemoryMmap, segs: &[(u64, u32, bool)]) -> u16 {
        assert!(!segs.is_empty());
        let head = self.next_desc;
        for (i, (addr, len, writable)) in segs.iter().enumerate() {
            let slot = self.next_desc;
            self.next_desc = (self.next_desc + 1) % self.queue_size;
            let mut flags = 0u16;
            if *writable {
                flags |= VRING_DESC_F_WRITE as u16;
            }
            if i + 1 < segs.len() {
                flags |= VRING_DESC_F_NEXT as u16;
            }
            self.desc(mem, slot, *addr, *len, flags, self.next_desc);
        }
        head
    }


    /// Publish `head` in the avail ring and bump the avail index.
    fn publish(&mut self, mem: &GuestMemoryMmap, head: u16) {
        let pos = self.avail_idx % self.queue_size;
        mem.write_obj(head, GuestAddress(self.avail_ring + 4 + u64::from(pos) * 2))
            .unwrap();
        self.avail_idx = self.avail_idx.wrapping_add(1);
        mem.store(
            self.avail_idx,
            GuestAddress(self.avail_ring + 2),
            Ordering::Release,
        )
        .unwrap();
    }

    /// Set the guest avail ring flags (e.g. VRING_AVAIL_F_NO_INTERRUPT).
    fn set_avail_flags(&self, mem: &GuestMemoryMmap, flags: u16) {
        mem.store(flags, GuestAddress(self.avail_ring), Ordering::Release)
            .unwrap();
    }

    /// Read the guest used ring index (the device publishes this).
    fn used_idx(&self, mem: &GuestMemoryMmap) -> u16 {
        mem.load(GuestAddress(self.used_ring + 2), Ordering::Acquire)
            .unwrap()
    }

    /// Read the used ring element at ring position `pos` as (id, len).
    fn used_elem(&self, mem: &GuestMemoryMmap, pos: u16) -> (u32, u32) {
        let base = self.used_ring + 4 + u64::from(pos % self.queue_size) * 8;
        (
            mem.read_obj(GuestAddress(base)).unwrap(),
            mem.read_obj(GuestAddress(base + 4)).unwrap(),
        )
    }
}

/// Operates on the shadow rings inside a [`BouncePool`] the way a
/// vhost-user backend would.
struct FakeDaemon {
    queue_size: u16,
    next_avail: Vec<u16>,
    next_used: Vec<u16>,
}

impl FakeDaemon {
    fn new(num_queues: usize, queue_size: u16) -> Self {
        FakeDaemon {
            queue_size,
            next_avail: vec![0; num_queues],
            next_used: vec![0; num_queues],
        }
    }

    /// Resume queue `q` from ring index `base`, as after SET_VRING_BASE.
    fn set_start(&mut self, q: usize, base: u16) {
        self.next_avail[q] = base;
        self.next_used[q] = base;
    }

    /// Read the shadow avail index for queue `q`.
    fn avail_idx(&self, pool: &BouncePool, q: usize) -> u16 {
        let offs = pool.ring_offsets(q);
        pool.mem()
            .load(GuestAddress(offs.avail + 2), Ordering::Acquire)
            .unwrap()
    }

    /// Read the shadow avail ring flags for queue `q`.
    fn avail_flags(&self, pool: &BouncePool, q: usize) -> u16 {
        let offs = pool.ring_offsets(q);
        pool.mem()
            .load(GuestAddress(offs.avail), Ordering::Acquire)
            .unwrap()
    }

    /// Pop the next shadow avail entry (the shadow head index) for `q`.
    /// Panics if nothing is available.
    fn pop_avail(&mut self, pool: &BouncePool, q: usize) -> u16 {
        assert_ne!(
            self.avail_idx(pool, q),
            self.next_avail[q],
            "no avail entry"
        );
        let offs = pool.ring_offsets(q);
        let pos = self.next_avail[q] % self.queue_size;
        self.next_avail[q] = self.next_avail[q].wrapping_add(1);
        pool.mem()
            .read_obj(GuestAddress(offs.avail + 4 + u64::from(pos) * 2))
            .unwrap()
    }

    /// Read the shadow descriptor at `slot` for queue `q`.
    fn read_desc(&self, pool: &BouncePool, q: usize, slot: u16) -> Descriptor {
        let offs = pool.ring_offsets(q);
        pool.mem()
            .read_obj(GuestAddress(offs.desc + u64::from(slot) * 16))
            .unwrap()
    }

    /// Follow a shadow descriptor chain starting at `head`, resolving a
    /// pool-side indirect table (a single `F_INDIRECT` head descriptor)
    /// the way a real backend would.
    fn read_chain(&self, pool: &BouncePool, q: usize, head: u16) -> Vec<Descriptor> {
        let head_desc = self.read_desc(pool, q, head);
        if head_desc.flags() & VRING_DESC_F_INDIRECT as u16 != 0 {
            // Walk the indirect table at the head's pool address.
            let count = head_desc.len() as usize / 16;
            let mut descs = Vec::with_capacity(count);
            for i in 0..count {
                let entry: Descriptor = pool
                    .mem()
                    .read_obj(head_desc.addr().unchecked_add((i * 16) as u64))
                    .unwrap();
                let last = !entry.has_next();
                descs.push(entry);
                if last {
                    break;
                }
            }
            return descs;
        }
        let mut descs = Vec::new();
        let mut slot = head;
        loop {
            let desc = self.read_desc(pool, q, slot);
            let has_next = desc.has_next();
            slot = desc.next();
            descs.push(desc);
            if !has_next {
                return descs;
            }
            assert!(descs.len() <= self.queue_size as usize, "chain loop");
        }
    }

    /// Publish a used element for the chain headed by shadow slot `head`,
    /// reporting `len` written bytes.
    fn complete(&mut self, pool: &BouncePool, q: usize, head: u16, len: u32) {
        let offs = pool.ring_offsets(q);
        let pos = self.next_used[q] % self.queue_size;
        let base = offs.used + 4 + u64::from(pos) * 8;
        pool.mem()
            .write_obj(u32::from(head), GuestAddress(base))
            .unwrap();
        pool.mem().write_obj(len, GuestAddress(base + 4)).unwrap();
        self.next_used[q] = self.next_used[q].wrapping_add(1);
        pool.mem()
            .store(
                self.next_used[q],
                GuestAddress(offs.used + 2),
                Ordering::Release,
            )
            .unwrap();
    }

    /// Convenience: pop one avail entry, read its chain, write `fill`
    /// into every device-writable segment, and complete it reporting the
    /// number of bytes written. Returns the shadow head.
    fn serve_one(&mut self, pool: &BouncePool, q: usize, fill: u8) -> u16 {
        let head = self.pop_avail(pool, q);
        let chain = self.read_chain(pool, q, head);
        let mut written = 0u32;
        for desc in chain.iter().filter(|d| d.is_write_only()) {
            let data = vec![fill; desc.len() as usize];
            pool.mem().write_slice(&data, desc.addr()).unwrap();
            written += desc.len();
        }
        self.complete(pool, q, head, written);
        head
    }
}

// ---- Pool ----

#[test]
fn default_buffer_capacity_formula() {
    for (nq, qs) in [(1usize, 128u16), (4, 256), (8, 1024)] {
        assert_eq!(
            default_buffer_capacity(nq, qs),
            4 * nq as u64 * qs as u64 * 4096
        );
    }
}

#[test]
fn layout_ring_sizes_match_virtio_spec() {
    // Sizes per the virtio 1.x split ring layout, including the
    // event-idx trailing fields.
    assert_eq!(desc_table_size(256), 16 * 256);
    assert_eq!(avail_ring_size(256), 6 + 2 * 256 + 2);
    assert_eq!(used_ring_size(256), 6 + 8 * 256 + 2);
    let pool = new_pool(1, 256, 4096);
    let offs = pool.ring_offsets(0);
    assert_eq!(offs.avail - offs.desc, desc_table_size(256));
    assert!(offs.used - offs.avail >= avail_ring_size(256));
    assert!(pool.arena_base() - offs.used >= used_ring_size(256));
}

#[test]
fn layout_ring_blocks_are_page_aligned_and_disjoint() {
    let pool = new_pool(3, 256, 8192);
    let mut prev_end = 0u64;
    for q in 0..3 {
        let offs = pool.ring_offsets(q);
        assert_eq!(offs.desc % 4096, 0, "queue {q} block not page aligned");
        assert!(offs.desc >= prev_end, "queue {q} overlaps previous");
        assert_eq!(offs.desc % 16, 0);
        assert_eq!(offs.avail % 2, 0);
        assert_eq!(offs.used % 4, 0);
        assert!(offs.desc + desc_table_size(256) <= offs.avail);
        assert!(offs.avail + avail_ring_size(256) <= offs.used);
        prev_end = offs.used + used_ring_size(256);
    }
    assert_eq!(pool.arena_base() % 4096, 0);
    assert!(pool.arena_base() >= prev_end);
    assert!(pool.size() >= pool.arena_base() + pool.buffer_capacity());
    assert_eq!(pool.size() % 4096, 0);
}

#[test]
fn new_pool_memory_is_zeroed() {
    let pool = new_pool(2, 128, 8192);
    for addr in [
        0u64,
        pool.ring_offsets(1).used,
        pool.arena_base(),
        pool.size() - 8,
    ] {
        assert_eq!(pool.mem().read_obj::<u64>(GuestAddress(addr)).unwrap(), 0);
    }
}

#[test]
fn alloc_returns_gpa_inside_arena() {
    let mut pool = new_pool(1, 128, 8192);
    let addr = pool.allocate(100).unwrap();
    assert!(addr >= pool.arena_base());
    assert!(addr + 100 <= pool.size());
}

#[test]
fn alloc_free_roundtrip_scrubs_extent() {
    let mut pool = new_pool(1, 128, 8192);
    let addr = pool.allocate(256).unwrap();
    pool.mem().write_slice(&[0xabu8; 256], GuestAddress(addr)).unwrap();
    pool.free(addr, 256).unwrap();
    let mut buf = [0xffu8; 256];
    pool.mem().read_slice(&mut buf, GuestAddress(addr)).unwrap();
    assert_eq!(buf, [0u8; 256]);
}

#[test]
fn free_bytes_tracks_allocator() {
    let mut pool = new_pool(1, 128, 8192);
    assert_eq!(pool.free_bytes(), pool.buffer_capacity());
    let addr = pool.allocate(100).unwrap();
    assert_eq!(pool.free_bytes(), pool.buffer_capacity() - 128);
    pool.free(addr, 100).unwrap();
    assert_eq!(pool.free_bytes(), pool.buffer_capacity());
}

#[test]
fn zero_rings_clears_only_ring_area() {
    let mut pool = new_pool(2, 128, 8192);
    let ring_addr = GuestAddress(pool.ring_offsets(1).desc);
    pool.mem().write_obj::<u64>(0xdead_beef, ring_addr).unwrap();
    let buf_addr = pool.allocate(64).unwrap();
    pool.mem().write_obj::<u64>(0xfeed_face, GuestAddress(buf_addr)).unwrap();
    pool.zero_rings().unwrap();
    assert_eq!(pool.mem().read_obj::<u64>(ring_addr).unwrap(), 0);
    assert_eq!(pool.mem().read_obj::<u64>(GuestAddress(buf_addr)).unwrap(), 0xfeed_face);
}

/// Everything a shadow queue test needs: guest memory with a ring
/// builder, a queue, a pool with `arena` buffer bytes, a fake
/// backend, and the shadow queue under test.
struct Harness {
    mem: GuestMemoryMmap,
    ring: GuestRingBuilder,
    q: Queue,
    pool: BouncePool,
    daemon: FakeDaemon,
    sq: ShadowQueue,
}

fn harness(queue_size: u16, arena: u64) -> Harness {
    let mem = guest_mem();
    let ring = GuestRingBuilder::new(queue_size);
    let q = ring.queue();
    let pool = new_pool(1, queue_size, arena);
    let sq = ShadowQueue::new(
        ShadowQueueConfig {
            queue_index: 0,
            queue_size,
        },
        pool.ring_offsets(0),
    );
    Harness {
        mem,
        ring,
        q,
        pool,
        daemon: FakeDaemon::new(1, queue_size),
        sq,
    }
}

fn fill(mem: &GuestMemoryMmap, addr: u64, len: u32, byte: u8) {
    mem.write_slice(&vec![byte; len as usize], GuestAddress(addr))
        .unwrap();
}

fn read_back(mem: &GuestMemoryMmap, addr: u64, len: u32) -> Vec<u8> {
    let mut buf = vec![0u8; len as usize];
    mem.read_slice(&mut buf, GuestAddress(addr)).unwrap();
    buf
}

fn mirror(h: &mut Harness) -> MirrorOutcome {
    h.sq.mirror_avail(&mut h.mem, &mut h.q, &mut h.pool)
}

fn complete(h: &mut Harness) -> CompleteOutcome {
    h.sq.complete_used(&mut h.mem, &mut h.q, &mut h.pool)
}

// ---- Mirroring ----

#[test]
fn mirror_single_readable_descriptor_copies_data_and_publishes() {
    let mut h = harness(8, 8192);
    let buf = h.ring.alloc_buf(512);
    fill(&h.mem, buf, 512, 0x5a);
    let head = h.ring.chain(&h.mem, &[(buf, 512, false)]);
    h.ring.publish(&h.mem, head);

    let out = mirror(&mut h);
    assert_eq!(
        out,
        MirrorOutcome {
            chains: 1,
            stalled: false
        }
    );
    assert_eq!(h.sq.inflight_count(), 1);
    assert_eq!(h.daemon.avail_idx(&h.pool, 0), 1);

    let shadow_head = h.daemon.pop_avail(&h.pool, 0);
    let chain = h.daemon.read_chain(&h.pool, 0, shadow_head);
    assert_eq!(chain.len(), 1);
    assert_eq!(chain[0].len(), 512);
    assert!(!chain[0].is_write_only());
    assert!(chain[0].addr().raw_value() >= h.pool.arena_base());
    assert_eq!(
        read_back(h.pool.mem(), chain[0].addr().raw_value(), 512),
        vec![0x5a; 512]
    );
}

#[test]
fn mirror_writable_descriptor_allocates_but_does_not_copy() {
    let mut h = harness(8, 8192);
    let buf = h.ring.alloc_buf(256);
    fill(&h.mem, buf, 256, 0xab);
    let head = h.ring.chain(&h.mem, &[(buf, 256, true)]);
    h.ring.publish(&h.mem, head);

    assert_eq!(mirror(&mut h).chains, 1);
    let shadow_head = h.daemon.pop_avail(&h.pool, 0);
    let chain = h.daemon.read_chain(&h.pool, 0, shadow_head);
    assert!(chain[0].is_write_only());
    // Guest data must not leak into the pool for writable buffers.
    assert_eq!(
        read_back(h.pool.mem(), chain[0].addr().raw_value(), 256),
        vec![0u8; 256]
    );
}

#[test]
fn mirror_chain_preserves_order_flags_and_linkage() {
    let mut h = harness(8, 8192);
    let (a, b, c) = (
        h.ring.alloc_buf(0x100),
        h.ring.alloc_buf(0x200),
        h.ring.alloc_buf(0x40),
    );
    fill(&h.mem, a, 0x100, 1);
    let head = h.ring.chain(
        &h.mem,
        &[(a, 0x100, false), (b, 0x200, true), (c, 0x40, true)],
    );
    h.ring.publish(&h.mem, head);

    assert_eq!(mirror(&mut h).chains, 1);
    let shadow_head = h.daemon.pop_avail(&h.pool, 0);
    let chain = h.daemon.read_chain(&h.pool, 0, shadow_head);
    assert_eq!(chain.len(), 3);
    assert_eq!(
        chain.iter().map(|d| d.len()).collect::<Vec<_>>(),
        vec![0x100, 0x200, 0x40]
    );
    assert_eq!(
        chain.iter().map(|d| d.is_write_only()).collect::<Vec<_>>(),
        vec![false, true, true]
    );
}

#[test]
fn mirror_multiple_chains_in_one_call() {
    let mut h = harness(8, 8192);
    for _ in 0..3 {
        let buf = h.ring.alloc_buf(64);
        let head = h.ring.chain(&h.mem, &[(buf, 64, false)]);
        h.ring.publish(&h.mem, head);
    }
    let out = mirror(&mut h);
    assert_eq!(
        out,
        MirrorOutcome {
            chains: 3,
            stalled: false
        }
    );
    assert_eq!(h.daemon.avail_idx(&h.pool, 0), 3);
    let heads: Vec<u16> = (0..3).map(|_| h.daemon.pop_avail(&h.pool, 0)).collect();
    assert_eq!(heads.len(), 3);
    assert!(heads.windows(2).all(|w| w[0] != w[1]));
}

#[test]
fn mirror_idle_when_no_new_entries() {
    let mut h = harness(8, 8192);
    let buf = h.ring.alloc_buf(64);
    let head = h.ring.chain(&h.mem, &[(buf, 64, false)]);
    h.ring.publish(&h.mem, head);
    assert_eq!(mirror(&mut h).chains, 1);
    assert_eq!(
        mirror(&mut h),
        MirrorOutcome {
            chains: 0,
            stalled: false
        }
    );
}

#[test]
fn mirror_zero_length_descriptor() {
    let mut h = harness(8, 8192);
    let (a, b) = (h.ring.alloc_buf(64), h.ring.alloc_buf(64));
    let head = h.ring.chain(&h.mem, &[(a, 0, false), (b, 16, true)]);
    h.ring.publish(&h.mem, head);
    assert_eq!(mirror(&mut h).chains, 1);
    // Only the 16-byte segment consumes arena space (rounded to 64).
    assert_eq!(h.pool.free_bytes(), h.pool.buffer_capacity() - 64);
    let shadow_head = h.daemon.pop_avail(&h.pool, 0);
    let chain = h.daemon.read_chain(&h.pool, 0, shadow_head);
    assert_eq!(chain[0].len(), 0);
    assert_eq!(chain[1].len(), 16);
}

#[test]
fn mirror_does_not_forward_guest_no_interrupt_flag() {
    let mut h = harness(8, 8192);
    h.ring
        .set_avail_flags(&h.mem, VRING_AVAIL_F_NO_INTERRUPT as u16);
    let buf = h.ring.alloc_buf(64);
    let head = h.ring.chain(&h.mem, &[(buf, 64, false)]);
    h.ring.publish(&h.mem, head);
    assert_eq!(mirror(&mut h).chains, 1);
    assert_eq!(h.daemon.avail_flags(&h.pool, 0), 0);
}

#[test]
fn mirror_uses_shadow_allocated_slots() {
    let mut h = harness(8, 8192);
    // Burn guest descriptor slots 0..5 on unpublished chains so the
    // published chain's guest head is 5.
    for _ in 0..5 {
        let buf = h.ring.alloc_buf(16);
        h.ring.chain(&h.mem, &[(buf, 16, false)]);
    }
    let buf = h.ring.alloc_buf(16);
    let head = h.ring.chain(&h.mem, &[(buf, 16, false)]);
    assert_eq!(head, 5);
    h.ring.publish(&h.mem, head);
    assert_eq!(mirror(&mut h).chains, 1);
    // Shadow slots come from the VMM's own free stack, starting at 0.
    assert_eq!(h.daemon.pop_avail(&h.pool, 0), 0);
}

#[test]
fn mirror_indirect_flag_marks_queue_broken() {
    let mut h = harness(8, 8192);
    let table = h.ring.alloc_buf(64);
    h.ring
        .desc(&h.mem, 0, table, 16, VRING_DESC_F_INDIRECT as u16, 0);
    h.ring.publish(&h.mem, 0);
    assert_eq!(
        mirror(&mut h),
        MirrorOutcome {
            chains: 0,
            stalled: false
        }
    );
    assert!(h.sq.is_broken());
    // Broken queues consume nothing further.
    let buf = h.ring.alloc_buf(64);
    let head = h.ring.chain(&h.mem, &[(buf, 64, false)]);
    h.ring.publish(&h.mem, head);
    assert_eq!(mirror(&mut h).chains, 0);
}

#[test]
fn mirror_chain_longer_than_queue_marks_queue_broken() {
    let mut h = harness(4, 8192);
    let buf = h.ring.alloc_buf(64);
    // 0 -> 1 -> 2 -> 3 -> 0: a descriptor loop.
    for slot in 0u16..4 {
        h.ring.desc(
            &h.mem,
            slot,
            buf,
            16,
            VRING_DESC_F_NEXT as u16,
            (slot + 1) % 4,
        );
    }
    h.ring.publish(&h.mem, 0);
    assert_eq!(mirror(&mut h).chains, 0);
    assert!(h.sq.is_broken());
}

#[test]
fn mirror_desc_addr_outside_guest_memory_marks_queue_broken() {
    let mut h = harness(8, 8192);
    let head = h.ring.chain(&h.mem, &[(0xdead_0000_0000, 64, false)]);
    h.ring.publish(&h.mem, head);
    assert_eq!(mirror(&mut h).chains, 0);
    assert!(h.sq.is_broken());
    assert_eq!(h.pool.free_bytes(), h.pool.buffer_capacity());
}

// ---- Backpressure ----

#[test]
fn mirror_stalls_when_arena_exhausted_and_rolls_back() {
    let mut h = harness(8, 256);
    let a = h.ring.alloc_buf(192);
    let head = h.ring.chain(&h.mem, &[(a, 192, false)]);
    h.ring.publish(&h.mem, head);
    assert_eq!(
        mirror(&mut h),
        MirrorOutcome {
            chains: 1,
            stalled: false
        }
    );

    let b = h.ring.alloc_buf(128);
    let head = h.ring.chain(&h.mem, &[(b, 128, false)]);
    h.ring.publish(&h.mem, head);
    let out = mirror(&mut h);
    assert_eq!(
        out,
        MirrorOutcome {
            chains: 0,
            stalled: true
        }
    );
    assert!(h.sq.is_stalled());
    // Rollback: no partial allocation, nothing extra in flight.
    assert_eq!(h.pool.free_bytes(), 256 - 192);
    assert_eq!(h.sq.inflight_count(), 1);
    assert_eq!(h.daemon.avail_idx(&h.pool, 0), 1);
}

#[test]
fn mirror_stall_is_all_or_nothing_across_chains() {
    let mut h = harness(8, 256);
    let a = h.ring.alloc_buf(128);
    let head = h.ring.chain(&h.mem, &[(a, 128, false)]);
    h.ring.publish(&h.mem, head);
    let b = h.ring.alloc_buf(192);
    let head = h.ring.chain(&h.mem, &[(b, 192, false)]);
    h.ring.publish(&h.mem, head);

    let out = mirror(&mut h);
    assert_eq!(
        out,
        MirrorOutcome {
            chains: 1,
            stalled: true
        }
    );
    assert_eq!(h.daemon.avail_idx(&h.pool, 0), 1);
    assert_eq!(h.pool.free_bytes(), 256 - 128);
}

#[test]
fn mirror_oversized_chain_sets_permanent_stall_and_logs_once() {
    let mut h = harness(8, 256);
    let a = h.ring.alloc_buf(512);
    let head = h.ring.chain(&h.mem, &[(a, 512, false)]);
    h.ring.publish(&h.mem, head);
    assert_eq!(
        mirror(&mut h),
        MirrorOutcome {
            chains: 0,
            stalled: true
        }
    );
    assert!(h.sq.is_stalled());
    assert!(h.sq.stall_logged());
    // Still stalled on retry; the episode is only logged once.
    assert_eq!(
        mirror(&mut h),
        MirrorOutcome {
            chains: 0,
            stalled: true
        }
    );
    assert!(h.sq.stall_logged());
}

#[test]
fn mirror_slot_exhaustion_stalls() {
    // A compliant guest cannot exhaust shadow slots (shadow slot
    // consumption equals guest descriptor consumption and the
    // capacities match), but a guest publishing the same chain head
    // several times can: each duplicate gets its own shadow slots.
    let mut h = harness(4, 1 << 20);
    let (a, b) = (h.ring.alloc_buf(64), h.ring.alloc_buf(64));
    let head = h.ring.chain(&h.mem, &[(a, 64, false), (b, 64, false)]);
    for _ in 0..3 {
        h.ring.publish(&h.mem, head);
    }
    // Two duplicates consume all four shadow slots; the third stalls.
    let out = mirror(&mut h);
    assert_eq!(
        out,
        MirrorOutcome {
            chains: 2,
            stalled: true
        }
    );
}

// ---- Completion ----

#[test]
fn complete_copies_back_writable_data_and_publishes_guest_used() {
    let mut h = harness(8, 8192);
    let (req, resp) = (h.ring.alloc_buf(64), h.ring.alloc_buf(256));
    fill(&h.mem, req, 64, 0x11);
    let head = h.ring.chain(&h.mem, &[(req, 64, false), (resp, 256, true)]);
    h.ring.publish(&h.mem, head);
    assert_eq!(mirror(&mut h).chains, 1);

    h.daemon.serve_one(&h.pool, 0, 0x77);
    let out = complete(&mut h);
    assert_eq!(out.chains, 1);
    assert!(out.needs_interrupt);
    assert_eq!(read_back(&h.mem, resp, 256), vec![0x77; 256]);
    assert_eq!(h.ring.used_idx(&h.mem), 1);
    assert_eq!(h.ring.used_elem(&h.mem, 0), (u32::from(head), 256));
    assert_eq!(h.sq.inflight_count(), 0);
}

#[test]
fn complete_respects_daemon_len_cap() {
    let mut h = harness(8, 8192);
    let resp = h.ring.alloc_buf(256);
    fill(&h.mem, resp, 256, 0xee); // sentinel
    let head = h.ring.chain(&h.mem, &[(resp, 256, true)]);
    h.ring.publish(&h.mem, head);
    assert_eq!(mirror(&mut h).chains, 1);

    let shadow_head = h.daemon.pop_avail(&h.pool, 0);
    let chain = h.daemon.read_chain(&h.pool, 0, shadow_head);
    h.pool
        .mem()
        .write_slice(&[0x33; 256], chain[0].addr())
        .unwrap();
    h.daemon.complete(&h.pool, 0, shadow_head, 4);

    assert_eq!(complete(&mut h).chains, 1);
    let got = read_back(&h.mem, resp, 256);
    assert_eq!(&got[..4], &[0x33; 4]);
    assert_eq!(&got[4..], &[0xee; 252][..]);
    assert_eq!(h.ring.used_elem(&h.mem, 0), (u32::from(head), 4));
}

#[test]
fn complete_caps_len_at_writable_total() {
    let mut h = harness(8, 8192);
    let (req, resp) = (h.ring.alloc_buf(64), h.ring.alloc_buf(128));
    let head = h.ring.chain(&h.mem, &[(req, 64, false), (resp, 128, true)]);
    h.ring.publish(&h.mem, head);
    assert_eq!(mirror(&mut h).chains, 1);

    let shadow_head = h.daemon.pop_avail(&h.pool, 0);
    // The daemon lies: reports more written than the writable total.
    h.daemon.complete(&h.pool, 0, shadow_head, 9999);
    assert_eq!(complete(&mut h).chains, 1);
    assert_eq!(h.ring.used_elem(&h.mem, 0), (u32::from(head), 128));
}

#[test]
fn complete_readonly_chain_copies_nothing() {
    let mut h = harness(8, 8192);
    let req = h.ring.alloc_buf(64);
    fill(&h.mem, req, 64, 0x44);
    let head = h.ring.chain(&h.mem, &[(req, 64, false)]);
    h.ring.publish(&h.mem, head);
    assert_eq!(mirror(&mut h).chains, 1);

    h.daemon.serve_one(&h.pool, 0, 0x99);
    assert_eq!(complete(&mut h).chains, 1);
    assert_eq!(read_back(&h.mem, req, 64), vec![0x44; 64]);
    assert_eq!(h.ring.used_elem(&h.mem, 0), (u32::from(head), 0));
}

#[test]
fn complete_frees_and_scrubs_extents_and_recycles_slots() {
    let mut h = harness(2, 8192);
    let resp = h.ring.alloc_buf(128);
    let head = h.ring.chain(&h.mem, &[(resp, 128, true)]);
    h.ring.publish(&h.mem, head);
    assert_eq!(mirror(&mut h).chains, 1);
    let shadow_head = h.daemon.pop_avail(&h.pool, 0);
    let chain = h.daemon.read_chain(&h.pool, 0, shadow_head);
    let pool_addr = chain[0].addr();
    h.pool.mem().write_slice(&[0x55; 128], pool_addr).unwrap();
    h.daemon.complete(&h.pool, 0, shadow_head, 128);
    assert_eq!(complete(&mut h).chains, 1);

    assert_eq!(h.pool.free_bytes(), h.pool.buffer_capacity());
    assert_eq!(
        read_back(h.pool.mem(), pool_addr.raw_value(), 128),
        vec![0u8; 128]
    );

    // The freed slot can immediately serve another chain (queue size
    // 2, so exhaustion would show if slots leaked).
    for _ in 0..4 {
        let buf = h.ring.alloc_buf(64);
        let head = h.ring.chain(&h.mem, &[(buf, 64, true)]);
        h.ring.publish(&h.mem, head);
        assert_eq!(mirror(&mut h).chains, 1);
        h.daemon.serve_one(&h.pool, 0, 1);
        assert_eq!(complete(&mut h).chains, 1);
    }
}

#[test]
fn complete_out_of_order_completions() {
    let mut h = harness(8, 8192);
    let mut heads = Vec::new();
    let mut bufs = Vec::new();
    for _ in 0..2 {
        let buf = h.ring.alloc_buf(64);
        let head = h.ring.chain(&h.mem, &[(buf, 64, true)]);
        h.ring.publish(&h.mem, head);
        heads.push(head);
        bufs.push(buf);
    }
    assert_eq!(mirror(&mut h).chains, 2);
    let s0 = h.daemon.pop_avail(&h.pool, 0);
    let s1 = h.daemon.pop_avail(&h.pool, 0);

    // Complete the second submission first.
    h.daemon.complete(&h.pool, 0, s1, 64);
    assert_eq!(complete(&mut h).chains, 1);
    assert_eq!(h.ring.used_elem(&h.mem, 0), (u32::from(heads[1]), 64));

    h.daemon.complete(&h.pool, 0, s0, 64);
    assert_eq!(complete(&mut h).chains, 1);
    assert_eq!(h.ring.used_elem(&h.mem, 1), (u32::from(heads[0]), 64));
    assert_eq!(h.ring.used_idx(&h.mem), 2);
}

#[test]
fn complete_multiple_in_one_call() {
    let mut h = harness(8, 8192);
    for _ in 0..3 {
        let buf = h.ring.alloc_buf(64);
        let head = h.ring.chain(&h.mem, &[(buf, 64, true)]);
        h.ring.publish(&h.mem, head);
    }
    assert_eq!(mirror(&mut h).chains, 3);
    for _ in 0..3 {
        h.daemon.serve_one(&h.pool, 0, 9);
    }
    let out = complete(&mut h);
    assert_eq!(out.chains, 3);
    assert_eq!(h.ring.used_idx(&h.mem), 3);
}

#[test]
fn complete_idle_when_no_new_used() {
    let mut h = harness(8, 8192);
    assert_eq!(
        complete(&mut h),
        CompleteOutcome {
            chains: 0,
            needs_interrupt: false
        }
    );
}

#[test]
fn mirror_and_complete_wrap_indices() {
    let mut h = harness(4, 8192);
    // Drive enough traffic through a tiny queue to wrap the ring
    // positions many times over.
    for round in 0..40u32 {
        let buf = h.ring.alloc_buf(64);
        fill(&h.mem, buf, 64, round as u8);
        let head = h.ring.chain(&h.mem, &[(buf, 64, true)]);
        h.ring.publish(&h.mem, head);
        assert_eq!(mirror(&mut h).chains, 1, "round {round}");
        h.daemon.serve_one(&h.pool, 0, round as u8);
        assert_eq!(complete(&mut h).chains, 1, "round {round}");
        assert_eq!(read_back(&h.mem, buf, 64), vec![round as u8; 64]);
    }
    assert_eq!(h.ring.used_idx(&h.mem), 40);
    assert_eq!(h.pool.free_bytes(), h.pool.buffer_capacity());
}

#[test]
fn complete_unknown_id_marks_queue_broken() {
    let mut h = harness(8, 8192);
    h.daemon.complete(&h.pool, 0, 3, 0);
    let out = complete(&mut h);
    assert_eq!(out.chains, 0);
    assert!(h.sq.is_broken());
}

#[test]
fn complete_stale_duplicate_id_marks_queue_broken() {
    let mut h = harness(8, 8192);
    let buf = h.ring.alloc_buf(64);
    let head = h.ring.chain(&h.mem, &[(buf, 64, true)]);
    h.ring.publish(&h.mem, head);
    assert_eq!(mirror(&mut h).chains, 1);
    let shadow_head = h.daemon.pop_avail(&h.pool, 0);
    h.daemon.complete(&h.pool, 0, shadow_head, 64);
    assert_eq!(complete(&mut h).chains, 1);
    // The daemon completes the same shadow head again.
    h.daemon.complete(&h.pool, 0, shadow_head, 64);
    assert_eq!(complete(&mut h).chains, 0);
    assert!(h.sq.is_broken());
}

#[test]
fn complete_honors_guest_no_interrupt_flag() {
    let mut h = harness(8, 8192);
    h.ring
        .set_avail_flags(&h.mem, VRING_AVAIL_F_NO_INTERRUPT as u16);
    let buf = h.ring.alloc_buf(64);
    let head = h.ring.chain(&h.mem, &[(buf, 64, true)]);
    h.ring.publish(&h.mem, head);
    assert_eq!(mirror(&mut h).chains, 1);
    h.daemon.serve_one(&h.pool, 0, 1);
    let out = complete(&mut h);
    assert_eq!(out.chains, 1);
    assert!(!out.needs_interrupt);

    // With the flag cleared, completions do interrupt.
    h.ring.set_avail_flags(&h.mem, 0);
    let buf = h.ring.alloc_buf(64);
    let head = h.ring.chain(&h.mem, &[(buf, 64, true)]);
    h.ring.publish(&h.mem, head);
    assert_eq!(mirror(&mut h).chains, 1);
    h.daemon.serve_one(&h.pool, 0, 2);
    assert!(complete(&mut h).needs_interrupt);
}

#[test]
fn complete_uses_captured_segments_not_live_desc_table() {
    let mut h = harness(8, 8192);
    let (buf1, buf2) = (h.ring.alloc_buf(64), h.ring.alloc_buf(64));
    fill(&h.mem, buf2, 64, 0xcc); // sentinel in the decoy buffer
    let head = h.ring.chain(&h.mem, &[(buf1, 64, true)]);
    h.ring.publish(&h.mem, head);
    assert_eq!(mirror(&mut h).chains, 1);

    // The (misbehaving) guest redirects the descriptor after submit.
    h.ring.desc(&h.mem, head, buf2, 64, 0, 0);

    h.daemon.serve_one(&h.pool, 0, 0x77);
    assert_eq!(complete(&mut h).chains, 1);
    // Copy-back lands at the captured address, not the rewritten one.
    assert_eq!(read_back(&h.mem, buf1, 64), vec![0x77; 64]);
    assert_eq!(read_back(&h.mem, buf2, 64), vec![0xcc; 64]);
}

#[test]
fn broken_queue_complete_is_idle() {
    let mut h = harness(8, 8192);
    h.daemon.complete(&h.pool, 0, 5, 0);
    assert_eq!(complete(&mut h).chains, 0);
    assert!(h.sq.is_broken());
    // Even valid-looking completions are ignored once broken.
    h.daemon.complete(&h.pool, 0, 0, 0);
    assert_eq!(
        complete(&mut h),
        CompleteOutcome {
            chains: 0,
            needs_interrupt: false
        }
    );
}

// ---- Lifecycle & accounting ----

#[test]
fn reset_session_starts_counters_at_base() {
    let mut h = harness(8, 8192);
    h.ring.set_start(&h.mem, 3);
    h.q = h.ring.queue();
    h.sq.reset_session(3);
    h.daemon = FakeDaemon::new(1, 8);
    h.daemon.set_start(0, 3);
    // Pretend the shadow avail idx was restored to base 3.
    let buf = h.ring.alloc_buf(64);
    let head = h.ring.chain(&h.mem, &[(buf, 64, true)]);
    h.ring.publish(&h.mem, head);
    assert_eq!(mirror(&mut h).chains, 1);
    assert_eq!(h.daemon.avail_idx(&h.pool, 0), 4);
    h.daemon.serve_one(&h.pool, 0, 5);
    assert_eq!(complete(&mut h).chains, 1);
    assert_eq!(h.ring.used_idx(&h.mem), 4);
    assert_eq!(h.sq.inflight_count(), 0);
}

// ---- Restore priming ----

#[test]
fn verify_drained_reflects_inflight() {
    let mut h = harness(8, 8192);
    assert!(h.sq.verify_drained());
    let buf = h.ring.alloc_buf(64);
    let head = h.ring.chain(&h.mem, &[(buf, 64, true)]);
    h.ring.publish(&h.mem, head);
    assert_eq!(mirror(&mut h).chains, 1);
    assert!(!h.sq.verify_drained());
    h.daemon.serve_one(&h.pool, 0, 1);
    assert_eq!(complete(&mut h).chains, 1);
    assert!(h.sq.verify_drained());
}

#[test]
fn restore_mirror_between_base_and_avail_idx() {
    // A queue restored with avail idx 5, used idx 3, backend base 3
    // must mirror exactly the two chains 3 and 4 on the first sweep.
    let mut h = harness(8, 8192);
    h.ring.set_start(&h.mem, 3);
    // Publish two chains, advancing avail idx from 3 to 5.
    let mut heads = Vec::new();
    for _ in 0..2 {
        let buf = h.ring.alloc_buf(64);
        let head = h.ring.chain(&h.mem, &[(buf, 64, true)]);
        h.ring.publish(&h.mem, head);
        heads.push(head);
    }
    h.q = h.ring.queue();
    h.sq.reset_session(3);
    h.daemon = FakeDaemon::new(1, 8);
    h.daemon.set_start(0, 3);

    let out = mirror(&mut h);
    assert_eq!(out.chains, 2);
    assert_eq!(h.daemon.avail_idx(&h.pool, 0), 5);
    assert!(!h.sq.verify_drained());
}

#[test]
fn restore_base_equal_avail_idx_is_noop() {
    let mut h = harness(8, 8192);
    h.ring.set_start(&h.mem, 7);
    h.q = h.ring.queue();
    h.sq.reset_session(7);
    h.daemon = FakeDaemon::new(1, 8);
    h.daemon.set_start(0, 7);
    // Nothing published since the base, so the sweep mirrors nothing.
    assert_eq!(mirror(&mut h).chains, 0);
    assert!(h.sq.verify_drained());
}

#[test]
fn restore_with_wrapped_indices() {
    // Base near u16::MAX so the restored indices wrap during mirroring.
    let base = u16::MAX - 1;
    let mut h = harness(8, 8192);
    h.ring.set_start(&h.mem, base);
    for _ in 0..3 {
        let buf = h.ring.alloc_buf(64);
        let head = h.ring.chain(&h.mem, &[(buf, 64, true)]);
        h.ring.publish(&h.mem, head);
    }
    h.q = h.ring.queue();
    h.sq.reset_session(base);
    h.daemon = FakeDaemon::new(1, 8);
    h.daemon.set_start(0, base);
    assert_eq!(mirror(&mut h).chains, 3);
    // base + 3 wraps past u16::MAX to 1.
    assert_eq!(h.daemon.avail_idx(&h.pool, 0), base.wrapping_add(3));
}

#[test]
fn stall_recovery_after_completion_frees_space() {
    let mut h = harness(8, 256);
    let a = h.ring.alloc_buf(192);
    let head = h.ring.chain(&h.mem, &[(a, 192, true)]);
    h.ring.publish(&h.mem, head);
    assert_eq!(mirror(&mut h).chains, 1);

    let b = h.ring.alloc_buf(128);
    let head_b = h.ring.chain(&h.mem, &[(b, 128, true)]);
    h.ring.publish(&h.mem, head_b);
    assert_eq!(
        mirror(&mut h),
        MirrorOutcome {
            chains: 0,
            stalled: true
        }
    );
    assert!(h.sq.is_stalled());

    // Completion frees 192 bytes; the retry then succeeds.
    h.daemon.serve_one(&h.pool, 0, 1);
    assert_eq!(complete(&mut h).chains, 1);
    let out = mirror(&mut h);
    assert_eq!(
        out,
        MirrorOutcome {
            chains: 1,
            stalled: false
        }
    );
    assert!(!h.sq.is_stalled());
    assert!(!h.sq.stall_logged());
}

#[test]
fn soak_10k_requests_accounting_converges() {
    let mut h = harness(8, 4096);
    let mut seed = 0x9e37_79b9_7f4a_7c15u64;
    let mut submitted = 0u32;
    for _ in 0..10_000 {
        seed = seed.wrapping_mul(6364136223846793005).wrapping_add(1);
        let len = 1 + ((seed >> 33) % 1024) as u32;
        let buf = h.ring.alloc_buf(len);
        let head = h.ring.chain(&h.mem, &[(buf, len, (seed & 1) == 1)]);
        h.ring.publish(&h.mem, head);
        let out = mirror(&mut h);
        assert!(!h.sq.is_broken());
        submitted += out.chains as u32;
        // Periodically drain everything in flight to unstall.
        if h.sq.is_stalled() || h.sq.inflight_count() >= 6 {
            while h.sq.inflight_count() > 0 {
                h.daemon.serve_one(&h.pool, 0, seed as u8);
                complete(&mut h);
            }
            submitted += mirror(&mut h).chains as u32;
        }
        // The builder recycles guest buffer space.
        h.ring.reset_bufs();
    }
    // Drain the tail: complete everything in flight and mirror any
    // entries still pending from stalls near the end.
    loop {
        while h.sq.inflight_count() > 0 {
            h.daemon.serve_one(&h.pool, 0, 0);
            complete(&mut h);
        }
        let out = mirror(&mut h);
        submitted += out.chains as u32;
        if out.chains == 0 && !out.stalled {
            break;
        }
    }
    assert_eq!(submitted, 10_000);
    assert_eq!(h.pool.free_bytes(), h.pool.buffer_capacity());
    assert!(!h.sq.is_broken());
    assert_eq!(h.sq.inflight_count(), 0);
}

#[test]
fn interleaved_two_queue_pool_sharing() {
    // One pool shared by two queues of the same device, each with its
    // own guest ring.
    let mut mem = guest_mem();
    let mut pool = new_pool(2, 8, 256);
    let mut ring0 = GuestRingBuilder::new(8);
    let mut ring1 = GuestRingBuilder::new_at(8, 0x80000);
    let mut q0 = ring0.queue();
    let mut q1 = ring1.queue();
    let mut sq0 = ShadowQueue::new(
        ShadowQueueConfig {
            queue_index: 0,
            queue_size: 8,
        },
        pool.ring_offsets(0),
    );
    let mut sq1 = ShadowQueue::new(
        ShadowQueueConfig {
            queue_index: 1,
            queue_size: 8,
        },
        pool.ring_offsets(1),
    );
    let mut daemon = FakeDaemon::new(2, 8);

    // Queue 0 takes the whole arena.
    let a = ring0.alloc_buf(256);
    let head = ring0.chain(&mem, &[(a, 256, true)]);
    ring0.publish(&mem, head);
    assert_eq!(sq0.mirror_avail(&mut mem, &mut q0, &mut pool).chains, 1);
    assert_eq!(pool.free_bytes(), 0);

    // Queue 1 stalls for space.
    let b = ring1.alloc_buf(128);
    let head_b = ring1.chain(&mem, &[(b, 128, true)]);
    ring1.publish(&mem, head_b);
    let out = sq1.mirror_avail(&mut mem, &mut q1, &mut pool);
    assert_eq!(
        out,
        MirrorOutcome {
            chains: 0,
            stalled: true
        }
    );

    // Completing queue 0's chain frees space for queue 1.
    daemon.serve_one(&pool, 0, 7);
    assert_eq!(sq0.complete_used(&mut mem, &mut q0, &mut pool).chains, 1);
    let out = sq1.mirror_avail(&mut mem, &mut q1, &mut pool);
    assert_eq!(
        out,
        MirrorOutcome {
            chains: 1,
            stalled: false
        }
    );
}

// ---- Pool errors and layout ----

#[test]
fn pool_rejects_memory_that_does_not_map_it() {
    let layout = PoolLayout {
        num_queues: 1,
        queue_size: 8,
        buffer_capacity: 8192,
    };
    let size = layout.size().unwrap();
    let short = GuestMemoryMmap::from_ranges(&[(GuestAddress(0), size as usize - 4096)]).unwrap();
    assert!(matches!(
        BouncePool::new(&layout, short),
        Err(BounceError::PoolNotMapped { size: s }) if s == size
    ));
    let elsewhere =
        GuestMemoryMmap::from_ranges(&[(GuestAddress(4096), size as usize)]).unwrap();
    assert!(matches!(
        BouncePool::new(&layout, elsewhere),
        Err(BounceError::PoolNotMapped { .. })
    ));
}

#[test]
fn pool_rejects_a_layout_beyond_the_address_space() {
    let layout = PoolLayout {
        num_queues: usize::MAX,
        queue_size: 256,
        buffer_capacity: 0,
    };
    assert_eq!(layout.size(), None);
    let mem = GuestMemoryMmap::from_ranges(&[(GuestAddress(0), 4096)]).unwrap();
    assert!(matches!(
        BouncePool::new(&layout, mem),
        Err(BounceError::PoolTooLarge)
    ));
    let layout = PoolLayout {
        num_queues: 0,
        queue_size: 256,
        buffer_capacity: u64::MAX,
    };
    assert_eq!(layout.size(), None);
    let layout = PoolLayout {
        num_queues: 0,
        queue_size: 256,
        buffer_capacity: u64::MAX - 4095,
    };
    assert_eq!(layout.size(), Some(0xffff_ffff_ffff_f000));
}

#[test]
fn pool_layout_exact_offsets() {
    let pool = new_pool(2, 256, 5000);
    // 16 * 256 bytes of descriptors, 520 of avail ring, 2056 of used ring.
    let first = pool.ring_offsets(0);
    assert_eq!((first.desc, first.avail, first.used), (0, 4096, 4616));
    let second = pool.ring_offsets(1);
    assert_eq!((second.desc, second.avail, second.used), (8192, 12288, 12808));
    assert_eq!(pool.arena_base(), 16384);
    assert_eq!(pool.size(), 16384 + 8192);
    assert_eq!(pool.buffer_capacity(), 4992);
}

#[test]
fn pool_free_errors_name_the_extent() {
    let mut pool = new_pool(1, 8, 8192);
    assert!(matches!(
        pool.free(64, 64),
        Err(BounceError::InvalidFree { offset: 64, len: 64 })
    ));
    let addr = pool.allocate(64).unwrap();
    pool.free(addr, 64).unwrap();
    assert!(matches!(
        pool.free(addr, 64),
        Err(BounceError::InvalidFree { offset: 0, len: 64 })
    ));
    assert!(pool.free(addr, 0).is_err());
    assert_eq!(pool.free_bytes(), pool.buffer_capacity());
}

#[test]
fn free_scrubs_the_padding_too() {
    let mut pool = new_pool(1, 8, 16384);
    let addr = pool.allocate(9000).unwrap();
    let next = pool.allocate(64).unwrap();
    fill(pool.mem(), addr, 9024, 0xaa);
    fill(pool.mem(), next, 64, 0xbb);
    pool.free(addr, 9000).unwrap();
    assert_eq!(read_back(pool.mem(), addr, 9024), vec![0u8; 9024]);
    assert_eq!(read_back(pool.mem(), next, 64), vec![0xbb; 64]);
}

// ---- Faults ----

#[test]
fn faults_of_mirroring_are_told_apart() {
    // Indirect head.
    let mut h = harness(8, 8192);
    let table = h.ring.alloc_buf(64);
    h.ring
        .desc(&h.mem, 0, table, 16, VRING_DESC_F_INDIRECT as u16, 0);
    h.ring.publish(&h.mem, 0);
    mirror(&mut h);
    assert_eq!(h.sq.fault(), Some(QueueFault::IndirectDescriptors));

    // A successor outside the table.
    let mut h = harness(8, 8192);
    let buf = h.ring.alloc_buf(64);
    h.ring
        .desc(&h.mem, 0, buf, 16, VRING_DESC_F_NEXT as u16, 8);
    h.ring.publish(&h.mem, 0);
    mirror(&mut h);
    assert_eq!(h.sq.fault(), Some(QueueFault::MalformedChain));

    // A head outside the table.
    let mut h = harness(8, 8192);
    h.ring.publish(&h.mem, 9);
    mirror(&mut h);
    assert_eq!(h.sq.fault(), Some(QueueFault::MalformedChain));

    // A buffer that runs past the end of guest memory.
    let mut h = harness(8, 8192);
    let head = h
        .ring
        .chain(&h.mem, &[(GUEST_MEM_SIZE as u64 - 8, 16, true)]);
    h.ring.publish(&h.mem, head);
    mirror(&mut h);
    assert_eq!(h.sq.fault(), Some(QueueFault::BufferOutsideGuestMemory));

    // A buffer that runs past the last address.
    let mut h = harness(8, 8192);
    let head = h.ring.chain(&h.mem, &[(u64::MAX - 8, 16, true)]);
    h.ring.publish(&h.mem, head);
    mirror(&mut h);
    assert_eq!(h.sq.fault(), Some(QueueFault::BufferOutsideGuestMemory));
}

#[test]
fn inaccessible_descriptor_table_marks_queue_broken() {
    for desc_table in [0x4000_0000u64, u64::MAX - 15] {
        let mut h = harness(8, 8192);
        h.q.try_set_desc_table_address(GuestAddress(desc_table))
            .unwrap();
        h.ring.publish(&h.mem, 3);
        assert_eq!(mirror(&mut h).chains, 0);
        assert_eq!(h.sq.fault(), Some(QueueFault::DescTableInaccessible));
    }
}

#[test]
fn index_accesses_that_fail_mark_queue_broken() {
    // Ring offsets that no atomic access can use.
    let mut h = harness(8, 8192);
    let mut ring = h.pool.ring_offsets(0);
    ring.avail += 1;
    h.sq = ShadowQueue::new(
        ShadowQueueConfig {
            queue_index: 0,
            queue_size: 8,
        },
        ring,
    );
    let buf = h.ring.alloc_buf(64);
    let head = h.ring.chain(&h.mem, &[(buf, 64, false)]);
    h.ring.publish(&h.mem, head);
    assert_eq!(mirror(&mut h).chains, 1);
    assert_eq!(h.sq.fault(), Some(QueueFault::AvailIndexStoreFailed));

    let mut h = harness(8, 8192);
    let mut ring = h.pool.ring_offsets(0);
    ring.used += 1;
    h.sq = ShadowQueue::new(
        ShadowQueueConfig {
            queue_index: 0,
            queue_size: 8,
        },
        ring,
    );
    assert_eq!(complete(&mut h).chains, 0);
    assert_eq!(h.sq.fault(), Some(QueueFault::UsedIndexLoadFailed));
}

#[test]
fn write_back_to_memory_that_has_gone_marks_queue_broken() {
    let mut h = harness(8, 8192);
    let buf = h.ring.alloc_buf(256);
    let head = h.ring.chain(&h.mem, &[(buf, 256, true)]);
    h.ring.publish(&h.mem, head);
    assert_eq!(mirror(&mut h).chains, 1);
    h.daemon.serve_one(&h.pool, 0, 0x77);
    // The rings stay mapped, the buffer does not.
    h.mem = GuestMemoryMmap::from_ranges(&[(GuestAddress(0), 0x8000)]).unwrap();
    let out = complete(&mut h);
    assert_eq!(
        out,
        CompleteOutcome {
            chains: 0,
            needs_interrupt: false
        }
    );
    assert_eq!(h.sq.fault(), Some(QueueFault::WriteBackFailed));
    // The chain is released all the same.
    assert_eq!(h.sq.inflight_count(), 0);
    assert_eq!(h.pool.free_bytes(), h.pool.buffer_capacity());
}

#[test]
fn used_ring_that_takes_nothing_marks_queue_broken() {
    let mut h = harness(8, 8192);
    h.q.try_set_used_ring_address(GuestAddress(0x4000_0000))
        .unwrap();
    let buf = h.ring.alloc_buf(64);
    let head = h.ring.chain(&h.mem, &[(buf, 64, true)]);
    h.ring.publish(&h.mem, head);
    assert_eq!(mirror(&mut h).chains, 1);
    h.daemon.serve_one(&h.pool, 0, 5);
    assert_eq!(complete(&mut h).chains, 0);
    assert_eq!(h.sq.fault(), Some(QueueFault::UsedPublishFailed));
    // The data had been written before the element was offered.
    assert_eq!(read_back(&h.mem, buf, 64), vec![5; 64]);
}

#[test]
fn first_fault_is_kept_and_broken_queue_takes_nothing() {
    let mut h = harness(8, 8192);
    h.daemon.complete(&h.pool, 0, 3, 0);
    assert_eq!(complete(&mut h).chains, 0);
    assert_eq!(h.sq.fault(), Some(QueueFault::UnknownUsedId));
    let before = h.q.next_avail();
    let buf = h.ring.alloc_buf(64);
    let head = h.ring.chain(&h.mem, &[(buf, 64, false)]);
    h.ring.publish(&h.mem, head);
    assert_eq!(
        mirror(&mut h),
        MirrorOutcome {
            chains: 0,
            stalled: false
        }
    );
    assert_eq!(h.q.next_avail(), before);
    assert_eq!(h.sq.fault(), Some(QueueFault::UnknownUsedId));
}

// ---- Copies ----

#[test]
fn copies_longer_than_a_chunk_cross_regions() {
    // Two adjacent regions; the buffers span the boundary between them.
    let mut h = harness(8, 1 << 20);
    h.mem = GuestMemoryMmap::from_ranges(&[
        (GuestAddress(0), 0x20000),
        (GuestAddress(0x20000), 0x40000),
    ])
    .unwrap();
    let len = 50_001u32;
    let (req, resp) = (0x1c000u64, 0x18123u64 + 0x10000);
    let data: Vec<u8> = (0..len).map(|i| (i % 251) as u8).collect();
    h.mem.write_slice(&data, GuestAddress(req)).unwrap();
    let head = h.ring.chain(&h.mem, &[(req, len, false)]);
    h.ring.publish(&h.mem, head);
    let head2 = h.ring.chain(&h.mem, &[(resp, len, true)]);
    h.ring.publish(&h.mem, head2);
    assert_eq!(mirror(&mut h).chains, 2);

    let s0 = h.daemon.pop_avail(&h.pool, 0);
    let s1 = h.daemon.pop_avail(&h.pool, 0);
    let src = h.daemon.read_chain(&h.pool, 0, s0)[0].addr();
    let dst = h.daemon.read_chain(&h.pool, 0, s1)[0].addr();
    let got = read_back(h.pool.mem(), src.raw_value(), len);
    assert_eq!(got, data);
    h.pool.mem().write_slice(&got, dst).unwrap();
    h.daemon.complete(&h.pool, 0, s0, 0);
    h.daemon.complete(&h.pool, 0, s1, len);
    assert_eq!(complete(&mut h).chains, 2);
    assert_eq!(read_back(&h.mem, resp, len), data);
    assert_eq!(h.pool.free_bytes(), h.pool.buffer_capacity());
}

#[test]
fn written_bytes_fill_writable_segments_in_order() {
    let mut h = harness(8, 8192);
    let (a, b, c) = (
        h.ring.alloc_buf(16),
        h.ring.alloc_buf(16),
        h.ring.alloc_buf(16),
    );
    for buf in [a, b, c] {
        fill(&h.mem, buf, 16, 0xee);
    }
    let head = h
        .ring
        .chain(&h.mem, &[(a, 16, true), (b, 16, false), (c, 16, true)]);
    h.ring.publish(&h.mem, head);
    assert_eq!(mirror(&mut h).chains, 1);
    let slot = h.daemon.pop_avail(&h.pool, 0);
    for desc in h.daemon.read_chain(&h.pool, 0, slot) {
        h.pool.mem().write_slice(&[0x42; 16], desc.addr()).unwrap();
    }
    h.daemon.complete(&h.pool, 0, slot, 20);
    assert_eq!(complete(&mut h).chains, 1);
    assert_eq!(read_back(&h.mem, a, 16), vec![0x42; 16]);
    assert_eq!(read_back(&h.mem, b, 16), vec![0xee; 16]);
    assert_eq!(read_back(&h.mem, c, 4), vec![0x42; 4]);
    assert_eq!(read_back(&h.mem, c + 4, 12), vec![0xee; 12]);
    assert_eq!(h.ring.used_elem(&h.mem, 0), (u32::from(head), 20));
}

#[test]
fn next_request_finds_a_scrubbed_buffer() {
    let mut h = harness(8, 256);
    let buf = h.ring.alloc_buf(256);
    fill(&h.mem, buf, 256, 0x99);
    let head = h.ring.chain(&h.mem, &[(buf, 256, false)]);
    h.ring.publish(&h.mem, head);
    assert_eq!(mirror(&mut h).chains, 1);
    h.daemon.serve_one(&h.pool, 0, 0);
    assert_eq!(complete(&mut h).chains, 1);

    let head = h.ring.chain(&h.mem, &[(buf, 256, true)]);
    h.ring.publish(&h.mem, head);
    assert_eq!(mirror(&mut h).chains, 1);
    let slot = h.daemon.pop_avail(&h.pool, 0);
    let addr = h.daemon.read_chain(&h.pool, 0, slot)[0].addr();
    assert_eq!(
        read_back(h.pool.mem(), addr.raw_value(), 256),
        vec![0u8; 256]
    );
}

// ---- Stalls ----

#[test]
fn stall_report_names_needed_and_available_bytes() {
    let mut h = harness(8, 256);
    let (a, b) = (h.ring.alloc_buf(100), h.ring.alloc_buf(200));
    let head = h.ring.chain(&h.mem, &[(a, 100, false), (b, 200, true)]);
    h.ring.publish(&h.mem, head);
    let position = h.q.next_avail();
    assert_eq!(
        mirror(&mut h),
        MirrorOutcome {
            chains: 0,
            stalled: true
        }
    );
    assert_eq!(
        h.sq.stall_report(),
        Some(StallReport {
            needed: 128 + 256,
            capacity: 256
        })
    );
    // Nothing was taken and nothing is held.
    assert_eq!(h.q.next_avail(), position);
    assert_eq!(h.pool.free_bytes(), 256);
    assert_eq!(h.daemon.avail_idx(&h.pool, 0), 0);
}

#[test]
fn stall_for_want_of_space_right_now_is_not_reported() {
    let mut h = harness(8, 256);
    let a = h.ring.alloc_buf(256);
    for _ in 0..2 {
        let head = h.ring.chain(&h.mem, &[(a, 256, true)]);
        h.ring.publish(&h.mem, head);
    }
    assert_eq!(
        mirror(&mut h),
        MirrorOutcome {
            chains: 1,
            stalled: true
        }
    );
    assert!(h.sq.is_stalled());
    assert_eq!(h.sq.stall_report(), None);
    assert!(!h.sq.stall_logged());
}

// ---- Counters ----

#[test]
fn counters_stay_in_step_with_the_guest_queue() {
    let mut h = harness(8, 8192);
    for round in 0..20u16 {
        for _ in 0..2 {
            let buf = h.ring.alloc_buf(64);
            let head = h.ring.chain(&h.mem, &[(buf, 64, true)]);
            h.ring.publish(&h.mem, head);
        }
        assert_eq!(mirror(&mut h).chains, 2);
        assert_eq!(h.q.next_avail(), 2 * round + 2);
        assert_eq!(h.daemon.avail_idx(&h.pool, 0), h.q.next_avail());
        h.daemon.serve_one(&h.pool, 0, 1);
        h.daemon.serve_one(&h.pool, 0, 1);
        assert_eq!(complete(&mut h).chains, 2);
        assert_eq!(h.q.next_used(), h.q.next_avail());
        assert!(h.sq.verify_drained());
    }
}

#[test]
fn zero_sized_queue_always_stalls() {
    let mut h = harness(8, 8192);
    h.sq = ShadowQueue::new(
        ShadowQueueConfig {
            queue_index: 0,
            queue_size: 0,
        },
        h.pool.ring_offsets(0),
    );
    let buf = h.ring.alloc_buf(64);
    let head = h.ring.chain(&h.mem, &[(buf, 64, true)]);
    h.ring.publish(&h.mem, head);
    assert_eq!(
        mirror(&mut h),
        MirrorOutcome {
            chains: 0,
            stalled: true
        }
    );
}

#[test]
fn queue_that_is_not_ready_offers_nothing() {
    let mut h = harness(8, 8192);
    let buf = h.ring.alloc_buf(64);
    let head = h.ring.chain(&h.mem, &[(buf, 64, true)]);
    h.ring.publish(&h.mem, head);
    h.q.set_ready(false);
    assert_eq!(mirror(&mut h).chains, 0);
    assert!(!h.sq.is_broken());
    h.q.set_ready(true);
    assert_eq!(mirror(&mut h).chains, 1);
}

#[test]
fn event_index_decides_about_the_interrupt() {
    let mut h = harness(8, 8192);
    h.q = h.ring.queue_with(true);
    // The guest asks for an interrupt once three entries are used.
    h.ring.set_used_event(&h.mem, 2);
    let mut wanted = Vec::new();
    for _ in 0..4 {
        let buf = h.ring.alloc_buf(64);
        let head = h.ring.chain(&h.mem, &[(buf, 64, true)]);
        h.ring.publish(&h.mem, head);
        assert_eq!(mirror(&mut h).chains, 1);
        h.daemon.serve_one(&h.pool, 0, 1);
        wanted.push(complete(&mut h).needs_interrupt);
    }
    assert_eq!(wanted, vec![false, false, true, false]);
}

#[test]
fn avail_ring_that_cannot_be_read_defaults_to_an_interrupt() {
    let mut h = harness(8, 8192);
    let buf = h.ring.alloc_buf(64);
    let head = h.ring.chain(&h.mem, &[(buf, 64, true)]);
    h.ring.publish(&h.mem, head);
    assert_eq!(mirror(&mut h).chains, 1);
    h.daemon.serve_one(&h.pool, 0, 1);
    h.q.try_set_avail_ring_address(GuestAddress(0x4000_0000))
        .unwrap();
    let out = complete(&mut h);
    assert_eq!(
        out,
        CompleteOutcome {
            chains: 1,
            needs_interrupt: true
        }
    );
}

// ---- Several queues on one pool ----

#[test]
fn shared_pool_serves_all_queues() {
    let mut mem = guest_mem();
    let pool = new_pool(2, 8, 256);
    let mut rings = [GuestRingBuilder::new(8), GuestRingBuilder::new_at(8, 0x80000)];
    let mut queues = [rings[0].queue(), rings[1].queue()];
    let shadow = (0..2)
        .map(|i| {
            ShadowQueue::new(
                ShadowQueueConfig {
                    queue_index: i,
                    queue_size: 8,
                },
                pool.ring_offsets(i),
            )
        })
        .collect();
    let mut shared = BounceShared { pool, shadow };
    let mut daemon = FakeDaemon::new(2, 8);
    for i in 0..2 {
        let buf = rings[i].alloc_buf(192);
        let head = rings[i].chain(&mem, &[(buf, 192, true)]);
        rings[i].publish(&mem, head);
    }
    assert_eq!(shared.mirror(0, &mut mem, &mut queues[0]).chains, 1);
    assert_eq!(
        shared.mirror(1, &mut mem, &mut queues[1]),
        MirrorOutcome {
            chains: 0,
            stalled: true
        }
    );
    assert_eq!(shared.inflight_total(), 1);

    daemon.serve_one(&shared.pool, 0, 3);
    let out = shared.complete(0, &mut mem, &mut queues[0]);
    assert_eq!(
        out,
        CompleteOutcome {
            chains: 1,
            needs_interrupt: true
        }
    );
    assert_eq!(shared.inflight_total(), 0);
    assert_eq!(shared.mirror(1, &mut mem, &mut queues[1]).chains, 1);
    daemon.serve_one(&shared.pool, 1, 4);
    assert_eq!(shared.complete(1, &mut mem, &mut queues[1]).chains, 1);
    assert_eq!(shared.inflight_total(), 0);
    assert_eq!(shared.pool.free_bytes(), shared.pool.buffer_capacity());
}

// ---- Device set-up ----

fn pool_for(layout: &PoolLayout) -> BouncePool {
    new_pool(layout.num_queues, layout.queue_size, layout.buffer_capacity)
}

#[test]
fn bounce_state_new_default_pool_size() {
    let pool = pool_for(&BounceConfig::default().layout(4, 256));
    assert_eq!(pool.buffer_capacity(), default_buffer_capacity(4, 256));
}

#[test]
fn bounce_state_new_with_override() {
    let cfg = BounceConfig {
        pool_size: Some(1 << 20),
    };
    let pool = pool_for(&cfg.layout(2, 128));
    assert_eq!(pool.buffer_capacity(), 1 << 20);
}

// ---- Worker ----

/// A worker plus everything a test needs to play guest and backend against
/// it. Eventfds are counters, and the event loop is stepped by hand.
struct WorkerHarness {
    mem: GuestMemoryMmap,
    rings: Vec<GuestRingBuilder>,
    queues: Vec<Queue>,
    shared: BounceShared,
    daemon: FakeDaemon,
    guest_kicks: Vec<u64>,
    shadow_kicks: Vec<u64>,
    shadow_calls: Vec<u64>,
    interrupts: Vec<u64>,
    /// Guest interrupts sent when the pause was acknowledged.
    at_barrier: Option<u64>,
}

fn build(num_queues: usize, queue_size: u16, arena: u64) -> WorkerHarness {
    let pool = new_pool(num_queues, queue_size, arena);
    let mut rings = Vec::new();
    let mut shadow = Vec::new();
    for i in 0..num_queues {
        rings.push(GuestRingBuilder::new_at(queue_size, (i as u64) * 0x80000));
        shadow.push(ShadowQueue::new(
            ShadowQueueConfig {
                queue_index: i,
                queue_size,
            },
            pool.ring_offsets(i),
        ));
    }
    WorkerHarness {
        mem: guest_mem(),
        rings,
        queues: Vec::new(),
        shared: BounceShared { pool, shadow },
        daemon: FakeDaemon::new(num_queues, queue_size),
        guest_kicks: vec![0; num_queues],
        shadow_kicks: vec![0; num_queues],
        shadow_calls: vec![0; num_queues],
        interrupts: vec![0; num_queues],
        at_barrier: None,
    }
}

impl WorkerHarness {
    fn start(&mut self) {
        self.queues = self.rings.iter().map(|r| r.queue()).collect();
        self.carry_out(&initial_sweep(self.queues.len()));
    }

    fn carry_out(&mut self, steps: &[WorkerStep]) {
        for step in steps {
            let i = match *step {
                WorkerStep::DrainKick(i) => {
                    self.guest_kicks[i] = 0;
                    i
                }
                WorkerStep::DrainCall(i) => {
                    self.shadow_calls[i] = 0;
                    i
                }
                WorkerStep::Mirror(i) | WorkerStep::Complete(i) => i,
            };
            match self
                .shared
                .perform(*step, &mut self.mem, &mut self.queues[i])
            {
                Some(Signal::KickBackend(q)) => self.shadow_kicks[q] += 1,
                Some(Signal::InterruptGuest(q)) => self.interrupts[q] += 1,
                None => {}
            }
        }
    }

    /// Deliver events to the loop; whether it ended.
    fn deliver(&mut self, events: &[u64]) -> bool {
        let n = self.queues.len();
        let mut action = next_action(LoopAction::Wait, LoopReply::Events(events.len()), false);
        loop {
            let reply = match action {
                LoopAction::Fetch { index, .. } => LoopReply::Event(events[index]),
                LoopAction::Handle { index, .. } => {
                    if let Some(event) = route_event(events[index], n) {
                        self.carry_out(&steps_for(event, n));
                    }
                    LoopReply::Done
                }
                LoopAction::Flush { .. } => {
                    self.carry_out(&drain_round(n));
                    assert_eq!(
                        drain_step(self.shared.inflight_total(), false),
                        DrainStep::Drained
                    );
                    LoopReply::Done
                }
                LoopAction::Acknowledge { .. } => {
                    self.at_barrier = Some(self.interrupts.iter().sum());
                    LoopReply::Done
                }
                LoopAction::CheckResumed { .. } => LoopReply::Paused(false),
                LoopAction::DrainPause { .. } => LoopReply::Done,
                LoopAction::Wait => return false,
                LoopAction::Stop => return true,
                other => panic!("unexpected {other:?}"),
            };
            action = next_action(action, reply, false);
        }
    }

    fn kick_guest(&mut self, q: usize) {
        self.guest_kicks[q] += 1;
        assert!(!self.deliver(&[u64::from(guest_kick_token(q))]));
        assert_eq!(self.guest_kicks[q], 0);
    }

    /// Whether the backend has been kicked on queue `q`.
    fn wait_backend_kick(&mut self, q: usize) -> bool {
        let kicked = self.shadow_kicks[q] > 0;
        self.shadow_kicks[q] = 0;
        kicked
    }

    fn signal_backend_call(&mut self, q: usize) {
        self.shadow_calls[q] += 1;
        assert!(!self.deliver(&[u64::from(backend_call_token(q))]));
        assert_eq!(self.shadow_calls[q], 0);
    }

    fn stop(&mut self) {
        assert!(self.deliver(&[u64::from(EPOLL_HELPER_EVENT_KILL)]));
    }
}

#[test]
fn guest_kick_mirrors_and_kicks_daemon() {
    let mut h = build(1, 8, 8192);
    h.start();
    let buf = h.rings[0].alloc_buf(64);
    fill(&h.mem, buf, 64, 0x5a);
    let head = h.rings[0].chain(&h.mem, &[(buf, 64, false)]);
    h.rings[0].publish(&h.mem, head);
    h.kick_guest(0);

    assert!(h.wait_backend_kick(0), "backend was not kicked");
    let shadow_head = h.daemon.pop_avail(&h.shared.pool, 0);
    let chain = h.daemon.read_chain(&h.shared.pool, 0, shadow_head);
    assert_eq!(chain.len(), 1);
    h.stop();
}

#[test]
fn daemon_call_copies_back_and_interrupts() {
    let mut h = build(1, 8, 8192);
    h.start();
    let resp = h.rings[0].alloc_buf(128);
    let head = h.rings[0].chain(&h.mem, &[(resp, 128, true)]);
    h.rings[0].publish(&h.mem, head);
    h.kick_guest(0);
    assert!(h.wait_backend_kick(0));

    h.daemon.serve_one(&h.shared.pool, 0, 0x77);
    h.signal_backend_call(0);
    assert!(h.interrupts[0] > 0, "no guest interrupt");
    assert_eq!(read_back(&h.mem, resp, 128), vec![0x77; 128]);
    assert_eq!(h.rings[0].used_idx(&h.mem), 1);
    h.stop();
}

#[test]
fn end_to_end_echo_roundtrip() {
    let mut h = build(1, 8, 8192);
    h.start();
    let (req, resp) = (h.rings[0].alloc_buf(64), h.rings[0].alloc_buf(64));
    fill(&h.mem, req, 64, 0x42);
    let head = h.rings[0].chain(&h.mem, &[(req, 64, false), (resp, 64, true)]);
    h.rings[0].publish(&h.mem, head);
    h.kick_guest(0);
    assert!(h.wait_backend_kick(0));

    // The backend echoes the request bytes into the response buffer.
    let shadow_head = h.daemon.pop_avail(&h.shared.pool, 0);
    let chain = h.daemon.read_chain(&h.shared.pool, 0, shadow_head);
    let (src, dst) = (chain[0].addr(), chain[1].addr());
    let mut b = vec![0u8; 64];
    h.shared.pool.mem().read_slice(&mut b, src).unwrap();
    h.shared.pool.mem().write_slice(&b, dst).unwrap();
    h.daemon.complete(&h.shared.pool, 0, shadow_head, 64);

    h.signal_backend_call(0);
    assert!(h.interrupts[0] > 0);
    assert_eq!(read_back(&h.mem, resp, 64), vec![0x42; 64]);
    h.stop();
}

#[test]
fn completion_retries_stalled_queue_across_queue_boundary() {
    // Queue 0 fills the arena, queue 1 stalls; completing queue 0
    // must let the worker mirror queue 1 without a fresh guest kick.
    let mut h = build(2, 8, 256);
    h.start();
    let a = h.rings[0].alloc_buf(256);
    let head0 = h.rings[0].chain(&h.mem, &[(a, 256, true)]);
    h.rings[0].publish(&h.mem, head0);
    h.kick_guest(0);
    assert!(h.wait_backend_kick(0));

    let b = h.rings[1].alloc_buf(128);
    let head1 = h.rings[1].chain(&h.mem, &[(b, 128, true)]);
    h.rings[1].publish(&h.mem, head1);
    h.kick_guest(1);
    // Queue 1 stalls: no backend kick expected yet.
    assert!(!h.wait_backend_kick(1));

    // Complete queue 0; the freed space unblocks queue 1.
    h.daemon.serve_one(&h.shared.pool, 0, 1);
    h.signal_backend_call(0);
    assert!(
        h.wait_backend_kick(1),
        "queue 1 not retried after completion"
    );
    h.stop();
}

#[test]
fn pause_drains_pending_completions_before_barrier() {
    let mut h = build(1, 8, 8192);
    h.start();
    let resp = h.rings[0].alloc_buf(64);
    let head = h.rings[0].chain(&h.mem, &[(resp, 64, true)]);
    h.rings[0].publish(&h.mem, head);
    h.kick_guest(0);
    assert!(h.wait_backend_kick(0));

    // Backend completes but the worker is NOT signalled via the call
    // eventfd; the pause drain must still flush it.
    h.daemon.serve_one(&h.shared.pool, 0, 0x88);
    assert!(!h.deliver(&[u64::from(EPOLL_HELPER_EVENT_PAUSE)]));
    assert_eq!(h.at_barrier, Some(1));
    assert_eq!(read_back(&h.mem, resp, 64), vec![0x88; 64]);
    assert_eq!(h.rings[0].used_idx(&h.mem), 1);
    h.stop();
}

#[test]
fn kill_event_terminates_worker_promptly() {
    let mut h = build(1, 8, 8192);
    h.start();
    // No traffic; killing must return promptly.
    h.stop();
}

#[test]
fn worker_initial_sweep_mirrors_preexisting_avail_entries() {
    // Publish before the worker starts and never kick: the startup
    // sweep must still mirror the entry.
    let mut h = build(1, 8, 8192);
    let buf = h.rings[0].alloc_buf(64);
    let head = h.rings[0].chain(&h.mem, &[(buf, 64, false)]);
    h.rings[0].publish(&h.mem, head);
    h.start();
    assert!(h.wait_backend_kick(0), "initial sweep did not mirror");
    h.stop();
}

#[test]
fn two_queues_route_events_independently() {
    let mut h = build(2, 8, 8192);
    h.start();
    for q in 0..2 {
        let buf = h.rings[q].alloc_buf(64);
        let head = h.rings[q].chain(&h.mem, &[(buf, 64, false)]);
        h.rings[q].publish(&h.mem, head);
        h.kick_guest(q);
        assert!(h.wait_backend_kick(q), "queue {q} not kicked");
    }
    h.stop();
}

#[test]
fn one_queue_leaves_the_other_queues_buffers_alone() {
    let mut h = build(2, 8, 8192);
    h.start();
    let (a, b) = (h.rings[0].alloc_buf(100), h.rings[1].alloc_buf(100));
    fill(&h.mem, a, 100, 0x11);
    fill(&h.mem, b, 100, 0x22);
    let mut extents = Vec::new();
    for (q, buf) in [(0, a), (1, b)] {
        let head = h.rings[q].chain(&h.mem, &[(buf, 100, false)]);
        h.rings[q].publish(&h.mem, head);
        h.kick_guest(q);
        let slot = h.daemon.pop_avail(&h.shared.pool, q);
        let chain = h.daemon.read_chain(&h.shared.pool, q, slot);
        extents.push((slot, chain[0].addr().raw_value()));
    }
    assert_eq!(
        read_back(h.shared.pool.mem(), extents[0].1, 100),
        vec![0x11; 100]
    );
    h.daemon.complete(&h.shared.pool, 0, extents[0].0, 0);
    h.signal_backend_call(0);
    assert_eq!(
        read_back(h.shared.pool.mem(), extents[0].1, 100),
        vec![0; 100]
    );
    assert_eq!(
        read_back(h.shared.pool.mem(), extents[1].1, 100),
        vec![0x22; 100]
    );
}

#[test]
fn free_and_in_flight_bytes_add_up_over_all_queues() {
    let mut h = build(2, 8, 8192);
    h.start();
    let mut in_flight = 0;
    for (q, len) in [(0, 100u32), (1, 64), (0, 1), (1, 1000)] {
        let buf = h.rings[q].alloc_buf(len);
        let head = h.rings[q].chain(&h.mem, &[(buf, len, true)]);
        h.rings[q].publish(&h.mem, head);
        h.kick_guest(q);
        in_flight += u64::from(len).next_multiple_of(64);
        assert_eq!(h.shared.pool.free_bytes() + in_flight, 8192);
    }
    assert_eq!(h.shared.inflight_total(), 4);
    for q in [0, 1, 0, 1] {
        h.daemon.serve_one(&h.shared.pool, q, 1);
        h.signal_backend_call(q);
    }
    assert_eq!(h.shared.inflight_total(), 0);
    assert_eq!(h.shared.pool.free_bytes(), 8192);
    // One extent again.
    assert_eq!(
        h.shared.pool.allocate(8192),
        Some(h.shared.pool.arena_base())
    );
}

#[test]
fn queue_without_entries_completes_nothing() {
    let mut h = harness(8, 8192);
    h.sq = ShadowQueue::new(
        ShadowQueueConfig {
            queue_index: 0,
            queue_size: 0,
        },
        h.pool.ring_offsets(0),
    );
    assert_eq!(complete(&mut h), CompleteOutcome::default());
    assert!(!h.sq.is_broken());
    // A used index that claims otherwise stands for no chain.
    h.daemon.complete(&h.pool, 0, 0, 0);
    assert_eq!(complete(&mut h), CompleteOutcome::default());
    assert_eq!(h.sq.fault(), Some(QueueFault::UnknownUsedId));
}

#[test]
fn pool_addresses_are_multiples_of_the_granule() {
    let mut pool = new_pool(3, 100, 8192);
    assert_eq!(pool.arena_base() % 4096, 0);
    for len in [1, 63, 64, 65, 500] {
        let addr = pool.allocate(len).unwrap();
        assert_eq!(addr % 64, 0);
        assert!(addr + len <= pool.arena_base() + pool.buffer_capacity());
    }
}
