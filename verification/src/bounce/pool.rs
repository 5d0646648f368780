//! The bounce pool: a memory region shared with the vhost-user backend in
//! place of guest RAM.
//!
//! The pool is a single-region [`GuestMemoryMmap`] at guest physical
//! address 0: from the backend's perspective it is the entire guest. It
//! contains one shadow virtqueue (descriptor table, avail ring, used ring)
//! per device queue, followed by a buffer arena managed by
//! [`BounceAllocator`].

use super::allocator::{self, round_len, Arena, BounceAllocator, Extent};
use super::copy::{self, COPY_CHUNK};
use super::memory::{self, Access, GuestMemoryMmap, LoadOrder};
use super::model;
use super::ownership;
use super::ring::Descriptor;
use super::BounceError;
use vstd::prelude::*;

verus! {

/// Page size used for pool internal alignment. vhost-user assumes 4kiB
/// pages, independent of the host page size.
pub const POOL_PAGE_SIZE: u64 = 4096;

/// Sizing parameters for a bounce pool.
#[derive(Clone, Copy, Debug)]
pub struct PoolLayout {
    /// Number of shadow queues to lay out.
    pub num_queues: usize,
    /// Maximum queue size (ring blocks are sized for this; the actual
    /// negotiated queue size may be smaller).
    pub queue_size: u16,
    /// Buffer arena capacity in bytes.
    pub buffer_capacity: u64,
}

/// Pool-relative offsets of one shadow queue's rings.
#[derive(Clone, Copy, Debug, PartialEq, Eq, Structural)]
pub struct RingOffsets {
    pub desc: u64,
    pub avail: u64,
    pub used: u64,
}

/// The least multiple of `align` that is not below `value`.
pub open spec fn aligned_up(value: int, align: int) -> int {
    ((value + align - 1) / align) * align
}

pub open spec fn desc_table_len(queue_size: int) -> int {
    16 * queue_size
}

pub open spec fn avail_ring_len(queue_size: int) -> int {
    6 + 2 * queue_size + 2
}

pub open spec fn used_ring_len(queue_size: int) -> int {
    6 + 8 * queue_size + 2
}

/// Where the used ring starts within a queue's ring block.
pub open spec fn used_start(queue_size: int) -> int {
    aligned_up(desc_table_len(queue_size) + avail_ring_len(queue_size), 4)
}

/// Bytes of a queue's ring block: its rings, filled up to whole pages.
pub open spec fn ring_block_len(queue_size: int) -> int {
    aligned_up(used_start(queue_size) + used_ring_len(queue_size), 4096)
}

/// The rings of queue `i`: the blocks follow one another from offset 0 on.
pub open spec fn ring_at(queue_size: int, i: int) -> RingOffsets {
    let base = i * ring_block_len(queue_size);
    RingOffsets {
        desc: base as u64,
        avail: (base + desc_table_len(queue_size)) as u64,
        used: (base + used_start(queue_size)) as u64,
    }
}

impl PoolLayout {
    /// Where the arena starts.
    pub open spec fn arena_start(self) -> int {
        self.num_queues * ring_block_len(self.queue_size as int)
    }

    /// Bytes of the whole pool.
    pub open spec fn total(self) -> int {
        aligned_up(self.arena_start() + self.buffer_capacity, 4096)
    }

    /// Pool size in bytes (rings and arena) under this layout, or `None`
    /// when no address space is large enough for it.
    pub fn size(&self) -> (r: Option<u64>)
        ensures
            r is Some <==> self.total() <= u64::MAX,
            r matches Some(size) ==> size == self.total(),
    {
        let block: u64 = ring_block_size(self.queue_size);
        let n: u64 = self.num_queues as u64;
        assert(n * block == self.arena_start());
        match n.checked_mul(block) {
            None => None,
            Some(base) => match base.checked_add(self.buffer_capacity) {
                None => None,
                Some(end) => {
                    if end > u64::MAX - (POOL_PAGE_SIZE - 1) {
                        // `end` is aligned only at 0xffff_ffff_ffff_f000.
                        if end % POOL_PAGE_SIZE == 0 {
                            Some(end)
                        } else {
                            None
                        }
                    } else {
                        Some(align_up(end, POOL_PAGE_SIZE))
                    }
                },
            },
        }
    }
}

/// Bytes of one queue's ring block.
fn ring_block_size(queue_size: u16) -> (r: u64)
    ensures
        r == ring_block_len(queue_size as int),
        0 < r <= 0x20_0000,
        r % 4096 == 0,
{
    let used: u64 = align_up(desc_table_size(queue_size) + avail_ring_size(queue_size), 4);
    align_up(used + used_ring_size(queue_size), POOL_PAGE_SIZE)
}

/// The rings of a queue whose block starts at `desc`.
fn rings_from(queue_size: u16, desc: u64) -> (r: RingOffsets)
    requires
        desc % 4 == 0,
        desc + ring_block_len(queue_size as int) <= u64::MAX,
    ensures
        r.desc == desc,
        r.avail == desc + desc_table_len(queue_size as int),
        r.used == desc + used_start(queue_size as int),
{
    let avail: u64 = desc + desc_table_size(queue_size);
    let used: u64 = align_up(avail + avail_ring_size(queue_size), 4);
    RingOffsets { desc, avail, used }
}

/// Bytes of the arena that `num_queues` queues of `queue_size` entries get by
/// default.
pub open spec fn default_capacity(num_queues: int, queue_size: int) -> int {
    4 * num_queues * queue_size * 4096
}

/// Default buffer arena capacity: deliberately over-provisioned so that a
/// page-scatter driver keeping every queue slot busy with one-page
/// descriptors never stalls (x4 headroom for multi-page descriptors).
pub fn default_buffer_capacity(num_queues: usize, queue_size: u16) -> (r: u64)
    requires
        4 * num_queues * queue_size * 4096 <= u64::MAX,
    ensures
        r == 4 * num_queues * queue_size * 4096,
        r == default_capacity(num_queues as int, queue_size as int),
{
    let per_queue: u64 = 4 * queue_size as u64 * POOL_PAGE_SIZE;
    let n: u64 = num_queues as u64;
    assert(n * per_queue == 4 * n * queue_size * 4096) by (nonlinear_arith)
        requires
            per_queue == 4 * queue_size * 4096,
    ;
    n * per_queue
}

/// Size in bytes of a split-ring descriptor table of `queue_size` entries.
pub fn desc_table_size(queue_size: u16) -> (r: u64)
    ensures
        r == desc_table_len(queue_size as int),
{
    16 * queue_size as u64
}

/// Size in bytes of a split-ring avail ring of `queue_size` entries,
/// including the trailing `used_event` field (present when
/// `VIRTIO_F_RING_EVENT_IDX` is negotiated; reserving it unconditionally
/// costs 2 bytes and keeps the layout feature-independent).
pub fn avail_ring_size(queue_size: u16) -> (r: u64)
    ensures
        r == avail_ring_len(queue_size as int),
{
    6 + 2 * queue_size as u64 + 2
}

/// Size in bytes of a split-ring used ring of `queue_size` entries,
/// including the trailing `avail_event` field (see [`avail_ring_size`]).
pub fn used_ring_size(queue_size: u16) -> (r: u64)
    ensures
        r == used_ring_len(queue_size as int),
{
    6 + 8 * queue_size as u64 + 2
}

/// `value` rounded up to a multiple of `align`.
fn align_up(value: u64, align: u64) -> (r: u64)
    requires
        align == 4 || align == 4096,
        value <= u64::MAX - (align - 1),
    ensures
        r == aligned_up(value as int, align as int),
        value <= r < value + align,
        r % align == 0,
{
    let over: u64 = value % align;
    if over == 0 {
        value
    } else {
        value - over + align
    }
}

proof fn lemma_block_end(i: int, n: int, block: int)
    requires
        0 <= i < n,
        block >= 0,
    ensures
        (i + 1) * block == i * block + block,
        (i + 1) * block <= n * block,
        0 <= i * block,
{
    assert((i + 1) * block == i * block + block) by (nonlinear_arith);
    assert((i + 1) * block <= n * block) by (nonlinear_arith)
        requires
            i + 1 <= n,
            block >= 0,
    ;
    assert(0 <= i * block) by (nonlinear_arith)
        requires
            0 <= i,
            block >= 0,
    ;
}

/// The state of a pool: its layout, its arena, and what has been done to
/// its memory.
#[verifier::ext_equal]
pub struct PoolView {
    pub rings: Seq<RingOffsets>,
    pub arena_base: u64,
    pub size: u64,
    pub arena: Arena,
    pub log: Seq<Access>,
}

/// `len` zero bytes.
pub open spec fn zeroes(len: int) -> Seq<u8> {
    Seq::new(len as nat, |i: int| 0u8)
}

/// `len` bytes from `addr` on overwritten with zeroes, page by page.
pub open spec fn zero_writes(addr: int, len: int) -> Seq<Access> {
    memory::piecewise_writes(addr, zeroes(len), 4096)
}

impl PoolView {
    pub open spec fn wf(self) -> bool {
        &&& self.arena.wf()
        &&& self.arena_base % 4096 == 0
        &&& self.arena_base + self.arena.capacity <= self.size
    }

    pub open spec fn with_access(self, a: Access) -> PoolView {
        PoolView { log: self.log.push(a), ..self }
    }

    pub open spec fn with_accesses(self, s: Seq<Access>) -> PoolView {
        PoolView { log: self.log + s, ..self }
    }

    /// The pool after its rings have been overwritten with zeroes.
    pub open spec fn rings_zeroed(self) -> PoolView {
        self.with_accesses(zero_writes(0, self.arena_base as int))
    }

    /// Whether `addr` with `len` names an extent that may be freed.
    pub open spec fn can_free(self, addr: int, len: int) -> bool {
        addr >= self.arena_base && self.arena.can_free(addr - self.arena_base, len)
    }

    /// The pool after the extent at `addr` for a request of `len` bytes has
    /// been freed: its bytes are zeroed, padding to the granule included.
    pub open spec fn after_free(self, addr: int, len: int) -> PoolView {
        PoolView {
            arena: self.arena.after_free(addr - self.arena_base, len),
            log: self.log + zero_writes(addr, allocator::rounded(len)),
            ..self
        }
    }
}

/// A bounce pool: shadow rings followed by a buffer arena.
pub struct BouncePool {
    /// Single-region guest memory view of the pool, at GPA 0.
    mem: GuestMemoryMmap,
    ring_offsets: Vec<RingOffsets>,
    arena_base: u64,
    size: u64,
    allocator: BounceAllocator,
}

impl View for BouncePool {
    type V = PoolView;

    closed spec fn view(&self) -> PoolView {
        PoolView {
            rings: self.ring_offsets@,
            arena_base: self.arena_base,
            size: self.size,
            arena: self.allocator@,
            log: memory::accesses(self.mem),
        }
    }
}

impl BouncePool {
    pub open spec fn wf(self) -> bool {
        self@.wf() && self.intact()
    }

    /// The allocator is consistent and the whole pool is mapped.
    pub closed spec fn intact(self) -> bool {
        &&& self.allocator.wf()
        &&& memory::covers(memory::mapped(self.mem), 0, self.size as int)
    }

    /// Create a pool over `mem`, with rings laid out per `layout`. The
    /// memory is to be zeroed, and must map the whole pool from guest
    /// physical address 0 on.
    pub fn new(layout: &PoolLayout, mem: GuestMemoryMmap) -> (r: Result<Self, BounceError>)
        ensures
            r is Err <==> layout.total() > usize::MAX || !memory::covers(
                memory::mapped(mem),
                0,
                layout.total(),
            ),
            layout.total() > usize::MAX ==> r == Err::<Self, BounceError>(BounceError::PoolTooLarge),
            r is Err && layout.total() <= usize::MAX ==> r == Err::<Self, BounceError>(
                (BounceError::PoolNotMapped { size: layout.total() as u64 }),
            ),
            r matches Ok(pool) ==> {
                &&& pool.wf()
                &&& pool@.rings == Seq::new(
                    layout.num_queues as nat,
                    |i: int| ring_at(layout.queue_size as int, i),
                )
                &&& pool@.arena_base == layout.arena_start()
                &&& pool@.size == layout.total()
                &&& pool@.arena.capacity == layout.buffer_capacity - layout.buffer_capacity % 64
                &&& pool@.arena.free == if pool@.arena.capacity == 0 {
                    Seq::empty()
                } else {
                    seq![(0u64, pool@.arena.capacity)]
                }
                &&& pool@.arena == allocator::fresh_arena(layout.buffer_capacity)
                &&& pool@.log == memory::accesses(mem)
                &&& forall|i: int, size: int|
                    0 <= i < pool@.rings.len() && 0 <= size <= layout.queue_size
                        ==> #[trigger] ownership::ring_fits(
                        pool@.rings[i],
                        size,
                        pool@.arena_base as int,
                    )
            },
    {
        let size: u64 = match layout.size() {
            Some(size) => size,
            None => return Err(BounceError::PoolTooLarge),
        };
        if size > usize::MAX as u64 {
            return Err(BounceError::PoolTooLarge);
        }
        if size > 0 && !memory::check_range(&mem, 0, size as usize) {
            return Err(BounceError::PoolNotMapped { size });
        }
        let qs: u16 = layout.queue_size;
        let block: u64 = ring_block_size(qs);
        let mut ring_offsets: Vec<RingOffsets> = Vec::new();
        let mut desc: u64 = 0;
        let mut i: usize = 0;
        while i < layout.num_queues
            invariant
                i <= layout.num_queues,
                qs == layout.queue_size,
                block == ring_block_len(qs as int),
                layout.total() <= u64::MAX,
                desc == i * block,
                desc % 4096 == 0,
                block % 4096 == 0,
                ring_offsets@.len() == i,
                forall|j: int|
                    0 <= j < i ==> #[trigger] ring_offsets@[j] == ring_at(qs as int, j),
            decreases layout.num_queues - i,
        {
            proof {
                lemma_block_end(i as int, layout.num_queues as int, block as int);
            }
            ring_offsets.push(rings_from(qs, desc));
            desc = desc + block;
            i += 1;
        }
        let allocator = BounceAllocator::new(layout.buffer_capacity);
        proof {
            assert forall|i: int, size: int|
                0 <= i < ring_offsets@.len() && 0 <= size
                    <= layout.queue_size implies #[trigger] ownership::ring_fits(
                ring_offsets@[i],
                size,
                desc as int,
            ) by {
                law_layout_is_aligned_and_disjoint(*layout, i);
                lemma_block_end(i, layout.num_queues as int, block as int);
            }
        }
        Ok(BouncePool { mem, ring_offsets, arena_base: desc, size, allocator })
    }

    /// The pool as guest memory (single region at GPA 0). This is what
    /// the shadow rings live in and what buffer copies target.
    pub fn mem(&self) -> (r: &GuestMemoryMmap)
        ensures
            memory::accesses(*r) == self@.log,
            self.wf() ==> memory::covers(memory::mapped(*r), 0, self@.size as int),
    {
        &self.mem
    }

    /// Total pool size in bytes (rings + arena), i.e. the size of the
    /// region shared with the backend.
    pub fn size(&self) -> (r: u64)
        ensures
            r == self@.size,
    {
        self.size
    }

    /// Ring offsets of shadow queue `queue`.
    pub fn ring_offsets(&self, queue: usize) -> (r: RingOffsets)
        requires
            queue < self@.rings.len(),
        ensures
            r == self@.rings[queue as int],
    {
        self.ring_offsets[queue]
    }

    /// Pool-relative offset where the buffer arena starts.
    pub fn arena_base(&self) -> (r: u64)
        ensures
            r == self@.arena_base,
    {
        self.arena_base
    }

    /// Buffer arena capacity in bytes.
    pub fn buffer_capacity(&self) -> (r: u64)
        ensures
            r == self@.arena.capacity,
    {
        self.allocator.capacity()
    }

    /// Buffer arena bytes currently free.
    pub fn free_bytes(&self) -> (r: u64)
        requires
            self.wf(),
        ensures
            r == allocator::total_len(self@.arena.free),
    {
        self.allocator.free_bytes()
    }

    /// Allocate `len` arena bytes; returns the extent's pool GPA.
    pub fn allocate(&mut self, len: u64) -> (r: Option<u64>)
        requires
            old(self).wf(),
        ensures
            final(self).wf(),
            r is Some <==> old(self)@.arena.can_alloc(len as int),
            r matches Some(addr) ==> {
                &&& addr == old(self)@.arena_base + old(self)@.arena.alloc_offset(len as int)
                &&& addr % 64 == 0
                &&& addr + len <= old(self)@.arena_base + old(self)@.arena.capacity
                &&& final(self)@ == (PoolView {
                    arena: old(self)@.arena.after_alloc(len as int),
                    ..old(self)@
                })
            },
            r is None ==> final(self)@ == old(self)@,
    {
        let ghost arena = self@.arena;
        match self.allocator.allocate(len) {
            None => None,
            Some(offset) => {
                proof {
                    allocator::lemma_alloc(arena, len as int);
                }
                Some(self.arena_base + offset)
            },
        }
    }

    /// Free (and zero) the extent previously returned by [`Self::allocate`]
    /// for the same (address, requested len) pair.
    pub fn free(&mut self, addr: u64, len: u64) -> (r: Result<(), BounceError>)
        requires
            old(self).wf(),
        ensures
            final(self).wf(),
            r is Ok <==> old(self)@.can_free(addr as int, len as int),
            r is Ok ==> final(self)@ == old(self)@.after_free(addr as int, len as int),
            r is Err ==> final(self)@ == old(self)@ && r == Err::<(), BounceError>(
                (BounceError::InvalidFree {
                    offset: if addr < old(self)@.arena_base {
                        addr
                    } else {
                        (addr - old(self)@.arena_base) as u64
                    },
                    len,
                }),
            ),
    {
        if addr < self.arena_base {
            return Err(BounceError::InvalidFree { offset: addr, len });
        }
        let ghost before = self@;
        match self.allocator.free(addr - self.arena_base, len) {
            Err(e) => Err(e),
            Ok(()) => {
                proof {
                    allocator::law_free_adds_exactly_the_extent(
                        before.arena,
                        addr - before.arena_base,
                        len as int,
                    );
                }
                // Scrub the full rounded extent so the backend can never
                // observe stale data from a previous request, including
                // alignment padding.
                self.zero_range(addr, round_len(len));
                Ok(())
            },
        }
    }

    /// Zero the shadow ring area (not the arena), e.g. before
    /// (re-)initializing a backend session.
    pub fn zero_rings(&mut self) -> (r: Result<(), BounceError>)
        requires
            old(self).wf(),
        ensures
            final(self).wf(),
            r is Ok,
            final(self)@ == old(self)@.with_accesses(zero_writes(0, old(self)@.arena_base as int)),
            final(self)@ == old(self)@.rings_zeroed(),
    {
        self.zero_range(0, self.arena_base);
        Ok(())
    }

    fn zero_range(&mut self, offset: u64, len: u64)
        requires
            old(self).wf(),
            offset + len <= old(self)@.size,
        ensures
            final(self).wf(),
            final(self)@ == old(self)@.with_accesses(zero_writes(offset as int, len as int)),
    {
        let page: Vec<u8> = vec![0u8; 4096];
        let mut written: u64 = 0;
        let ghost before = self@;
        assert(self@.log =~= before.log + zero_writes(offset as int, 0));
        while written < len
            invariant
                self.wf(),
                page@ == zeroes(4096),
                before.size == self@.size,
                offset + len <= before.size,
                written <= len,
                written < len ==> written % 4096 == 0,
                self@ == before.with_accesses(zero_writes(offset as int, written as int)),
            decreases len - written,
        {
            let rest: u64 = len - written;
            let chunk: u64 = if rest < 4096 {
                rest
            } else {
                4096
            };
            proof {
                memory::lemma_next_piece(
                    offset as int,
                    zeroes(written as int),
                    zeroes(chunk as int),
                    4096,
                );
                assert(zeroes(written as int) + zeroes(chunk as int) =~= zeroes(written + chunk));
                assert(page@.take(chunk as int) =~= zeroes(chunk as int));
            }
            self.write_bytes(&page, chunk as usize, offset + written);
            written += chunk;
            assert(self@ =~= before.with_accesses(zero_writes(offset as int, written as int)));
        }
    }

    /// Write the first `len` bytes of `buf` at `addr`. The range lies in
    /// the pool, which is mapped, so the write cannot fail; so with the
    /// other accesses below.
    pub(crate) fn write_bytes(&mut self, buf: &Vec<u8>, len: usize, addr: u64)
        requires
            old(self).wf(),
            len <= buf@.len(),
            addr + len <= old(self)@.size,
        ensures
            final(self).wf(),
            final(self)@ == old(self)@.with_access(
                (Access::Write { addr, bytes: buf@.take(len as int) }),
            ),
    {
        let _ = memory::write_slice(&mut self.mem, buf, len, addr);
    }

    /// Copy the `len` bytes at `from` in `mem` to `addr`. They have been
    /// checked to lie in `mem`, so the reads cannot fail.
    pub(crate) fn copy_in(
        &mut self,
        scratch: &mut Vec<u8>,
        mem: &mut GuestMemoryMmap,
        from: u64,
        addr: u64,
        len: u32,
    ) -> (data: Ghost<Seq<u8>>)
        requires
            old(self).wf(),
            old(scratch)@.len() == 0 || old(scratch)@.len() == COPY_CHUNK,
            memory::covers(memory::mapped(*old(mem)), from, len as int),
            from + len <= u64::MAX,
            addr + len <= old(self)@.size,
        ensures
            final(self).wf(),
            final(scratch)@.len() == COPY_CHUNK,
            memory::mapped(*final(mem)) == memory::mapped(*old(mem)),
            data@.len() == len,
            memory::accesses(*final(mem)) == memory::accesses(*old(mem)) + memory::piecewise_reads(
                from as int,
                data@,
                model::copy_chunk(),
            ),
            final(self)@ == old(self)@.with_accesses(
                memory::piecewise_writes(addr as int, data@, model::copy_chunk()),
            ),
    {
        let (_, data) = copy::transfer(scratch, mem, &mut self.mem, from, addr, len);
        data
    }

    /// Copy the `len` bytes at `addr` to `to` in `mem`. The copy ends at the
    /// first piece that `mem` does not take.
    pub(crate) fn copy_out(
        &mut self,
        scratch: &mut Vec<u8>,
        mem: &mut GuestMemoryMmap,
        addr: u64,
        to: u64,
        len: u32,
    ) -> (r: (bool, Ghost<Seq<u8>>))
        requires
            old(self).wf(),
            old(scratch)@.len() == 0 || old(scratch)@.len() == COPY_CHUNK,
            to + len <= u64::MAX,
            addr + len <= old(self)@.size,
        ensures
            final(self).wf(),
            final(scratch)@.len() == COPY_CHUNK,
            memory::mapped(*final(mem)) == memory::mapped(*old(mem)),
            memory::accesses(*final(mem)) == memory::accesses(*old(mem)) + memory::piecewise_writes(
                to as int,
                r.1@,
                model::copy_chunk(),
            ),
            final(self)@ == old(self)@.with_accesses(
                memory::piecewise_reads(addr as int, r.1@, model::copy_chunk()),
            ),
            r.0 == memory::covers(memory::mapped(*old(mem)), to, len as int),
            r.0 ==> r.1@.len() == len,
            !r.0 ==> {
                let map = memory::mapped(*old(mem));
                let n = r.1@.len() as int;
                &&& 0 < n <= len
                &&& n == len || n % model::copy_chunk() == 0
                &&& memory::covers(map, to, memory::last_piece(n, model::copy_chunk()))
                &&& !memory::covers(map, to, n)
            },
    {
        copy::transfer(scratch, &mut self.mem, mem, addr, to, len)
    }

    /// Write a descriptor at `addr`.
    pub(crate) fn write_desc(&mut self, desc: Descriptor, addr: u64)
        requires
            old(self).wf(),
            addr + 16 <= old(self)@.size,
        ensures
            final(self).wf(),
            final(self)@ == old(self)@.with_access((Access::WriteDesc { addr, desc })),
    {
        let _ = memory::write_desc(&mut self.mem, desc, addr);
    }

    /// Write a ring entry at `addr`.
    pub(crate) fn write_u16(&mut self, value: u16, addr: u64)
        requires
            old(self).wf(),
            addr + 2 <= old(self)@.size,
        ensures
            final(self).wf(),
            final(self)@ == old(self)@.with_access((Access::WriteU16 { addr, value })),
    {
        let _ = memory::write_u16(&mut self.mem, value, addr);
    }

    /// Read half a used element at `addr`.
    pub(crate) fn read_u32(&mut self, addr: u64) -> (r: u32)
        requires
            old(self).wf(),
            addr + 4 <= old(self)@.size,
        ensures
            final(self).wf(),
            final(self)@ == old(self)@.with_access((Access::ReadU32 { addr, word: r })),
    {
        match memory::read_u32(&mut self.mem, addr) {
            Ok(word) => word,
            Err(_) => 0,
        }
    }

    /// Load a ring index with acquire ordering.
    pub(crate) fn load_index(&mut self, addr: u64) -> (r: Option<u16>)
        requires
            old(self).wf(),
        ensures
            final(self).wf(),
            final(self)@ == old(self)@.with_access(
                (Access::LoadU16 { addr, order: LoadOrder::Acquire, loaded: r }),
            ),
    {
        memory::load_u16(&mut self.mem, addr, LoadOrder::Acquire)
    }

    /// Store a ring index with release ordering.
    pub(crate) fn store_index(&mut self, value: u16, addr: u64) -> (r: bool)
        requires
            old(self).wf(),
        ensures
            final(self).wf(),
            final(self)@ == old(self)@.with_access((Access::StoreU16 { addr, value, done: r })),
    {
        memory::store_u16(&mut self.mem, value, addr)
    }
}

/// The rings of each queue follow one another in a block of their own, on
/// pages of their own, with the alignment that virtio asks for; the arena
/// follows the last block, on a page, and fits into the pool.
pub proof fn law_layout_is_aligned_and_disjoint(layout: PoolLayout, i: int)
    requires
        0 <= i < layout.num_queues,
        layout.total() <= u64::MAX,
    ensures
        ({
            let qs = layout.queue_size as int;
            let r = ring_at(qs, i);
            let end = r.used + used_ring_len(qs);
            &&& r.desc % 4096 == 0
            &&& r.avail % 2 == 0
            &&& r.used % 4 == 0
            &&& r.desc + desc_table_len(qs) == r.avail
            &&& r.avail + avail_ring_len(qs) <= r.used
            &&& i + 1 < layout.num_queues ==> end <= ring_at(qs, i + 1).desc
            &&& end <= layout.arena_start()
        }),
        layout.arena_start() % 4096 == 0,
        layout.arena_start() + layout.buffer_capacity <= layout.total(),
        layout.total() % 4096 == 0,
{
    let qs = layout.queue_size as int;
    let n = layout.num_queues as int;
    let block = ring_block_len(qs);
    lemma_block_end(i, n, block);
    lemma_blocks_on_pages(i, block);
    lemma_blocks_on_pages(n, block);
    if i + 1 < n {
        lemma_block_end(i + 1, n, block);
    }
}

proof fn lemma_blocks_on_pages(i: int, block: int)
    requires
        block % 4096 == 0,
    ensures
        (i * block) % 4096 == 0,
{
    let k = block / 4096;
    assert(i * block == (i * k) * 4096) by (nonlinear_arith)
        requires
            block == k * 4096,
    ;
}

/// The pages of the arena that the first `n` of `held` touch.
spec fn touched(held: Seq<Extent>, n: int) -> Set<int>
    decreases n,
{
    if n <= 0 {
        Set::empty()
    } else {
        touched(held, n - 1).insert(held[n - 1].0 as int / 4096).insert(
            (held[n - 1].0 + held[n - 1].1 - 1) / 4096,
        )
    }
}

proof fn lemma_touched(held: Seq<Extent>, n: int)
    requires
        0 <= n <= held.len(),
    ensures
        touched(held, n).finite(),
        touched(held, n).len() <= 2 * n,
        forall|i: int|
            0 <= i < n ==> touched(held, n).contains((#[trigger] held[i]).0 as int / 4096)
                && touched(held, n).contains((held[i].0 + held[i].1 - 1) / 4096),
    decreases n,
{
    if n > 0 {
        lemma_touched(held, n - 1);
    }
}

/// The default arena has room for every slot of every queue: as long as the
/// buffers in use are at most one page each, and no more than there are slots,
/// there is always room for another such buffer.
pub proof fn law_default_arena_never_stalls_page_scatter(
    a: Arena,
    slots: int,
    held: Seq<Extent>,
    len: int,
)
    requires
        a.wf(),
        slots > 0,
        a.capacity == 4 * slots * 4096,
        held.len() <= slots,
        forall|i: int| 0 <= i < held.len() ==> 0 < (#[trigger] held[i]).1 <= 4096,
        forall|b: int|
            0 <= b < a.capacity ==> #[trigger] a.free_at(b) || allocator::free_at(held, b),
        0 < len <= 4096,
    ensures
        a.can_alloc(len),
{
    let pages = vstd::set_lib::set_int_range(0, 4 * slots);
    vstd::set_lib::lemma_int_range(0, 4 * slots);
    lemma_touched(held, held.len() as int);
    let t = touched(held, held.len() as int);
    if pages.subset_of(t) {
        vstd::set_lib::lemma_len_subset(pages, t);
    }
    let p = choose|p: int| pages.contains(p) && !t.contains(p);
    assert(pages.contains(p) && !t.contains(p));
    let start = p * 4096;
    assert forall|b: int| start <= b < start + allocator::rounded(len) implies #[trigger] a.free_at(
        b,
    ) by {
        if allocator::free_at(held, b) {
            let i = choose|i: int|
                0 <= i < held.len() && allocator::in_extent(#[trigger] held[i], b);
            assert(b / 4096 == p);
        }
    }
    allocator::law_free_run_can_be_allocated(a, start, len);
}

/// How the pool is laid out, byte by byte: a descriptor takes 16 bytes; the
/// avail ring takes 2 per entry and 8 besides and starts where the table ends;
/// the used ring takes 8 per entry and 8 besides and starts at the next multiple
/// of 4; the next queue's block, and after the last one the arena, start on the
/// next page.
pub proof fn law_layout_in_bytes(layout: PoolLayout, i: int)
    requires
        0 <= i < layout.num_queues,
        layout.total() <= u64::MAX,
    ensures
        ({
            let qs = layout.queue_size as int;
            let r = ring_at(qs, i);
            let avail_end = r.avail + 2 * qs + 8;
            let used_end = r.used + 8 * qs + 8;
            let next = if i + 1 < layout.num_queues {
                ring_at(qs, i + 1).desc as int
            } else {
                layout.arena_start()
            };
            &&& i == 0 ==> r.desc == 0
            &&& r.avail == r.desc + 16 * qs
            &&& avail_end <= r.used < avail_end + 4
            &&& r.used % 4 == 0
            &&& used_end <= next < used_end + 4096
            &&& next % 4096 == 0
        }),
        ({
            let end = layout.arena_start() + layout.buffer_capacity;
            &&& end <= layout.total() < end + 4096
            &&& layout.total() % 4096 == 0
        }),
{
    let qs = layout.queue_size as int;
    let n = layout.num_queues as int;
    let block = ring_block_len(qs);
    law_layout_is_aligned_and_disjoint(layout, i);
    lemma_block_end(i, n, block);
    lemma_blocks_on_pages(i, block);
    lemma_blocks_on_pages(i + 1, block);
    lemma_blocks_on_pages(n, block);
    assert(i == 0 ==> i * block == 0) by (nonlinear_arith);
    if i + 1 < n {
        lemma_block_end(i + 1, n, block);
    } else {
        assert(n == i + 1);
    }
}

/// A pool without queues is its arena.
pub proof fn law_layout_without_queues(layout: PoolLayout)
    requires
        layout.num_queues == 0,
    ensures
        layout.arena_start() == 0,
        layout.buffer_capacity <= layout.total() < layout.buffer_capacity + 4096,
        layout.total() % 4096 == 0,
{
    assert(layout.num_queues * ring_block_len(layout.queue_size as int) == 0) by (nonlinear_arith)
        requires
            layout.num_queues == 0,
    ;
}

/// An address may be freed exactly when the arena offset that it stands for
/// may, and nothing but the arena and the memory of the pool changes.
pub proof fn law_pool_frees_by_address(p: PoolView, addr: int, len: int)
    ensures
        p.can_free(addr, len) <==> addr - p.arena_base >= 0 && p.arena.can_free(
            addr - p.arena_base,
            len,
        ),
        p.after_free(addr, len).arena == p.arena.after_free(addr - p.arena_base, len),
        p.after_free(addr, len).rings == p.rings,
        p.after_free(addr, len).arena_base == p.arena_base,
        p.after_free(addr, len).size == p.size,
{
}

/// A descriptor is 16 bytes; an avail ring is its flags, its index, 2 bytes per
/// entry and an event field, and fills up to 2 bytes more; a used ring likewise,
/// with 8 bytes per entry.
pub proof fn law_ring_sizes(queue_size: int)
    ensures
        desc_table_len(queue_size) == 16 * queue_size,
        avail_ring_len(queue_size) == 2 * queue_size + 8,
        used_ring_len(queue_size) == 8 * queue_size + 8,
{
}

/// The default arena has four pages for every slot of every queue, and that is
/// room enough: however one-page buffers for all slots are scattered over it,
/// there is a page for another.
pub proof fn law_default_arena_has_four_pages_per_slot(
    num_queues: usize,
    queue_size: u16,
    a: Arena,
    held: Seq<Extent>,
    len: int,
)
    requires
        num_queues > 0,
        queue_size > 0,
        a.wf(),
        a.capacity == default_capacity(num_queues as int, queue_size as int),
        held.len() <= num_queues * queue_size,
        forall|i: int| 0 <= i < held.len() ==> 0 < (#[trigger] held[i]).1 <= 4096,
        forall|b: int|
            0 <= b < a.capacity ==> #[trigger] a.free_at(b) || allocator::free_at(held, b),
        0 < len <= 4096,
    ensures
        a.capacity == 16384 * (num_queues * queue_size),
        a.can_alloc(len),
{
    let slots = num_queues * queue_size;
    assert(slots > 0) by (nonlinear_arith)
        requires
            slots == num_queues * queue_size,
            num_queues > 0,
            queue_size > 0,
    ;
    assert(4 * num_queues * queue_size * 4096 == 16384 * slots) by (nonlinear_arith)
        requires
            slots == num_queues * queue_size,
    ;
    law_default_arena_never_stalls_page_scatter(a, slots, held, len);
}

} // verus!
