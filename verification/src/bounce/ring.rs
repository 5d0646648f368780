//! The guest's split virtqueue, as the device side drives it.

use super::memory::{self, Access, GuestMemoryMmap, LoadOrder};
use std::sync::atomic::Ordering;
use std::sync::Arc;
use virtio_queue::{Queue, QueueOwnedT, QueueT};
use vm_memory::{Bytes, GuestAddress};
use vstd::prelude::*;

verus! {

/// `virtio_queue::Queue`, the device side of a split virtqueue.
#[verifier::external_type_specification]
#[verifier::external_body]
pub struct ExQueue(virtio_queue::Queue);

/// A chain of descriptors that a queue hands out.
pub type Chain = virtio_queue::DescriptorChain<Arc<GuestMemoryMmap>>;

/// `virtio_queue::DescriptorChain`, which [`Chain`] stands for.
#[verifier::external_type_specification]
#[verifier::external_body]
#[verifier::reject_recursive_types(M)]
pub struct ExDescriptorChain<M>(virtio_queue::DescriptorChain<M>);

/// Descriptor flag: the chain goes on at `next`.
pub const VRING_DESC_F_NEXT: u16 = 1;

/// Descriptor flag: the device writes the buffer.
pub const VRING_DESC_F_WRITE: u16 = 2;

/// Descriptor flag: the buffer holds a table of descriptors.
pub const VRING_DESC_F_INDIRECT: u16 = 4;

/// Avail ring flag: the driver asks not to be interrupted.
pub const VRING_AVAIL_F_NO_INTERRUPT: u16 = 1;

/// A split ring descriptor.
#[derive(Clone, Copy, Debug, PartialEq, Eq, Structural)]
pub struct Descriptor {
    pub addr: u64,
    pub len: u32,
    pub flags: u16,
    pub next: u16,
}

pub open spec fn claims_next(desc: Descriptor) -> bool {
    desc.flags & VRING_DESC_F_NEXT != 0
}

pub open spec fn is_writable(desc: Descriptor) -> bool {
    desc.flags & VRING_DESC_F_WRITE != 0
}

impl Descriptor {
    /// Whether the descriptor claims a successor.
    pub fn has_next(&self) -> (r: bool)
        ensures
            r == claims_next(*self),
    {
        self.flags & VRING_DESC_F_NEXT != 0
    }

    /// Whether the device may only write the buffer.
    pub fn is_write_only(&self) -> (r: bool)
        ensures
            r == is_writable(*self),
    {
        self.flags & VRING_DESC_F_WRITE != 0
    }
}

/// What a queue keeps: where its rings are and how far it has come.
#[derive(Clone, Copy, Debug, PartialEq, Eq, Structural)]
pub struct RingState {
    pub next_avail: u16,
    pub next_used: u16,
    pub event_idx: bool,
    pub size: u16,
    pub ready: bool,
    pub desc_table: u64,
    pub avail_ring: u64,
    pub used_ring: u64,
}

/// What `Queue::state` reports of `q`.
pub uninterp spec fn ring_state(q: Queue) -> RingState;

/// `Queue::state`.
#[verifier::external_body]
pub(crate) fn state(q: &Queue) -> (r: RingState)
    ensures
        r == ring_state(*q),
{
    let s = q.state();
    RingState {
        next_avail: s.next_avail,
        next_used: s.next_used,
        event_idx: s.event_idx_enabled,
        size: s.size,
        ready: s.ready,
        desc_table: s.desc_table,
        avail_ring: s.avail_ring,
        used_ring: s.used_ring,
    }
}

/// The head of a chain, as `DescriptorChain::head_index` reports it.
pub uninterp spec fn chain_head(chain: Chain) -> u16;

/// The memory that a chain is read from, as `DescriptorChain::memory`
/// returns it.
pub uninterp spec fn chain_memory(chain: Chain) -> GuestMemoryMmap;

/// `Queue::pop_descriptor_chain` in `mem`: the next available chain. The
/// queue moves on by one entry exactly when there is a chain, and a queue
/// that is not ready has none. A chain keeps a handle on the regions of
/// `mem`: what is accessed through the chain is told by [`chain_memory`], and
/// nothing is said of `mem` until [`memory_of`] gives that handle back. Which
/// chain comes is up to the guest and is left open.
#[verifier::external_body]
pub(crate) fn pop_chain(q: &mut Queue, mem: &mut GuestMemoryMmap) -> (r: Option<Chain>)
    ensures
        r is None ==> ring_state(*final(q)) == ring_state(*old(q)),
        r is Some ==> ring_state(*final(q)) == (RingState {
            next_avail: ring_state(*old(q)).next_avail.wrapping_add(1),
            ..ring_state(*old(q))
        }),
        r is Some ==> ring_state(*old(q)).ready,
        r is None ==> memory::accesses(*final(mem)) == memory::accesses(*old(mem)).push(
            (Access::PopChain { popped: None }),
        ),
        r is None ==> memory::mapped(*final(mem)) == memory::mapped(*old(mem)),
        r matches Some(c) ==> memory::accesses(chain_memory(c)) == memory::accesses(*old(mem)).push(
            (Access::PopChain { popped: Some(chain_head(c)) }),
        ),
        r matches Some(c) ==> memory::mapped(chain_memory(c)) == memory::mapped(*old(mem)),
{
    q.pop_descriptor_chain(Arc::new(mem.clone()))
}

/// `DescriptorChain::head_index`.
#[verifier::external_body]
pub(crate) fn head_index(chain: &Chain) -> (r: u16)
    ensures
        r == chain_head(*chain),
{
    chain.head_index()
}

/// `Bytes::load` of a `u16` with relaxed ordering, from the memory of the
/// chain. It fails where the address is not mapped; it also fails where the
/// host address is odd or the value straddles two regions, which is left open
/// here.
#[verifier::external_body]
pub(crate) fn load_relaxed(chain: &mut Chain, addr: u64) -> (r: Option<u16>)
    ensures
        r is Some ==> memory::covers(memory::mapped(chain_memory(*old(chain))), addr, 2),
        chain_head(*final(chain)) == chain_head(*old(chain)),
        memory::accesses(chain_memory(*final(chain))) == memory::accesses(
            chain_memory(*old(chain)),
        ).push((Access::LoadU16 { addr, order: LoadOrder::Relaxed, loaded: r })),
        memory::mapped(chain_memory(*final(chain))) == memory::mapped(chain_memory(*old(chain))),
{
    chain.memory().load(GuestAddress(addr), Ordering::Relaxed).ok()
}

/// `DescriptorChain` as an iterator, walked to its end. A walk yields at most
/// one table's worth of descriptors and one indirect table's worth, each
/// below 65536. What the descriptors are is up to the guest and is left open.
#[verifier::external_body]
pub(crate) fn walk(chain: &mut Chain) -> (r: Vec<Descriptor>)
    ensures
        r@.len() <= 131070,
        chain_head(*final(chain)) == chain_head(*old(chain)),
        memory::accesses(chain_memory(*final(chain))) == memory::accesses(
            chain_memory(*old(chain)),
        ).push((Access::WalkChain { head: chain_head(*old(chain)), descs: r@ })),
        memory::mapped(chain_memory(*final(chain))) == memory::mapped(chain_memory(*old(chain))),
{
    chain.map(|d| Descriptor { addr: d.addr().0, len: d.len(), flags: d.flags(), next: d.next() }).collect()
}

/// `DescriptorChain::memory`: the handle that the chain kept on its memory. The
/// handle is cloned, and a clone refers to the same regions.
#[verifier::external_body]
pub(crate) fn memory_of(chain: Chain) -> (r: GuestMemoryMmap)
    ensures
        r == chain_memory(chain),
{
    chain.memory().clone()
}

/// `Queue::go_to_previous_position`: the next available entry is the one
/// taken last.
#[verifier::external_body]
pub(crate) fn rewind(q: &mut Queue)
    ensures
        ring_state(*final(q)) == (RingState {
            next_avail: ring_state(*old(q)).next_avail.wrapping_sub(1),
            ..ring_state(*old(q))
        }),
{
    q.go_to_previous_position();
}

/// `Queue::add_used`: puts a used element into the used ring and advances
/// the used index. A head outside the table is refused; other failures
/// depend on where the used ring lies. A failure after the element is
/// written has already advanced the queue's own count.
#[verifier::external_body]
pub(crate) fn add_used(q: &mut Queue, mem: &mut GuestMemoryMmap, head: u16, len: u32) -> (r: bool)
    ensures
        r ==> head < ring_state(*old(q)).size,
        r ==> ring_state(*final(q)) == (RingState {
            next_used: ring_state(*old(q)).next_used.wrapping_add(1),
            ..ring_state(*old(q))
        }),
        !r ==> ring_state(*final(q)) == ring_state(*old(q)) || ring_state(*final(q)) == (RingState {
            next_used: ring_state(*old(q)).next_used.wrapping_add(1),
            ..ring_state(*old(q))
        }),
        memory::accesses(*final(mem)) == memory::accesses(*old(mem)).push(
            (Access::AddUsed { head, len, done: r }),
        ),
        memory::mapped(*final(mem)) == memory::mapped(*old(mem)),
{
    q.add_used(&*mem, head, len).is_ok()
}

/// `Queue::needs_notification`: whether the driver wants a notification for
/// the used elements added since it was last asked. Without event index
/// support it always does.
#[verifier::external_body]
pub(crate) fn needs_notification(q: &mut Queue, mem: &mut GuestMemoryMmap) -> (r: Option<bool>)
    ensures
        !ring_state(*old(q)).event_idx ==> r == Some(true),
        ring_state(*final(q)) == ring_state(*old(q)),
        memory::accesses(*final(mem)) == memory::accesses(*old(mem)).push((Access::AskNotification { answer: r })),
        memory::mapped(*final(mem)) == memory::mapped(*old(mem)),
{
    q.needs_notification(&*mem).ok()
}

/// The flags of a descriptor: bit 0 names a successor, bit 1 the direction.
pub proof fn law_descriptor_flags(desc: Descriptor)
    ensures
        claims_next(desc) <==> desc.flags % 2 == 1,
        is_writable(desc) <==> (desc.flags / 2) % 2 == 1,
{
    let flags = desc.flags;
    assert(flags & 1 != 0 <==> flags % 2 == 1) by (bit_vector);
    assert(flags & 2 != 0 <==> (flags / 2) % 2 == 1) by (bit_vector);
}

} // verus!
