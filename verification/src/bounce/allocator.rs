//! Offset allocator for the bounce pool buffer arena.

use super::BounceError;
use vstd::prelude::*;

verus! {

/// Alignment granule for arena extents, in bytes. Every returned offset
/// and every internal extent boundary is a multiple of this value.
pub const BOUNCE_ALLOC_ALIGN: u64 = 64;

/// A free range of arena bytes: its first offset and its length.
pub type Extent = (u64, u64);

/// `len` rounded up to the alignment granule.
pub open spec fn rounded(len: int) -> int {
    ((len + 63) / 64) * 64
}

pub open spec fn in_extent(e: Extent, byte: int) -> bool {
    e.0 <= byte < e.0 + e.1
}

/// Whether arena byte `byte` belongs to one of the extents of `list`.
pub open spec fn free_at(list: Seq<Extent>, byte: int) -> bool {
    exists|i: int| 0 <= i < list.len() && in_extent(#[trigger] list[i], byte)
}

/// The bytes of the extents of `list`, counted.
pub open spec fn total_len(list: Seq<Extent>) -> int
    decreases list.len(),
{
    if list.len() == 0 {
        0
    } else {
        total_len(list.drop_last()) + list.last().1
    }
}

pub open spec fn extent_ok(e: Extent, capacity: int) -> bool {
    &&& e.1 > 0
    &&& e.0 % 64 == 0
    &&& e.1 % 64 == 0
    &&& e.0 + e.1 <= capacity
}

/// The form in which free space is kept: granule-aligned, never empty,
/// inside the arena, sorted, and never adjacent.
pub open spec fn canonical(list: Seq<Extent>, capacity: int) -> bool {
    &&& forall|i: int| 0 <= i < list.len() ==> extent_ok(#[trigger] list[i], capacity)
    &&& forall|i: int, j: int|
        0 <= i < j < list.len() ==> (#[trigger] list[i]).0 + list[i].1 < (#[trigger] list[j]).0
}

/// An arena: its size and its free space.
#[verifier::ext_equal]
pub struct Arena {
    pub capacity: u64,
    pub free: Seq<Extent>,
}

/// Whether `i` is the first extent of `list` that holds `need` bytes.
pub open spec fn is_first_fit(list: Seq<Extent>, need: int, i: int) -> bool {
    &&& 0 <= i < list.len()
    &&& list[i].1 >= need
    &&& forall|j: int| 0 <= j < i ==> (#[trigger] list[j]).1 < need
}

/// `list` without the first `need` bytes of extent `i`.
pub open spec fn carve(list: Seq<Extent>, i: int, need: int) -> Seq<Extent> {
    if list[i].1 == need {
        list.remove(i)
    } else {
        list.update(i, ((list[i].0 + need) as u64, (list[i].1 - need) as u64))
    }
}

impl Arena {
    pub open spec fn wf(self) -> bool {
        &&& self.capacity % 64 == 0
        &&& canonical(self.free, self.capacity as int)
    }

    pub open spec fn free_at(self, byte: int) -> bool {
        free_at(self.free, byte)
    }

    /// Whether a request of `len` bytes can be met.
    pub open spec fn can_alloc(self, len: int) -> bool {
        len > 0 && exists|i: int| is_first_fit(self.free, rounded(len), i)
    }

    /// Where a request of `len` bytes that can be met is placed.
    pub open spec fn alloc_offset(self, len: int) -> u64 {
        self.free[choose|i: int| is_first_fit(self.free, rounded(len), i)].0
    }

    /// The arena after a request of `len` bytes that can be met.
    pub open spec fn after_alloc(self, len: int) -> Arena {
        Arena {
            capacity: self.capacity,
            free: carve(
                self.free,
                choose|i: int| is_first_fit(self.free, rounded(len), i),
                rounded(len),
            ),
        }
    }

    /// Whether the extent at `offset` for a request of `len` bytes lies in
    /// the arena, on a granule, with none of its bytes free.
    pub open spec fn can_free(self, offset: int, len: int) -> bool {
        &&& len > 0
        &&& offset >= 0
        &&& offset % 64 == 0
        &&& offset + rounded(len) <= self.capacity
        &&& forall|b: int| offset <= b < offset + rounded(len) ==> !#[trigger] self.free_at(b)
    }

    /// The arena whose free bytes are those of `self` and the extent's.
    pub open spec fn after_free(self, offset: int, len: int) -> Arena {
        Arena {
            capacity: self.capacity,
            free: choose|list: Seq<Extent>|
                canonical(list, self.capacity as int) && gained(self.free, list, offset, rounded(len)),
        }
    }
}

/// The arena of `capacity` bytes that nothing has been taken from.
pub open spec fn fresh_arena(capacity: u64) -> Arena {
    let usable = (capacity - capacity % 64) as u64;
    Arena {
        capacity: usable,
        free: if usable == 0 {
            Seq::empty()
        } else {
            seq![(0u64, usable)]
        },
    }
}

/// Whether the free bytes of `after` are those of `before` together with
/// the `len` bytes at `offset`.
pub open spec fn gained(before: Seq<Extent>, after: Seq<Extent>, offset: int, len: int) -> bool {
    forall|b: int| #[trigger]
        free_at(after, b) == (free_at(before, b) || offset <= b < offset + len)
}

proof fn lemma_total_push(list: Seq<Extent>, e: Extent)
    ensures
        total_len(list.push(e)) == total_len(list) + e.1,
{
    assert(list.push(e).drop_last() =~= list);
}

proof fn lemma_total_split(list: Seq<Extent>, k: int)
    requires
        0 <= k <= list.len(),
    ensures
        total_len(list) == total_len(list.take(k)) + total_len(list.skip(k)),
    decreases list.len() - k,
{
    if k == list.len() {
        assert(list.take(k) =~= list);
        assert(list.skip(k) =~= Seq::<Extent>::empty());
    } else {
        lemma_total_split(list, k + 1);
        assert(list.take(k + 1) =~= list.take(k).push(list[k]));
        lemma_total_push(list.take(k), list[k]);
        lemma_total_front(list.skip(k));
        assert(list.skip(k).skip(1) =~= list.skip(k + 1));
    }
}

proof fn lemma_total_front(list: Seq<Extent>)
    requires
        list.len() > 0,
    ensures
        total_len(list) == list[0].1 + total_len(list.skip(1)),
    decreases list.len(),
{
    if list.len() == 1 {
        assert(list.drop_last() =~= Seq::<Extent>::empty());
        assert(list.skip(1) =~= Seq::<Extent>::empty());
    } else {
        lemma_total_front(list.drop_last());
        assert(list.drop_last().skip(1) =~= list.skip(1).drop_last());
    }
}

/// Replacing extent `i` changes the total by the difference in length.
proof fn lemma_total_update(list: Seq<Extent>, i: int, e: Extent)
    requires
        0 <= i < list.len(),
    ensures
        total_len(list.update(i, e)) == total_len(list) - list[i].1 + e.1,
{
    let new = list.update(i, e);
    lemma_total_split(list, i);
    lemma_total_split(new, i);
    assert(new.take(i) =~= list.take(i));
    lemma_total_front(list.skip(i));
    lemma_total_front(new.skip(i));
    assert(new.skip(i).skip(1) =~= list.skip(i).skip(1));
}

proof fn lemma_total_remove(list: Seq<Extent>, i: int)
    requires
        0 <= i < list.len(),
    ensures
        total_len(list.remove(i)) == total_len(list) - list[i].1,
{
    let new = list.remove(i);
    lemma_total_split(list, i);
    lemma_total_split(new, i);
    assert(new.take(i) =~= list.take(i));
    lemma_total_front(list.skip(i));
    assert(new.skip(i) =~= list.skip(i).skip(1));
}

proof fn lemma_total_insert(list: Seq<Extent>, i: int, e: Extent)
    requires
        0 <= i <= list.len(),
    ensures
        total_len(list.insert(i, e)) == total_len(list) + e.1,
{
    let new = list.insert(i, e);
    lemma_total_remove(new, i);
    assert(new.remove(i) =~= list);
}

/// Free space never exceeds the arena.
proof fn lemma_total_bound(list: Seq<Extent>, capacity: int)
    requires
        canonical(list, capacity),
        capacity >= 0,
    ensures
        0 <= total_len(list) <= capacity,
        list.len() > 0 ==> total_len(list) <= list.last().0 + list.last().1,
    decreases list.len(),
{
    if list.len() > 0 {
        let init = list.drop_last();
        lemma_total_bound(init, capacity);
        assert(extent_ok(list[list.len() - 1], capacity));
        if init.len() > 0 {
            assert(init.last() == list[list.len() - 2]);
        }
    }
}

/// Two canonical lists with the same free bytes are the same list.
pub(crate) proof fn lemma_canonical_unique(a: Seq<Extent>, b: Seq<Extent>, capacity: int)
    requires
        canonical(a, capacity),
        canonical(b, capacity),
        forall|x: int| #[trigger] free_at(a, x) == free_at(b, x),
    ensures
        a == b,
    decreases a.len(),
{
    if a.len() == 0 {
        if b.len() > 0 {
            assert(in_extent(b[0], b[0].0 as int));
            assert(free_at(b, b[0].0 as int));
            assert(free_at(a, b[0].0 as int));
        }
        assert(a =~= b);
    } else {
        assert(in_extent(a[0], a[0].0 as int));
        assert(free_at(a, a[0].0 as int));
        assert(free_at(b, a[0].0 as int));
        assert(b.len() > 0);
        assert(in_extent(b[0], b[0].0 as int));
        assert(free_at(b, b[0].0 as int));
        assert(free_at(a, b[0].0 as int));
        assert(a[0].0 == b[0].0);
        let ea = a[0].0 + a[0].1;
        let eb = b[0].0 + b[0].1;
        if ea < eb {
            assert(in_extent(b[0], ea));
            assert(free_at(b, ea));
            assert(free_at(a, ea));
            assert(false);
        }
        if eb < ea {
            assert(in_extent(a[0], eb));
            assert(free_at(a, eb));
            assert(free_at(b, eb));
            assert(false);
        }
        assert(a[0] == b[0]);
        let ta = a.skip(1);
        let tb = b.skip(1);
        assert forall|x: int| #[trigger] free_at(ta, x) == free_at(tb, x) by {
            lemma_tail_free_at(a, x, capacity);
            lemma_tail_free_at(b, x, capacity);
        }
        lemma_canonical_unique(ta, tb, capacity);
        assert(a =~= seq![a[0]] + ta);
        assert(b =~= seq![b[0]] + tb);
    }
}

proof fn lemma_tail_free_at(list: Seq<Extent>, x: int, capacity: int)
    requires
        canonical(list, capacity),
        list.len() > 0,
    ensures
        free_at(list.skip(1), x) == (free_at(list, x) && x >= list[0].0 + list[0].1),
{
    let t = list.skip(1);
    if free_at(t, x) {
        let i = choose|i: int| 0 <= i < t.len() && in_extent(#[trigger] t[i], x);
        assert(list[i + 1] == t[i]);
    }
    if free_at(list, x) && x >= list[0].0 + list[0].1 {
        let i = choose|i: int| 0 <= i < list.len() && in_extent(#[trigger] list[i], x);
        assert(i > 0);
        assert(t[i - 1] == list[i]);
    }
}

/// Taking bytes off the front of a free extent: they and no others stop
/// being free, and the list stays canonical.
proof fn lemma_carve(list: Seq<Extent>, i: int, need: int, capacity: int)
    requires
        canonical(list, capacity),
        0 <= i < list.len(),
        0 < need <= list[i].1,
        need % 64 == 0,
        capacity <= u64::MAX,
    ensures
        canonical(carve(list, i, need), capacity),
        forall|b: int| #[trigger]
            free_at(carve(list, i, need), b) == (free_at(list, b) && !(list[i].0 <= b < list[i].0
                + need)),
        total_len(carve(list, i, need)) == total_len(list) - need,
{
    let new = carve(list, i, need);
    let off = list[i].0;
    assert(extent_ok(list[i], capacity));
    if list[i].1 == need {
        lemma_total_remove(list, i);
        assert forall|k: int| 0 <= k < new.len() implies extent_ok(#[trigger] new[k], capacity) by {
            assert(new[k] == if k < i { list[k] } else { list[k + 1] });
        }
        assert forall|k: int, l: int| 0 <= k < l < new.len() implies (#[trigger] new[k]).0
            + new[k].1 < (#[trigger] new[l]).0 by {
            assert(new[k] == if k < i { list[k] } else { list[k + 1] });
            assert(new[l] == if l < i { list[l] } else { list[l + 1] });
        }
        assert forall|b: int| #[trigger] free_at(new, b) == (free_at(list, b) && !(off <= b < off
            + need)) by {
            if free_at(new, b) {
                let k = choose|k: int| 0 <= k < new.len() && in_extent(#[trigger] new[k], b);
                let m = if k < i { k } else { k + 1 };
                assert(list[m] == new[k]);
                assert(list[i].0 == off);
            }
            if free_at(list, b) && !(off <= b < off + need) {
                let k = choose|k: int| 0 <= k < list.len() && in_extent(#[trigger] list[k], b);
                assert(k != i);
                let m = if k < i { k } else { k - 1 };
                assert(new[m] == list[k]);
            }
        }
    } else {
        let e = new[i];
        lemma_total_update(list, i, e);
        assert forall|k: int| 0 <= k < new.len() implies extent_ok(#[trigger] new[k], capacity) by {
            assert(extent_ok(list[k], capacity));
        }
        assert forall|k: int, l: int| 0 <= k < l < new.len() implies (#[trigger] new[k]).0
            + new[k].1 < (#[trigger] new[l]).0 by {
            assert(list[k].0 + list[k].1 < list[l].0);
        }
        assert forall|b: int| #[trigger] free_at(new, b) == (free_at(list, b) && !(off <= b < off
            + need)) by {
            if free_at(new, b) {
                let k = choose|k: int| 0 <= k < new.len() && in_extent(#[trigger] new[k], b);
                assert(in_extent(list[k], b));
                assert(list[i].0 == off);
            }
            if free_at(list, b) && !(off <= b < off + need) {
                let k = choose|k: int| 0 <= k < list.len() && in_extent(#[trigger] list[k], b);
                assert(in_extent(new[k], b));
            }
        }
    }
}

/// What an allocation does to the free bytes: exactly the extent handed
/// out, which was free, stops being free.
pub proof fn lemma_alloc(a: Arena, len: int)
    requires
        a.wf(),
        a.can_alloc(len),
    ensures
        ({
            let off = a.alloc_offset(len);
            let next = a.after_alloc(len);
            &&& next.wf()
            &&& off % 64 == 0
            &&& off + rounded(len) <= a.capacity
            &&& forall|b: int| off <= b < off + rounded(len) ==> #[trigger] a.free_at(b)
            &&& forall|b: int| #[trigger]
                next.free_at(b) == (a.free_at(b) && !(off <= b < off + rounded(len)))
            &&& total_len(next.free) == total_len(a.free) - rounded(len)
        }),
{
    let i = choose|i: int| is_first_fit(a.free, rounded(len), i);
    assert(is_first_fit(a.free, rounded(len), i));
    assert(extent_ok(a.free[i], a.capacity as int));
    lemma_carve(a.free, i, rounded(len), a.capacity as int);
    let off = a.alloc_offset(len);
    assert forall|b: int| off <= b < off + rounded(len) implies #[trigger] a.free_at(b) by {
        assert(in_extent(a.free[i], b));
    }
}

/// What freeing does to the free bytes: exactly the extent's are added.
pub proof fn lemma_free(a: Arena, offset: int, len: int, list: Seq<Extent>)
    requires
        a.wf(),
        canonical(list, a.capacity as int),
        gained(a.free, list, offset, rounded(len)),
    ensures
        a.after_free(offset, len).free == list,
        a.after_free(offset, len).wf(),
{
    let other = a.after_free(offset, len).free;
    assert(canonical(other, a.capacity as int) && gained(a.free, other, offset, rounded(len)));
    assert forall|x: int| #[trigger] free_at(list, x) == free_at(other, x) by {
        assert(free_at(list, x) == (free_at(a.free, x) || offset <= x < offset + rounded(len)));
        assert(free_at(other, x) == (free_at(a.free, x) || offset <= x < offset + rounded(len)));
    }
    lemma_canonical_unique(list, other, a.capacity as int);
}

/// Whether extent `e` fits, free of overlap, before the extent at `pos`.
spec fn fits_at(list: Seq<Extent>, pos: int, e: Extent, capacity: int) -> bool {
    &&& canonical(list, capacity)
    &&& capacity <= u64::MAX
    &&& extent_ok(e, capacity)
    &&& 0 <= pos <= list.len()
    &&& pos > 0 ==> list[pos - 1].0 + list[pos - 1].1 <= e.0
    &&& pos < list.len() ==> e.0 + e.1 <= list[pos].0
}

proof fn lemma_merge_none(list: Seq<Extent>, pos: int, e: Extent, capacity: int)
    requires
        fits_at(list, pos, e, capacity),
        pos > 0 ==> list[pos - 1].0 + list[pos - 1].1 < e.0,
        pos < list.len() ==> e.0 + e.1 < list[pos].0,
    ensures
        canonical(list.insert(pos, e), capacity),
        gained(list, list.insert(pos, e), e.0 as int, e.1 as int),
        total_len(list.insert(pos, e)) == total_len(list) + e.1,
{
    let new = list.insert(pos, e);
    lemma_total_insert(list, pos, e);
    assert forall|k: int| 0 <= k < new.len() implies extent_ok(#[trigger] new[k], capacity) by {
        if k < pos {
            assert(new[k] == list[k]);
        } else if k > pos {
            assert(new[k] == list[k - 1]);
        }
    }
    assert forall|k: int, l: int| 0 <= k < l < new.len() implies (#[trigger] new[k]).0 + new[k].1
        < (#[trigger] new[l]).0 by {
        assert(extent_ok(new[k], capacity) && extent_ok(new[l], capacity));
        if k < pos {
            assert(new[k] == list[k]);
            if k < pos - 1 {
                assert(list[k].0 + list[k].1 < list[pos - 1].0);
                assert(extent_ok(list[pos - 1], capacity));
            }
        } else if k > pos {
            assert(new[k] == list[k - 1]);
        }
        if l < pos {
            assert(new[l] == list[l]);
        } else if l > pos {
            assert(new[l] == list[l - 1]);
            if l - 1 > pos {
                assert(list[pos].0 + list[pos].1 < list[l - 1].0);
                assert(extent_ok(list[pos], capacity));
            }
        }
    }
    assert forall|b: int| #[trigger] free_at(new, b) == (free_at(list, b) || e.0 <= b < e.0
        + e.1) by {
        if free_at(new, b) {
            let k = choose|k: int| 0 <= k < new.len() && in_extent(#[trigger] new[k], b);
            if k < pos {
                assert(new[k] == list[k]);
            } else if k > pos {
                assert(new[k] == list[k - 1]);
            }
        }
        if free_at(list, b) {
            let k = choose|k: int| 0 <= k < list.len() && in_extent(#[trigger] list[k], b);
            if k < pos {
                assert(new[k] == list[k]);
            } else {
                assert(new[k + 1] == list[k]);
            }
        }
        if e.0 <= b < e.0 + e.1 {
            assert(in_extent(new[pos], b));
        }
    }
}

proof fn lemma_merge_prev(list: Seq<Extent>, pos: int, e: Extent, capacity: int)
    requires
        fits_at(list, pos, e, capacity),
        pos > 0,
        list[pos - 1].0 + list[pos - 1].1 == e.0,
        pos < list.len() ==> e.0 + e.1 < list[pos].0,
    ensures
        ({
            let new = list.update(pos - 1, (list[pos - 1].0, (list[pos - 1].1 + e.1) as u64));
            &&& list[pos - 1].1 + e.1 <= u64::MAX
            &&& canonical(new, capacity)
            &&& gained(list, new, e.0 as int, e.1 as int)
            &&& total_len(new) == total_len(list) + e.1
        }),
{
    let p = list[pos - 1];
    assert(extent_ok(p, capacity));
    let m: Extent = (p.0, (p.1 + e.1) as u64);
    let new = list.update(pos - 1, m);
    lemma_total_update(list, pos - 1, m);
    assert forall|k: int| 0 <= k < new.len() implies extent_ok(#[trigger] new[k], capacity) by {
        assert(extent_ok(list[k], capacity));
    }
    assert forall|k: int, l: int| 0 <= k < l < new.len() implies (#[trigger] new[k]).0 + new[k].1
        < (#[trigger] new[l]).0 by {
        assert(list[k].0 + list[k].1 < list[l].0);
        if k == pos - 1 && l > pos {
            assert(list[pos].0 + list[pos].1 < list[l].0);
        }
    }
    assert forall|b: int| #[trigger] free_at(new, b) == (free_at(list, b) || e.0 <= b < e.0
        + e.1) by {
        if free_at(new, b) {
            let k = choose|k: int| 0 <= k < new.len() && in_extent(#[trigger] new[k], b);
            assert(in_extent(list[k], b) || in_extent(e, b));
        }
        if free_at(list, b) {
            let k = choose|k: int| 0 <= k < list.len() && in_extent(#[trigger] list[k], b);
            assert(in_extent(new[k], b));
        }
        if e.0 <= b < e.0 + e.1 {
            assert(in_extent(new[pos - 1], b));
        }
    }
}

proof fn lemma_merge_next(list: Seq<Extent>, pos: int, e: Extent, capacity: int)
    requires
        fits_at(list, pos, e, capacity),
        pos < list.len(),
        e.0 + e.1 == list[pos].0,
        pos > 0 ==> list[pos - 1].0 + list[pos - 1].1 < e.0,
    ensures
        ({
            let new = list.update(pos, (e.0, (e.1 + list[pos].1) as u64));
            &&& e.1 + list[pos].1 <= u64::MAX
            &&& canonical(new, capacity)
            &&& gained(list, new, e.0 as int, e.1 as int)
            &&& total_len(new) == total_len(list) + e.1
        }),
{
    let n = list[pos];
    assert(extent_ok(n, capacity));
    let m: Extent = (e.0, (e.1 + n.1) as u64);
    let new = list.update(pos, m);
    lemma_total_update(list, pos, m);
    assert forall|k: int| 0 <= k < new.len() implies extent_ok(#[trigger] new[k], capacity) by {
        assert(extent_ok(list[k], capacity));
    }
    assert forall|k: int, l: int| 0 <= k < l < new.len() implies (#[trigger] new[k]).0 + new[k].1
        < (#[trigger] new[l]).0 by {
        assert(list[k].0 + list[k].1 < list[l].0);
        if l == pos && k < pos - 1 {
            assert(list[k].0 + list[k].1 < list[pos - 1].0);
        }
    }
    assert forall|b: int| #[trigger] free_at(new, b) == (free_at(list, b) || e.0 <= b < e.0
        + e.1) by {
        if free_at(new, b) {
            let k = choose|k: int| 0 <= k < new.len() && in_extent(#[trigger] new[k], b);
            assert(in_extent(list[k], b) || in_extent(e, b));
        }
        if free_at(list, b) {
            let k = choose|k: int| 0 <= k < list.len() && in_extent(#[trigger] list[k], b);
            assert(in_extent(new[k], b));
        }
        if e.0 <= b < e.0 + e.1 {
            assert(in_extent(new[pos], b));
        }
    }
}

proof fn lemma_merge_both(list: Seq<Extent>, pos: int, e: Extent, capacity: int)
    requires
        fits_at(list, pos, e, capacity),
        0 < pos < list.len(),
        list[pos - 1].0 + list[pos - 1].1 == e.0,
        e.0 + e.1 == list[pos].0,
    ensures
        ({
            let m = (list[pos - 1].0, (list[pos - 1].1 + e.1 + list[pos].1) as u64);
            let new = list.update(pos - 1, m).remove(pos);
            &&& list[pos - 1].1 + e.1 + list[pos].1 <= u64::MAX
            &&& canonical(new, capacity)
            &&& gained(list, new, e.0 as int, e.1 as int)
            &&& total_len(new) == total_len(list) + e.1
        }),
{
    let p = list[pos - 1];
    let n = list[pos];
    assert(extent_ok(p, capacity) && extent_ok(n, capacity));
    let m: Extent = (p.0, (p.1 + e.1 + n.1) as u64);
    let mid = list.update(pos - 1, m);
    let new = mid.remove(pos);
    lemma_total_update(list, pos - 1, m);
    lemma_total_remove(mid, pos);
    assert forall|k: int| 0 <= k < new.len() implies extent_ok(#[trigger] new[k], capacity) by {
        if k < pos - 1 {
            assert(new[k] == list[k]);
        } else if k > pos - 1 {
            assert(new[k] == list[k + 1]);
        }
    }
    assert forall|k: int, l: int| 0 <= k < l < new.len() implies (#[trigger] new[k]).0 + new[k].1
        < (#[trigger] new[l]).0 by {
        if k < pos - 1 {
            assert(new[k] == list[k]);
        } else if k > pos - 1 {
            assert(new[k] == list[k + 1]);
        } else {
            assert(list[pos].0 + list[pos].1 < list[l + 1].0);
        }
        if l < pos - 1 {
            assert(new[l] == list[l]);
        } else if l > pos - 1 {
            assert(new[l] == list[l + 1]);
        } else {
            assert(list[k].0 + list[k].1 < list[pos - 1].0);
        }
    }
    assert forall|b: int| #[trigger] free_at(new, b) == (free_at(list, b) || e.0 <= b < e.0
        + e.1) by {
        if free_at(new, b) {
            let k = choose|k: int| 0 <= k < new.len() && in_extent(#[trigger] new[k], b);
            if k < pos - 1 {
                assert(new[k] == list[k]);
            } else if k > pos - 1 {
                assert(new[k] == list[k + 1]);
            } else {
                assert(in_extent(p, b) || in_extent(e, b) || in_extent(n, b));
                assert(list[pos - 1] == p && list[pos] == n);
            }
        }
        if free_at(list, b) {
            let k = choose|k: int| 0 <= k < list.len() && in_extent(#[trigger] list[k], b);
            if k < pos - 1 {
                assert(new[k] == list[k]);
            } else if k > pos {
                assert(new[k - 1] == list[k]);
            } else {
                assert(in_extent(new[pos - 1], b));
            }
        }
        if e.0 <= b < e.0 + e.1 {
            assert(in_extent(new[pos - 1], b));
        }
    }
}

/// Where an extent that may be freed belongs in the list: every extent
/// before the result ends at or before `offset`, every other one starts
/// at or after its end.
proof fn lemma_position(list: Seq<Extent>, offset: int, need: int, capacity: int) -> (pos: int)
    requires
        canonical(list, capacity),
        need > 0,
        forall|b: int| offset <= b < offset + need ==> !#[trigger] free_at(list, b),
    ensures
        0 <= pos <= list.len(),
        pos > 0 ==> list[pos - 1].0 + list[pos - 1].1 <= offset,
        pos < list.len() ==> offset + need <= list[pos].0,
    decreases list.len(),
{
    if list.len() == 0 {
        0
    } else {
        let init = list.drop_last();
        let last = list.last();
        assert(extent_ok(list[list.len() - 1], capacity));
        if last.0 < offset {
            if last.0 + last.1 > offset {
                assert(in_extent(list[list.len() - 1], offset));
                assert(free_at(list, offset));
            }
            list.len() as int
        } else {
            if last.0 < offset + need {
                assert(in_extent(list[list.len() - 1], last.0 as int));
                assert(free_at(list, last.0 as int));
            }
            assert forall|b: int| offset <= b < offset + need implies !#[trigger] free_at(init, b) by {
                if free_at(init, b) {
                    let k = choose|k: int| 0 <= k < init.len() && in_extent(#[trigger] init[k], b);
                    assert(in_extent(list[k], b));
                    assert(free_at(list, b));
                }
            }
            lemma_position(init, offset, need, capacity)
        }
    }
}

/// Freeing an extent that may be freed makes its bytes free, and changes
/// no other byte. The free space grows by the rounded length.
pub proof fn law_free_adds_exactly_the_extent(a: Arena, offset: int, len: int)
    requires
        a.wf(),
        a.can_free(offset, len),
    ensures
        a.after_free(offset, len).wf(),
        gained(a.free, a.after_free(offset, len).free, offset, rounded(len)),
        total_len(a.after_free(offset, len).free) == total_len(a.free) + rounded(len),
{
    let cap = a.capacity as int;
    let e: Extent = (offset as u64, rounded(len) as u64);
    assert forall|b: int| offset <= b < offset + rounded(len) implies !#[trigger] free_at(
        a.free,
        b,
    ) by {
        assert(!a.free_at(b));
    }
    let pos = lemma_position(a.free, offset, rounded(len), cap);
    let prev = pos > 0 && a.free[pos - 1].0 + a.free[pos - 1].1 == offset;
    let next = pos < a.free.len() && offset + rounded(len) == a.free[pos].0;
    let list = if prev && next {
        lemma_merge_both(a.free, pos, e, cap);
        let m = (a.free[pos - 1].0, (a.free[pos - 1].1 + e.1 + a.free[pos].1) as u64);
        a.free.update(pos - 1, m).remove(pos)
    } else if prev {
        lemma_merge_prev(a.free, pos, e, cap);
        a.free.update(pos - 1, (a.free[pos - 1].0, (a.free[pos - 1].1 + e.1) as u64))
    } else if next {
        lemma_merge_next(a.free, pos, e, cap);
        a.free.update(pos, (e.0, (e.1 + a.free[pos].1) as u64))
    } else {
        lemma_merge_none(a.free, pos, e, cap);
        a.free.insert(pos, e)
    };
    lemma_free(a, offset, len, list);
}

/// Freeing what was just allocated gives back the arena as it was.
pub proof fn law_free_undoes_alloc(a: Arena, len: int)
    requires
        a.wf(),
        a.can_alloc(len),
    ensures
        a.after_alloc(len).can_free(a.alloc_offset(len) as int, len),
        a.after_alloc(len).after_free(a.alloc_offset(len) as int, len) == a,
{
    lemma_alloc(a, len);
    let off = a.alloc_offset(len) as int;
    let mid = a.after_alloc(len);
    assert forall|b: int| #[trigger]
        free_at(a.free, b) == (free_at(mid.free, b) || off <= b < off + rounded(len)) by {
        assert(mid.free_at(b) == (a.free_at(b) && !(off <= b < off + rounded(len))));
        if off <= b < off + rounded(len) {
            assert(a.free_at(b));
        }
    }
    lemma_free(mid, off, len, a.free);
}

/// An extent that has been freed cannot be freed again.
pub proof fn law_double_free_is_rejected(a: Arena, offset: int, len: int)
    requires
        a.wf(),
        a.can_free(offset, len),
    ensures
        !a.after_free(offset, len).can_free(offset, len),
{
    law_free_adds_exactly_the_extent(a, offset, len);
    assert(free_at(a.after_free(offset, len).free, offset));
    assert(a.after_free(offset, len).free_at(offset));
}

/// An arena whose free bytes add up to its capacity is one free extent,
/// as it was when it was made, and can hand out all of it at once.
pub proof fn law_drained_arena_is_whole(a: Arena)
    requires
        a.wf(),
        total_len(a.free) == a.capacity,
        a.capacity > 0,
    ensures
        a.free == seq![(0u64, a.capacity)],
        a.can_alloc(a.capacity as int),
        a.alloc_offset(a.capacity as int) == 0,
{
    let cap = a.capacity as int;
    lemma_total_bound(a.free, cap);
    let n = a.free.len();
    assert(n > 0);
    let last = a.free.last();
    assert(extent_ok(a.free[n - 1], cap));
    let init = a.free.drop_last();
    lemma_total_bound(init, cap);
    if n > 1 {
        assert(init.last() == a.free[n - 2]);
        assert(false);
    }
    assert(init =~= Seq::<Extent>::empty());
    assert(a.free =~= seq![(0u64, a.capacity)]);
    assert(is_first_fit(a.free, rounded(cap), 0));
    let i = choose|i: int| is_first_fit(a.free, rounded(cap), i);
    assert(is_first_fit(a.free, rounded(cap), i));
}

/// An arena without a byte in use is one free extent, as it was when it was
/// made.
pub proof fn law_whole_arena_free(a: Arena)
    requires
        a.wf(),
        forall|b: int| 0 <= b < a.capacity ==> #[trigger] a.free_at(b),
    ensures
        a.capacity > 0 ==> a.free == seq![(0u64, a.capacity)],
        a.capacity == 0 ==> a.free == Seq::<Extent>::empty(),
        total_len(a.free) == a.capacity,
{
    let cap = a.capacity as int;
    if cap == 0 {
        if a.free.len() > 0 {
            assert(extent_ok(a.free[0], cap));
        }
        assert(a.free =~= Seq::<Extent>::empty());
    } else {
        let whole = seq![(0u64, a.capacity)];
        assert forall|x: int| #[trigger] free_at(a.free, x) == free_at(whole, x) by {
            if free_at(a.free, x) {
                let i = choose|i: int| 0 <= i < a.free.len() && in_extent(#[trigger] a.free[i], x);
                assert(extent_ok(a.free[i], cap));
                assert(in_extent(whole[0], x));
            }
            if free_at(whole, x) {
                assert(in_extent(whole[0], x));
                assert(a.free_at(x));
            }
        }
        lemma_canonical_unique(a.free, whole, cap);
        lemma_total_push(Seq::<Extent>::empty(), (0u64, a.capacity));
        assert(whole =~= Seq::<Extent>::empty().push((0u64, a.capacity)));
    }
}

/// A run of free bytes lies within one free extent.
proof fn lemma_run_in_one_extent(list: Seq<Extent>, capacity: int, start: int, len: int) -> (i: int)
    requires
        canonical(list, capacity),
        len > 0,
        forall|b: int| start <= b < start + len ==> #[trigger] free_at(list, b),
    ensures
        0 <= i < list.len(),
        list[i].0 <= start,
        start + len <= list[i].0 + list[i].1,
{
    assert(free_at(list, start));
    let i = choose|i: int| 0 <= i < list.len() && in_extent(#[trigger] list[i], start);
    let end = list[i].0 + list[i].1;
    if end < start + len {
        assert(free_at(list, end));
        let j = choose|j: int| 0 <= j < list.len() && in_extent(#[trigger] list[j], end);
        if j < i {
            assert(list[j].0 + list[j].1 < list[i].0);
        } else if j > i {
            assert(list[i].0 + list[i].1 < list[j].0);
        }
    }
    i
}

/// Where some extent is large enough, there is a first one.
proof fn lemma_first_fit_exists(list: Seq<Extent>, need: int, i: int)
    requires
        0 <= i < list.len(),
        list[i].1 >= need,
    ensures
        exists|k: int| is_first_fit(list, need, k),
    decreases i,
{
    if forall|j: int| 0 <= j < i ==> (#[trigger] list[j]).1 < need {
        assert(is_first_fit(list, need, i));
    } else {
        let j = choose|j: int| 0 <= j < i && (#[trigger] list[j]).1 >= need;
        lemma_first_fit_exists(list, need, j);
    }
}

/// A request is met where a run of free bytes is long enough for it.
pub proof fn law_free_run_can_be_allocated(a: Arena, start: int, len: int)
    requires
        a.wf(),
        len > 0,
        forall|b: int| start <= b < start + rounded(len) ==> #[trigger] a.free_at(b),
    ensures
        a.can_alloc(len),
{
    assert forall|b: int| start <= b < start + rounded(len) implies #[trigger] free_at(a.free, b) by {
        assert(a.free_at(b));
    }
    let i = lemma_run_in_one_extent(a.free, a.capacity as int, start, rounded(len));
    lemma_first_fit_exists(a.free, rounded(len), i);
}

/// A first-fit offset allocator over a contiguous arena of bytes.
///
/// The allocator only tracks offsets; it never touches memory. Offsets
/// are relative to the start of the arena. Requested lengths are rounded
/// up to [`BOUNCE_ALLOC_ALIGN`] internally, and `free` performs the same
/// rounding so callers pass the original requested length back.
pub struct BounceAllocator {
    /// Usable arena size (rounded down to the alignment granule).
    capacity: u64,
    /// Free extents as (offset, len), in canonical form.
    free_list: Vec<Extent>,
    /// Total free bytes, always the sum of `free_list` lengths.
    free_bytes: u64,
}

impl View for BounceAllocator {
    type V = Arena;

    closed spec fn view(&self) -> Arena {
        Arena { capacity: self.capacity, free: self.free_list@ }
    }
}

/// `len` rounded up to the alignment granule.
pub(crate) fn round_len(len: u64) -> (r: u64)
    requires
        rounded(len as int) <= u64::MAX,
    ensures
        r == rounded(len as int),
        r >= len,
        r % 64 == 0,
        len > 0 ==> r > 0,
{
    let over: u64 = len % BOUNCE_ALLOC_ALIGN;
    if over == 0 {
        len
    } else {
        len - over + BOUNCE_ALLOC_ALIGN
    }
}

impl BounceAllocator {
    pub open spec fn wf(self) -> bool {
        self@.wf() && self.intact()
    }

    /// The count of free bytes is right.
    pub closed spec fn intact(self) -> bool {
        self.free_bytes == total_len(self.free_list@)
    }

    /// Create an allocator over an arena of `capacity` bytes. Capacities
    /// that are not multiples of [`BOUNCE_ALLOC_ALIGN`] are rounded down.
    pub fn new(capacity: u64) -> (r: Self)
        ensures
            r.wf(),
            r@.capacity == capacity - capacity % 64,
            r@.free == if r@.capacity == 0 {
                Seq::<Extent>::empty()
            } else {
                seq![(0u64, r@.capacity)]
            },
            r@ == fresh_arena(capacity),
    {
        let capacity: u64 = capacity - (capacity % BOUNCE_ALLOC_ALIGN);
        let mut free_list: Vec<Extent> = Vec::new();
        if capacity > 0 {
            free_list.push((0, capacity));
        }
        proof {
            if capacity > 0 {
                lemma_total_push(Seq::<Extent>::empty(), (0u64, capacity));
                assert(free_list@ =~= Seq::<Extent>::empty().push((0u64, capacity)));
            }
        }
        BounceAllocator { capacity, free_list, free_bytes: capacity }
    }

    /// Allocate `len` bytes (rounded up to the alignment granule) and
    /// return the extent's offset, or `None` if no free extent is large
    /// enough. Zero-length allocations are rejected: callers special-case
    /// zero-length descriptors and never reach the allocator.
    pub fn allocate(&mut self, len: u64) -> (r: Option<u64>)
        requires
            old(self).wf(),
        ensures
            final(self).wf(),
            r is Some <==> old(self)@.can_alloc(len as int),
            r is Some ==> r == Some(old(self)@.alloc_offset(len as int)) && final(self)@ == old(
                self,
            )@.after_alloc(len as int),
            r matches Some(offset) ==> offset % 64 == 0 && offset + len <= old(self)@.capacity,
            r is None ==> final(self)@ == old(self)@,
    {
        if len == 0 {
            return None;
        }
        let ghost a = self@;
        if len > self.capacity {
            assert forall|i: int| !is_first_fit(a.free, rounded(len as int), i) by {
                if is_first_fit(a.free, rounded(len as int), i) {
                    assert(extent_ok(a.free[i], a.capacity as int));
                }
            }
            return None;
        }
        let need: u64 = round_len(len);
        let mut pos: usize = 0;
        while pos < self.free_list.len() && self.free_list[pos].1 < need
            invariant
                pos <= self.free_list@.len(),
                forall|j: int| 0 <= j < pos ==> (#[trigger] self.free_list@[j]).1 < need,
            decreases self.free_list@.len() - pos,
        {
            pos += 1;
        }
        if pos == self.free_list.len() {
            assert forall|i: int| !is_first_fit(a.free, rounded(len as int), i) by {}
            return None;
        }
        proof {
            assert(is_first_fit(a.free, rounded(len as int), pos as int));
            let i = choose|i: int| is_first_fit(a.free, rounded(len as int), i);
            assert(is_first_fit(a.free, rounded(len as int), i));
            assert(i == pos);
            lemma_alloc(a, len as int);
            lemma_total_bound(a.free, a.capacity as int);
            lemma_total_bound(a.after_alloc(len as int).free, a.capacity as int);
            assert(extent_ok(a.free[pos as int], a.capacity as int));
        }
        let (offset, flen): (u64, u64) = self.free_list[pos];
        if flen == need {
            self.free_list.remove(pos);
        } else {
            self.free_list[pos] = (offset + need, flen - need);
        }
        self.free_bytes -= need;
        assert(self@ =~= a.after_alloc(len as int));
        Some(offset)
    }

    /// Free the extent previously returned by [`Self::allocate`] for the
    /// same (offset, requested len) pair, coalescing with free neighbors.
    ///
    /// Extents that are out of bounds or overlap free space are rejected
    /// with [`BounceError::InvalidFree`].
    pub fn free(&mut self, offset: u64, len: u64) -> (r: Result<(), BounceError>)
        requires
            old(self).wf(),
        ensures
            final(self).wf(),
            r is Ok <==> old(self)@.can_free(offset as int, len as int),
            r is Ok ==> final(self)@ == old(self)@.after_free(offset as int, len as int),
            r is Err ==> final(self)@ == old(self)@ && r == Err::<(), BounceError>(
                BounceError::InvalidFree { offset, len },
            ),
    {
        if len == 0 || len > self.capacity {
            return Err(BounceError::InvalidFree { offset, len });
        }
        let ghost a = self@;
        let need: u64 = round_len(len);
        if offset % BOUNCE_ALLOC_ALIGN != 0 || offset > self.capacity - need {
            return Err(BounceError::InvalidFree { offset, len });
        }
        let end: u64 = offset + need;
        // The insertion point: extents before it start below `offset`.
        let pos: usize = self.insertion_point(offset);
        let prev_end: u64 = if pos > 0 {
            proof {
                assert(extent_ok(a.free[pos - 1], a.capacity as int));
            }
            self.free_list[pos - 1].0 + self.free_list[pos - 1].1
        } else {
            0
        };
        let next_start: u64 = if pos < self.free_list.len() {
            self.free_list[pos].0
        } else {
            self.capacity
        };
        if prev_end > offset {
            proof {
                assert(in_extent(a.free[pos - 1], offset as int));
                assert(a.free_at(offset as int));
            }
            return Err(BounceError::InvalidFree { offset, len });
        }
        if end > next_start {
            proof {
                assert(extent_ok(a.free[pos as int], a.capacity as int));
                assert(in_extent(a.free[pos as int], next_start as int));
                assert(a.free_at(next_start as int));
            }
            return Err(BounceError::InvalidFree { offset, len });
        }
        proof {
            assert forall|b: int| offset <= b < end implies !#[trigger] a.free_at(b) by {
                if a.free_at(b) {
                    let k = choose|k: int|
                        0 <= k < a.free.len() && in_extent(#[trigger] a.free[k], b);
                    assert(extent_ok(a.free[k], a.capacity as int));
                    if k < pos && k < pos - 1 {
                        assert(a.free[k].0 + a.free[k].1 < a.free[pos - 1].0);
                    }
                    if k > pos {
                        assert(a.free[pos as int].0 + a.free[pos as int].1 < a.free[k].0);
                    }
                }
            }
        }
        // Insert and coalesce with adjacent neighbors.
        let merge_prev: bool = pos > 0 && prev_end == offset;
        let merge_next: bool = pos < self.free_list.len() && next_start == end;
        let ghost e: Extent = (offset, need);
        if merge_prev && merge_next {
            let (poff, plen): (u64, u64) = self.free_list[pos - 1];
            let next_len: u64 = self.free_list[pos].1;
            proof {
                assert(extent_ok(a.free[pos as int], a.capacity as int));
                lemma_merge_both(a.free, pos as int, e, a.capacity as int);
            }
            self.free_list[pos - 1] = (poff, plen + need + next_len);
            self.free_list.remove(pos);
        } else if merge_prev {
            let (poff, plen): (u64, u64) = self.free_list[pos - 1];
            proof {
                lemma_merge_prev(a.free, pos as int, e, a.capacity as int);
            }
            self.free_list[pos - 1] = (poff, plen + need);
        } else if merge_next {
            let next_len: u64 = self.free_list[pos].1;
            proof {
                assert(extent_ok(a.free[pos as int], a.capacity as int));
                lemma_merge_next(a.free, pos as int, e, a.capacity as int);
            }
            self.free_list[pos] = (offset, need + next_len);
        } else {
            proof {
                lemma_merge_none(a.free, pos as int, e, a.capacity as int);
            }
            self.free_list.insert(pos, (offset, need));
        }
        proof {
            lemma_free(a, offset as int, len as int, self.free_list@);
            lemma_total_bound(self.free_list@, a.capacity as int);
        }
        self.free_bytes += need;
        Ok(())
    }

    /// The number of free extents that start below `offset`.
    fn insertion_point(&self, offset: u64) -> (pos: usize)
        requires
            self.wf(),
        ensures
            pos <= self.free_list@.len(),
            forall|i: int| 0 <= i < pos ==> (#[trigger] self.free_list@[i]).0 < offset,
            forall|i: int| pos <= i < self.free_list@.len() ==> (#[trigger] self.free_list@[i]).0 >= offset,
    {
        let mut lo: usize = 0;
        let mut hi: usize = self.free_list.len();
        while lo < hi
            invariant
                self.wf(),
                lo <= hi <= self.free_list@.len(),
                forall|i: int| 0 <= i < lo ==> (#[trigger] self.free_list@[i]).0 < offset,
                forall|i: int|
                    hi <= i < self.free_list@.len() ==> (#[trigger] self.free_list@[i]).0 >= offset,
            decreases hi - lo,
        {
            let mid: usize = lo + (hi - lo) / 2;
            if self.free_list[mid].0 < offset {
                lo = mid + 1;
            } else {
                hi = mid;
            }
        }
        lo
    }

    /// Total bytes currently free (not necessarily contiguous).
    pub fn free_bytes(&self) -> (r: u64)
        requires
            self.wf(),
        ensures
            r == total_len(self@.free),
    {
        self.free_bytes
    }

    /// Usable arena size in bytes.
    pub fn capacity(&self) -> (r: u64)
        ensures
            r == self@.capacity,
    {
        self.capacity
    }
}

/// A request takes up whole granules of 64 bytes, and not one more than it
/// needs.
pub proof fn law_rounding(len: int)
    ensures
        rounded(len) % 64 == 0,
        len <= rounded(len) < len + 64,
{
}

/// What an allocation hands out: a run of free bytes on a granule, as long as
/// the request and its padding, inside the arena, and the lowest such run. It
/// and nothing else stops being free.
pub proof fn law_allocation_takes_the_lowest_free_run(a: Arena, len: int, start: int)
    requires
        a.wf(),
        a.can_alloc(len),
    ensures
        ({
            let off = a.alloc_offset(len) as int;
            let end = off + ((len + 63) / 64) * 64;
            let next = a.after_alloc(len);
            &&& off % 64 == 0
            &&& off + len <= end <= a.capacity
            &&& next.capacity == a.capacity
            &&& forall|b: int| off <= b < end ==> #[trigger] a.free_at(b)
            &&& forall|b: int| #[trigger]
                next.free_at(b) <==> a.free_at(b) && !(off <= b < end)
            &&& total_len(next.free) == total_len(a.free) - (end - off)
            &&& (forall|b: int|
                start <= b < start + (end - off) ==> #[trigger] a.free_at(b)) ==> off <= start
        }),
{
    lemma_alloc(a, len);
    let need = rounded(len);
    if forall|b: int| start <= b < start + need ==> #[trigger] a.free_at(b) {
        assert forall|b: int| start <= b < start + need implies #[trigger] free_at(a.free, b) by {
            assert(a.free_at(b));
        }
        let i = lemma_run_in_one_extent(a.free, a.capacity as int, start, need);
        let f = choose|i: int| is_first_fit(a.free, rounded(len), i);
        assert(is_first_fit(a.free, rounded(len), f));
        if f < i {
            assert(a.free[f].0 + a.free[f].1 < a.free[i].0);
        } else if i < f {
            assert(a.free[i].1 < need);
        }
    }
}

/// A request is met exactly when it is for at least one byte and there is a run
/// of free bytes as long as the request and its padding.
pub proof fn law_when_a_request_is_met(a: Arena, len: int)
    requires
        a.wf(),
    ensures
        a.can_alloc(len) <==> len > 0 && exists|start: int| #[trigger]
            run_is_free(a, start, ((len + 63) / 64) * 64),
{
    if a.can_alloc(len) {
        lemma_alloc(a, len);
        assert(run_is_free(a, a.alloc_offset(len) as int, ((len + 63) / 64) * 64));
    }
    if len > 0 && exists|start: int| #[trigger] run_is_free(a, start, ((len + 63) / 64) * 64) {
        let start = choose|start: int| #[trigger] run_is_free(a, start, ((len + 63) / 64) * 64);
        law_free_run_can_be_allocated(a, start, len);
    }
}

/// Whether the `len` bytes from `start` on are all free.
pub open spec fn run_is_free(a: Arena, start: int, len: int) -> bool {
    forall|b: int| start <= b < start + len ==> #[trigger] a.free_at(b)
}

/// When an extent may be freed, and what that does: it must start on a granule,
/// lie in the arena with its padding, and have no free byte; then its bytes and
/// no others become free.
pub proof fn law_what_freeing_does(a: Arena, offset: int, len: int)
    requires
        a.wf(),
    ensures
        ({
            let end = offset + ((len + 63) / 64) * 64;
            let next = a.after_free(offset, len);
            &&& a.can_free(offset, len) <==> len > 0 && offset >= 0 && offset % 64 == 0 && end
                <= a.capacity && forall|b: int| offset <= b < end ==> !#[trigger] a.free_at(b)
            &&& a.can_free(offset, len) ==> {
                &&& next.capacity == a.capacity
                &&& total_len(next.free) == total_len(a.free) + (end - offset)
                &&& forall|b: int| #[trigger]
                    next.free_at(b) <==> a.free_at(b) || offset <= b < end
            }
        }),
{
    if a.can_free(offset, len) {
        law_free_adds_exactly_the_extent(a, offset, len);
        let next = a.after_free(offset, len);
        assert forall|b: int| #[trigger] next.free_at(b) <==> a.free_at(b) || offset <= b < offset
            + ((len + 63) / 64) * 64 by {
            assert(free_at(next.free, b) == (free_at(a.free, b) || offset <= b < offset + rounded(
                len,
            )));
        }
    }
}

/// A byte is free if and only if one of the free extents, each a first offset
/// and a length, reaches over it.
pub proof fn law_free_bytes_are_those_of_the_extents(a: Arena, b: int)
    ensures
        a.free_at(b) <==> exists|i: int|
            0 <= i < a.free.len() && (#[trigger] a.free[i]).0 <= b < a.free[i].0 + a.free[i].1,
{
    if a.free_at(b) {
        let i = choose|i: int| 0 <= i < a.free.len() && in_extent(#[trigger] a.free[i], b);
        assert(a.free[i].0 <= b < a.free[i].0 + a.free[i].1);
    }
    if exists|i: int| 0 <= i < a.free.len() && (#[trigger] a.free[i]).0 <= b < a.free[i].0 + a.free[i].1 {
        let i = choose|i: int|
            0 <= i < a.free.len() && (#[trigger] a.free[i]).0 <= b < a.free[i].0 + a.free[i].1;
        assert(in_extent(a.free[i], b));
    }
}

/// A fresh arena is as large as asked for, rounded down to granules of 64 bytes,
/// and every byte of it is free.
pub proof fn law_fresh_arena_is_free(capacity: u64, b: int)
    ensures
        fresh_arena(capacity).wf(),
        fresh_arena(capacity).capacity % 64 == 0,
        fresh_arena(capacity).capacity <= capacity < fresh_arena(capacity).capacity + 64,
        fresh_arena(capacity).free_at(b) <==> 0 <= b < fresh_arena(capacity).capacity,
        total_len(fresh_arena(capacity).free) == fresh_arena(capacity).capacity,
{
    let a = fresh_arena(capacity);
    if a.capacity > 0 {
        lemma_total_push(Seq::<Extent>::empty(), (0u64, a.capacity));
        assert(a.free =~= Seq::<Extent>::empty().push((0u64, a.capacity)));
        if 0 <= b < a.capacity {
            assert(in_extent(a.free[0], b));
        }
    }
}

} // verus!
