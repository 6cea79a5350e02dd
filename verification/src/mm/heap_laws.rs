//! What holds of the heap as a whole.
use vstd::arithmetic::div_mod::*;
use vstd::arithmetic::mul::*;
use vstd::arithmetic::power2::*;
use vstd::prelude::*;

use crate::mm::addr::PAddr;
use crate::mm::blocks;
use crate::mm::frame_laws;
use crate::mm::free_lists;
use crate::mm::heap;
use crate::mm::heap::{HeapView, Layout};
use crate::mm::pmm;

verus! {

/// The byte ranges do not meet.
pub open spec fn ranges_apart(a: int, size_a: int, b: int, size_b: int) -> bool {
    a + size_a <= b || b + size_b <= a
}

/// An object lies in its slab, after the header.
proof fn lemma_object_range(hhdm: int, f: int, b: int, i: int)
    requires
        0 <= b < 7,
        0 <= i < heap::obj_count(b),
    ensures
        pmm::frame_address(hhdm, f) + 16 <= heap::obj_addr(hhdm, f, b, i),
        heap::obj_addr(hhdm, f, b, i) + heap::obj_size(b) <= pmm::frame_address(hhdm, f) + 4096,
{
    heap::lemma_bucket(b);
    let s = heap::obj_size(b);
    let n = heap::obj_count(b);
    assert(s <= s * (i + 1) && s * (i + 1) + s <= s * (n + 1)) by (nonlinear_arith)
        requires
            16 <= s,
            0 <= i < n,
    ;
}

/// Objects that are in use do not overlap.
pub proof fn law_objects_apart(h: HeapView, hhdm: int, f: int, i: int, f2: int, j: int)
    requires
        h.wf(),
        h.live(f, i),
        h.live(f2, j),
        f != f2 || i != j,
    ensures
        ranges_apart(
            heap::obj_addr(hhdm, f, h.slabs[f].bucket, i),
            heap::obj_size(h.slabs[f].bucket),
            heap::obj_addr(hhdm, f2, h.slabs[f2].bucket, j),
            heap::obj_size(h.slabs[f2].bucket),
        ),
{
    assert(h.slab_wf(f) && h.slab_wf(f2));
    lemma_places_apart(hhdm, f, h.slabs[f].bucket, i, f2, h.slabs[f2].bucket, j);
}

/// Objects do not overlap with large allocations.
pub proof fn law_objects_and_blocks_apart(
    h: HeapView,
    pmm: &pmm::Pmm,
    f: int,
    i: int,
    f2: int,
)
    requires
        h.wf(),
        heap::frames_apart(h, pmm),
        h.live(f, i),
        h.large.contains_key(f2),
    ensures
        ranges_apart(
            heap::obj_addr(pmm.hhdm(), f, h.slabs[f].bucket, i),
            heap::obj_size(h.slabs[f].bucket),
            pmm::frame_address(pmm.hhdm(), f2),
            blocks::pages(h.large[f2]) * 4096,
        ),
{
    assert(h.slab_wf(f));
    lemma_object_range(pmm.hhdm(), f, h.slabs[f].bucket, i);
    assert(!heap::large_holds(h, f2, f));
}

/// Large allocations do not overlap.
pub proof fn law_blocks_apart(h: HeapView, pmm: &pmm::Pmm, f: int, f2: int)
    requires
        heap::frames_apart(h, pmm),
        h.large.contains_key(f),
        h.large.contains_key(f2),
        f != f2,
    ensures
        ranges_apart(
            pmm::frame_address(pmm.hhdm(), f),
            blocks::pages(h.large[f]) * 4096,
            pmm::frame_address(pmm.hhdm(), f2),
            blocks::pages(h.large[f2]) * 4096,
        ),
{
    blocks::lemma_pages_bound(h.large[f]);
    blocks::lemma_pages_bound(h.large[f2]);
    let g = if f >= f2 {
        f
    } else {
        f2
    };
    assert(!(heap::large_holds(h, f, g) && heap::large_holds(h, f2, g)));
}

/// The heap keeps no word of its own in an object that is in use. As nothing
/// but its own words and free frames change, the contents of an object stay
/// until it is freed.
pub proof fn law_objects_hold_no_heap_words(h: HeapView, f: int, i: int, k: int)
    requires
        h.wf(),
        h.live(f, i),
        0 <= k < heap::obj_words(h.slabs[f].bucket),
    ensures
        ({
            let w = f * 512 + heap::obj_words(h.slabs[f].bucket) * (i + 1) + k;
            &&& w / 512 == f
            &&& !heap::heap_word(h, w)
        }),
{
    let b = h.slabs[f].bucket;
    let s = heap::obj_words(b);
    let n = heap::obj_count(b);
    let o = s * (i + 1) + k;
    let w = f * 512 + o;
    assert(h.slab_wf(f));
    heap::lemma_bucket(b);
    assert(s <= s * (i + 1) && s * (i + 1) + s <= s * (n + 1)) by (nonlinear_arith)
        requires
            2 <= s,
            0 <= i < n,
    ;
    assert(w / 512 == f && w % 512 == o);
    lemma_fundamental_div_mod_converse(o, s, i + 1, k);
}

/// An allocation from a bucket gives an object that was not in use, puts it in
/// use, and leaves all others as they are.
pub proof fn law_allocated_object_is_new(h: HeapView, b: int, fresh: Option<int>)
    requires
        h.wf(),
        0 <= b < 7,
        h.source(b, fresh) is Some,
        h.needs_slab(b) ==> !h.slabs.contains_key(fresh.unwrap()),
    ensures
        ({
            let f = h.source(b, fresh).unwrap();
            let i = h.next_object(b, fresh);
            let h2 = h.alloc_small(b, fresh);
            &&& !h.live(f, i)
            &&& h2.live(f, i)
            &&& h2.slabs[f].bucket == b
            &&& forall|g: int, j: int|
                (g != f || j != i) ==> (#[trigger] h2.live(g, j) <==> h.live(g, j))
        }),
{
    let f = h.source(b, fresh).unwrap();
    let i = h.next_object(b, fresh);
    let p = h.prepared(b, fresh);
    let h2 = h.alloc_small(b, fresh);
    let free = p.slabs[f].free;
    heap::lemma_bucket(b);
    if h.active_usable(b) {
        assert(h.active[b] == Some(f));
        assert(h.slab_wf(f));
    } else if h.partial[b].len() > 0 {
        assert(h.partial[b][0] == f);
        assert(h.slab_wf(f));
    }
    assert(free.len() > 0 && free[0] == i && free.no_duplicates());
    assert(free.contains(i));
    assert(!free.drop_first().contains(i)) by {
        if free.drop_first().contains(i) {
            let x = choose|x: int| 0 <= x < free.drop_first().len() && free.drop_first()[x] == i;
            assert(free[x + 1] == free[0]);
        }
    }
    assert forall|g: int, j: int| (g != f || j != i) implies (#[trigger] h2.live(g, j) <==> h.live(
        g,
        j,
    )) by {
        if g == f {
            assert(free.drop_first().contains(j) <==> free.contains(j)) by {
                if free.contains(j) {
                    let x = choose|x: int| 0 <= x < free.len() && free[x] == j;
                    assert(free.drop_first()[x - 1] == j);
                }
                if free.drop_first().contains(j) {
                    let x = choose|x: int|
                        0 <= x < free.drop_first().len() && free.drop_first()[x] == j;
                    assert(free[x + 1] == j);
                }
            }
            if h.needs_slab(b) && 0 <= j < heap::obj_count(b) {
                assert(free[j] == j);
                assert(free.contains(j));
            }
        }
    }
}

/// Freeing an object takes it out of use and leaves all others as they are.
pub proof fn law_freed_object_is_gone(h: HeapView, f: int, i: int)
    requires
        h.live(f, i),
    ensures
        !h.dealloc_small(f, i).live(f, i),
        forall|g: int, j: int|
            (g != f || j != i) ==> (#[trigger] h.dealloc_small(f, i).live(g, j) <==> h.live(
                g,
                j,
            )),
{
    let h2 = h.dealloc_small(f, i);
    let free = h.slabs[f].free;
    let free2 = h2.slabs[f].free;
    assert(free2[0] == i);
    assert(free2.contains(i));
    assert forall|g: int, j: int| (g != f || j != i) implies (#[trigger] h2.live(g, j) <==> h.live(
        g,
        j,
    )) by {
        if g == f {
            assert(free2.contains(j) <==> free.contains(j)) by {
                if free.contains(j) {
                    let x = choose|x: int| 0 <= x < free.len() && free[x] == j;
                    assert(free2[x + 1] == j);
                }
                if free2.contains(j) {
                    let x = choose|x: int| 0 <= x < free2.len() && free2[x] == j;
                    assert(x > 0 && free[x - 1] == j);
                }
            }
        }
    }
}

/// Freeing the object that the active slab has just given out restores the
/// heap, the order of the free objects included.
pub proof fn law_free_undoes_alloc(h: HeapView, b: int, fresh: Option<int>)
    requires
        h.wf(),
        0 <= b < 7,
        h.active_usable(b),
    ensures
        h.alloc_small(b, fresh).dealloc_small(
            h.source(b, fresh).unwrap(),
            h.next_object(b, fresh),
        ) == h,
{
    let f = h.source(b, fresh).unwrap();
    let i = h.next_object(b, fresh);
    let h2 = h.alloc_small(b, fresh).dealloc_small(f, i);
    let free = h.slabs[f].free;
    assert(h.active[b] == Some(f));
    assert(h.slabs[f].bucket == b);
    assert(seq![i] + free.drop_first() =~= free);
    assert(h2.slabs =~= h.slabs);
}

/// Whatever slab an object came from, once it is freed the next allocation from
/// its bucket gives it out again and takes no frame.
pub proof fn law_freed_object_is_next(
    h: HeapView,
    b: int,
    fresh: Option<int>,
    fresh2: Option<int>,
)
    requires
        h.wf(),
        0 <= b < 7,
        h.source(b, fresh) is Some,
    ensures
        ({
            let f = h.source(b, fresh).unwrap();
            let i = h.next_object(b, fresh);
            let h2 = h.alloc_small(b, fresh).dealloc_small(f, i);
            &&& !h2.needs_slab(b)
            &&& h2.source(b, fresh2) == Some(f)
            &&& h2.next_object(b, fresh2) == i
        }),
{
    let f = h.source(b, fresh).unwrap();
    let i = h.next_object(b, fresh);
    let h1 = h.alloc_small(b, fresh);
    let h2 = h1.dealloc_small(f, i);
    assert(h1.active[b] == Some(f));
    assert(h2.active[b] == Some(f));
    assert(h2.slabs[f].free[0] == i);
    assert(h2.active_usable(b));
}

/// A multiple of a power of two is a multiple of every smaller one.
proof fn lemma_smaller_power(x: int, large: nat, small: nat)
    requires
        small <= large,
        x % (pow2(large) as int) == 0,
    ensures
        x % (pow2(small) as int) == 0,
{
    let d = (large - small) as nat;
    lemma_pow2_adds(small, d);
    lemma_pow2_pos(small);
    lemma_pow2_pos(large);
    let q = x / (pow2(large) as int);
    lemma_fundamental_div_mod(x, pow2(large) as int);
    assert(x == (q * pow2(d)) * pow2(small)) by (nonlinear_arith)
        requires
            x == pow2(large) * q,
            pow2(large) == pow2(small) * pow2(d),
    ;
    lemma_mod_multiples_basic(q * pow2(d), pow2(small) as int);
}

/// Objects are large enough for what they are allocated for, and aligned.
pub proof fn law_objects_fit(need: int, align: nat, hhdm: int, f: int, b: int, i: int)
    requires
        heap::bucket_of(need) == Some(b),
        pow2(align) <= need,
        hhdm % 4096 == 0,
    ensures
        need <= heap::obj_size(b),
        heap::obj_addr(hhdm, f, b, i) % (pow2(align) as int) == 0,
{
    lemma2_to64();
    let s = heap::obj_size(b);
    let large = (4 + b) as nat;
    assert(s == pow2(large));
    let k = hhdm / 4096;
    heap::lemma_bucket(b);
    let n = heap::obj_count(b) + 1;
    let addr = heap::obj_addr(hhdm, f, b, i);
    assert(addr == ((k + f) * n + i + 1) * s) by (nonlinear_arith)
        requires
            addr == k * 4096 + f * 4096 + s * (i + 1),
            s * n == 4096,
    ;
    lemma_mod_multiples_basic((k + f) * n + i + 1, s);
    if align > large {
        lemma_pow2_strictly_increases(large, align);
    }
    lemma_smaller_power(addr, large, align);
}

/// Blocks of frames are large enough for what they are allocated for, and
/// aligned as far as the direct map is.
pub proof fn law_blocks_fit(need: int, align: nat, hhdm: int, f: int, order: int)
    requires
        heap::large_order(need) == Some(order),
        0 < pow2(align) <= need,
        f % blocks::pages(order) == 0,
        hhdm % (pow2(align) as int) == 0,
    ensures
        need <= blocks::pages(order) * 4096,
        pmm::frame_address(hhdm, f) % (pow2(align) as int) == 0,
{
    lemma_order_fits((need + 4095) / 4096, 0);
    lemma2_to64();
    let p = blocks::pages(order);
    blocks::lemma_pages_bound(order);
    lemma_pow2_adds(order as nat, 12);
    let large = (order + 12) as nat;
    let q = f / p;
    lemma_fundamental_div_mod(f, p);
    assert(f * 4096 == q * (p * 4096)) by (nonlinear_arith)
        requires
            f == p * q,
    ;
    assert(p * 4096 == pow2(large));
    lemma_mod_multiples_basic(q, p * 4096);
    if align > large {
        lemma_pow2_strictly_increases(large, align);
    }
    lemma_smaller_power(f * 4096, large, align);
    let a = pow2(align) as int;
    lemma_mod_adds(hhdm, f * 4096, a);
}

proof fn lemma_order_fits(frames: int, o: int)
    requires
        0 <= o,
        heap::order_of(frames, o) is Some,
    ensures
        o <= heap::order_of(frames, o).unwrap() <= 11,
        frames <= blocks::pages(heap::order_of(frames, o).unwrap()),
    decreases 12 - o,
{
    if frames > blocks::pages(o) {
        lemma_order_fits(frames, o + 1);
    }
}

/// A small allocation is one of at most 1024 bytes. It goes to the bucket with
/// the smallest objects that are large enough, where the objects of bucket `b`
/// have 2^(4 + b) bytes and a slab is a page of them, less one for the header.
pub proof fn law_buckets(need: int, b: int)
    requires
        0 <= b < 7,
    ensures
        heap::obj_size(b) == pow2((4 + b) as nat),
        (heap::obj_count(b) + 1) * pow2((4 + b) as nat) == 4096,
        heap::bucket_of(need) is None <==> need > 1024,
        heap::bucket_of(need) == Some(b) <==> need <= pow2((4 + b) as nat) && (b == 0 || need
            > pow2((3 + b) as nat)),
{
    lemma2_to64();
    heap::lemma_bucket(b);
    assert(heap::obj_size(b) == pow2((4 + b) as nat));
    lemma_mul_is_commutative(heap::obj_size(b), heap::obj_count(b) + 1);
}

/// A large allocation takes the smallest block that is large enough: there is
/// one for up to 8 MiB, which is the size of the largest blocks, and for no
/// more.
pub proof fn law_large_orders(need: int)
    requires
        need >= 0,
    ensures
        heap::large_order(need) is None <==> need > 0x80_0000,
        heap::large_order(need) matches Some(o) ==> {
            &&& 0 <= o <= 11
            &&& need <= pow2(o as nat) * 4096
            &&& o == 0 || need > pow2((o - 1) as nat) * 4096
        },
{
    lemma2_to64();
    let frames = (need + 4095) / 4096;
    lemma_order_least(frames, 0);
    if heap::order_of(frames, 0) is None {
        blocks::lemma_single();
        assert(frames > blocks::pages(11));
    } else {
        let o = heap::order_of(frames, 0).unwrap();
        blocks::lemma_pages_monotonic(o, 11);
    }
}

/// The order is the least whose blocks are large enough, from `o` on.
proof fn lemma_order_least(frames: int, o: int)
    requires
        0 <= o <= 12,
    ensures
        match heap::order_of(frames, o) {
            Some(k) => o <= k <= 11 && frames <= blocks::pages(k) && (k == o || frames
                > blocks::pages(k - 1)),
            None => o > 11 || frames > blocks::pages(11),
        },
    decreases 12 - o,
{
    if o <= 11 && frames > blocks::pages(o) {
        lemma_order_least(frames, o + 1);
    }
}

/// An order whose blocks are just large enough is the one that is taken.
proof fn lemma_order_unique(need: int, o: int)
    requires
        need >= 0,
        0 <= o <= 11,
        need <= pow2(o as nat) * 4096,
        o == 0 || need > pow2((o - 1) as nat) * 4096,
    ensures
        heap::large_order(need) == Some(o),
{
    law_large_orders(need);
    lemma2_to64();
    blocks::lemma_pages_monotonic(o, 11);
    assert(need <= 0x80_0000);
    let k = heap::large_order(need).unwrap();
    if k < o {
        blocks::lemma_pages_monotonic(k, o - 1);
    } else if o < k {
        blocks::lemma_pages_monotonic(o, k - 1);
    }
}

/// A small allocation fails exactly when no frame is free and every slab with
/// objects of the right size is full. It takes one frame at most, and none while
/// a slab has room.
pub proof fn law_small_allocation_fails_only_without_room(
    h: HeapView,
    pmm: &pmm::Pmm,
    mem: Seq<u64>,
    layout: Layout,
    b: int,
    r: Option<u64>,
    h2: HeapView,
    pmm2: &pmm::Pmm,
    mem2: Seq<u64>,
)
    requires
        h.wf(),
        layout.size <= pow2((4 + b) as nat),
        layout.align <= pow2((4 + b) as nat),
        0 <= b < 7,
        b == 0 || layout.size > pow2((3 + b) as nat) || layout.align > pow2((3 + b) as nat),
        heap::allocate_outcome(h, pmm, mem, layout, r, h2, pmm2, mem2),
    ensures
        r is None <==> pmm.free_count() <= 0 && forall|f: int| #[trigger]
            h.slabs.contains_key(f) && h.slabs[f].bucket == b ==> h.slabs[f].free.len() == 0,
        (exists|f: int| #[trigger]
            h.slabs.contains_key(f) && h.slabs[f].bucket == b && h.slabs[f].free.len() > 0)
            ==> pmm2.free_count() == pmm.free_count() && pmm2.lists() == pmm.lists(),
        pmm2.free_count() == pmm.free_count() || pmm2.free_count() == pmm.free_count() - 1,
{
    law_buckets(layout.need(), b);
    assert(heap::bucket_of(layout.need()) == Some(b));
    if h.needs_slab(b) {
        assert forall|f: int| #[trigger]
            h.slabs.contains_key(f) && h.slabs[f].bucket == b implies h.slabs[f].free.len() == 0 by {
            assert(h.slab_wf(f));
        }
    }
    if r is None {
        assert forall|f: int| #[trigger]
            h.slabs.contains_key(f) && h.slabs[f].bucket == b implies h.slabs[f].free.len() == 0 by {
            assert(h.slab_wf(f));
        }
    } else if pmm.free_count() <= 0 {
        if h.active_usable(b) {
            let f = h.active[b].unwrap();
            assert(h.slabs.contains_key(f) && h.slabs[f].bucket == b);
        } else {
            let f = h.partial[b][0];
            assert(h.slabs.contains_key(f) && h.slabs[f].bucket == b);
        }
    }
}

/// A large allocation fails exactly when it is one of more than 8 MiB, or when
/// no aligned run of frames of the least size that is large enough is free. What
/// it gives is such a run, which is then no longer free.
pub proof fn law_large_allocation_takes_a_free_run(
    h: HeapView,
    pmm: &pmm::Pmm,
    mem: Seq<u64>,
    layout: Layout,
    o: int,
    r: Option<u64>,
    h2: HeapView,
    pmm2: &pmm::Pmm,
    mem2: Seq<u64>,
)
    requires
        pmm.wf(mem),
        0 <= o <= 11,
        layout.size > 1024 || layout.align > 1024,
        layout.size <= pow2(o as nat) * 4096,
        layout.align <= pow2(o as nat) * 4096,
        o == 0 || layout.size > pow2((o - 1) as nat) * 4096 || layout.align > pow2((o - 1) as nat)
            * 4096,
        heap::allocate_outcome(h, pmm, mem, layout, r, h2, pmm2, mem2),
    ensures
        r is None <==> !exists|s: int| #[trigger] frame_laws::open_run(pmm, s, o as nat),
        r matches Some(a) ==> {
            let first = (a - pmm.hhdm()) / 4096;
            &&& (a - pmm.hhdm()) % 4096 == 0
            &&& frame_laws::open_run(pmm, first, o as nat)
            &&& pmm2.free_count() == pmm.free_count() - pow2(o as nat)
            &&& forall|g: int| #[trigger]
                pmm2.is_free(g) <==> pmm.is_free(g) && !(first <= g < first + pow2(o as nat))
        },
{
    law_buckets(layout.need(), 0);
    lemma_order_unique(layout.need(), o);
    pmm.lemma_wf(mem);
    let order = o as nat;
    free_lists::lemma_first_order(pmm.lists(), o);
    if r is Some {
        let f = free_lists::alloc_frame_of(pmm.lists(), o);
        let got = PAddr((f * 4096) as u64);
        frame_laws::law_allocation_takes_a_free_run(pmm, mem, order, Some(got), pmm2, mem2);
        let a = r.unwrap();
        assert(a == pmm.hhdm() + f * 4096);
        assert((a - pmm.hhdm()) / 4096 == f);
        assert(got.0 == f * 4096);
    } else {
        lemma_no_run(pmm, mem, order);
    }
}

/// Where the lists have no block that is large enough, no run is free.
proof fn lemma_no_run(pmm: &pmm::Pmm, mem: Seq<u64>, order: nat)
    requires
        pmm.wf(mem),
        order <= 11,
        free_lists::first_order(pmm.lists(), order as int) >= 12,
    ensures
        !exists|s: int| #[trigger] frame_laws::open_run(pmm, s, order),
{
    free_lists::lemma_first_order(pmm.lists(), order as int);
    if exists|s: int| #[trigger] frame_laws::open_run(pmm, s, order) {
        let s = choose|s: int| #[trigger] frame_laws::open_run(pmm, s, order);
        let (c, i) = frame_laws::law_free_runs_are_joined(pmm, mem, s, order);
        assert(pmm.lists()[c].len() > 0);
    }
}

/// Nothing larger than 8 MiB is allocated.
pub proof fn law_too_large_allocation_fails(
    h: HeapView,
    pmm: &pmm::Pmm,
    mem: Seq<u64>,
    layout: Layout,
    r: Option<u64>,
    h2: HeapView,
    pmm2: &pmm::Pmm,
    mem2: Seq<u64>,
)
    requires
        layout.size > 0x80_0000 || layout.align > 0x80_0000,
        heap::allocate_outcome(h, pmm, mem, layout, r, h2, pmm2, mem2),
    ensures
        r is None,
        h2 == h,
        mem2 == mem,
        pmm2.free_count() == pmm.free_count(),
{
    law_buckets(layout.need(), 0);
    law_large_orders(layout.need());
}

/// Memory that is handed out is large enough, aligned as asked for, and meets
/// neither an object in use nor a large allocation.
pub proof fn law_allocated_memory_is_unused(
    h: HeapView,
    pmm: &pmm::Pmm,
    mem: Seq<u64>,
    layout: Layout,
    align: nat,
    a: u64,
    h2: HeapView,
    pmm2: &pmm::Pmm,
    mem2: Seq<u64>,
)
    requires
        h.wf(),
        heap::frames_apart(h, pmm),
        pmm.wf(mem),
        pmm.hhdm() % 4096 == 0,
        pmm.hhdm() % (pow2(align) as int) == 0,
        layout.align == pow2(align),
        heap::allocate_outcome(h, pmm, mem, layout, Some(a), h2, pmm2, mem2),
    ensures
        a as int % (pow2(align) as int) == 0,
        forall|f: int, i: int| #[trigger]
            h.live(f, i) ==> ranges_apart(
                a as int,
                layout.size as int,
                heap::obj_addr(pmm.hhdm(), f, h.slabs[f].bucket, i),
                heap::obj_size(h.slabs[f].bucket),
            ),
        forall|f: int| #[trigger]
            h.large.contains_key(f) ==> ranges_apart(
                a as int,
                layout.size as int,
                pmm.hhdm() + f * 4096,
                pow2(h.large[f] as nat) as int * 4096,
            ),
{
    let need = layout.need();
    let hh = pmm.hhdm();
    pmm.lemma_wf(mem);
    lemma_pow2_pos(align);
    law_buckets(need, 0);
    if need <= 1024 {
        let b = heap::bucket_of(need).unwrap();
        law_buckets(need, b);
        let fresh = heap::fresh_frame(pmm);
        let f0 = h.source(b, fresh).unwrap();
        let i0 = h.next_object(b, fresh);
        law_objects_fit(need, align, hh, f0, b, i0);
        if h.needs_slab(b) {
            free_lists::lemma_first_order(pmm.lists(), 0);
            lemma_next_frame_is_free(pmm, mem);
            assert(pmm.is_free(f0));
        }
        law_allocated_object_is_new(h, b, fresh);
        assert(h2.live(f0, i0));
        assert forall|f: int, i: int| #[trigger] h.live(f, i) implies ranges_apart(
            a as int,
            layout.size as int,
            heap::obj_addr(hh, f, h.slabs[f].bucket, i),
            heap::obj_size(h.slabs[f].bucket),
        ) by {
            assert(h.slab_wf(f));
            if f == f0 {
                if !h.active_usable(b) && h.partial[b].len() > 0 {
                    assert(h.partial[b][0] == f0);
                }
                assert(h.slabs[f].bucket == b);
            }
            lemma_places_apart(hh, f0, b, i0, f, h.slabs[f].bucket, i);
        }
        assert forall|f: int| #[trigger] h.large.contains_key(f) implies ranges_apart(
            a as int,
            layout.size as int,
            hh + f * 4096,
            pow2(h.large[f] as nat) as int * 4096,
        ) by {
            if h.active_usable(b) {
                assert(h.slabs.contains_key(f0));
            } else if h.partial[b].len() > 0 {
                assert(h.partial[b][0] == f0);
                assert(h.slabs.contains_key(f0));
            }
            assert(!heap::large_holds(h, f, f0));
            lemma_object_range(hh, f0, b, i0);
        }
    } else {
        let o = heap::large_order(need).unwrap();
        law_large_orders(need);
        let f0 = free_lists::alloc_frame_of(pmm.lists(), o);
        let got = PAddr((f0 * 4096) as u64);
        frame_laws::law_allocation_takes_a_free_run(pmm, mem, o as nat, Some(got), pmm2, mem2);
        assert(got.0 as int / 4096 == f0);
        law_blocks_fit(need, align, hh, f0, o);
        blocks::lemma_pages_bound(o);
        assert forall|f: int, i: int| #[trigger] h.live(f, i) implies ranges_apart(
            a as int,
            layout.size as int,
            heap::obj_addr(hh, f, h.slabs[f].bucket, i),
            heap::obj_size(h.slabs[f].bucket),
        ) by {
            assert(h.slab_wf(f));
            lemma_object_range(hh, f, h.slabs[f].bucket, i);
            if f0 <= f < f0 + pow2(o as nat) {
                assert(pmm.is_free(f));
            }
        }
        assert forall|f: int| #[trigger] h.large.contains_key(f) implies ranges_apart(
            a as int,
            layout.size as int,
            hh + f * 4096,
            pow2(h.large[f] as nat) as int * 4096,
        ) by {
            let p = blocks::pages(h.large[f]);
            blocks::lemma_pages_bound(h.large[f]);
            let g = if f >= f0 {
                f
            } else {
                f0
            };
            if f0 < f + p && f < f0 + pow2(o as nat) {
                assert(heap::large_holds(h, f, g));
                assert(pmm.is_free(g));
            }
        }
    }
}

/// Places of objects in different slabs, or of different numbers in one, do not
/// meet.
proof fn lemma_places_apart(hhdm: int, f: int, b: int, i: int, f2: int, b2: int, j: int)
    requires
        0 <= b < 7,
        0 <= b2 < 7,
        0 <= i < heap::obj_count(b),
        0 <= j < heap::obj_count(b2),
        f != f2 || (b == b2 && i != j),
    ensures
        ranges_apart(
            heap::obj_addr(hhdm, f, b, i),
            heap::obj_size(b),
            heap::obj_addr(hhdm, f2, b2, j),
            heap::obj_size(b2),
        ),
{
    lemma_object_range(hhdm, f, b, i);
    lemma_object_range(hhdm, f2, b2, j);
    if f == f2 {
        let s = heap::obj_size(b);
        heap::lemma_bucket(b);
        if i < j {
            assert(s * (i + 1) + s <= s * (j + 1)) by (nonlinear_arith)
                requires
                    s > 0,
                    i + 1 <= j,
            ;
        } else {
            assert(s * (j + 1) + s <= s * (i + 1)) by (nonlinear_arith)
                requires
                    s > 0,
                    j + 1 <= i,
            ;
        }
    }
}

/// The frame for a new slab is free.
proof fn lemma_next_frame_is_free(pmm: &pmm::Pmm, mem: Seq<u64>)
    requires
        pmm.wf(mem),
        pmm.free_count() > 0,
    ensures
        pmm.is_free(free_lists::alloc_frame_of(pmm.lists(), 0)),
{
    pmm.lemma_wf(mem);
    free_lists::lemma_first_order(pmm.lists(), 0);
    let c = free_lists::first_order(pmm.lists(), 0);
    blocks::lemma_pages(c);
    assert(free_lists::block_holds(pmm.lists(), c, 0, pmm.lists()[c][0]));
}

/// What an allocation returned can be freed with the same layout.
pub proof fn law_allocated_memory_can_be_freed(
    h: HeapView,
    pmm: &pmm::Pmm,
    mem: Seq<u64>,
    layout: Layout,
    a: u64,
    h2: HeapView,
    pmm2: &pmm::Pmm,
    mem2: Seq<u64>,
)
    requires
        h.wf(),
        heap::frames_apart(h, pmm),
        pmm.wf(mem),
        heap::allocate_outcome(h, pmm, mem, layout, Some(a), h2, pmm2, mem2),
    ensures
        heap::can_deallocate(h2, pmm.hhdm(), a, layout),
{
    let need = layout.need();
    let hh = pmm.hhdm();
    pmm.lemma_wf(mem);
    law_buckets(need, 0);
    if need <= 1024 {
        let b = heap::bucket_of(need).unwrap();
        law_buckets(need, b);
        let fresh = heap::fresh_frame(pmm);
        let f = h.source(b, fresh).unwrap();
        let i = h.next_object(b, fresh);
        if h.needs_slab(b) {
            lemma_next_frame_is_free(pmm, mem);
            assert(pmm.is_free(f));
        }
        law_allocated_object_is_new(h, b, fresh);
        assert(h2.live(f, i));
        lemma_object_place(hh, f, b, i, a);
    } else if heap::large_order(need) is Some {
        let o = heap::large_order(need).unwrap();
        let f = free_lists::alloc_frame_of(pmm.lists(), o);
        assert((hh + f * 4096 - hh) / 4096 == f);
    }
}

/// The address of an object tells its slab and its number.
proof fn lemma_object_place(hhdm: int, f: int, b: int, i: int, a: u64)
    requires
        0 <= b < 7,
        0 <= i < heap::obj_count(b),
        a == heap::obj_addr(hhdm, f, b, i),
    ensures
        heap::ptr_frame(hhdm, a) == f,
        heap::ptr_index(hhdm, b, a) == i,
{
    lemma_object_range(hhdm, f, b, i);
    heap::lemma_bucket(b);
    let s = heap::obj_size(b);
    let o = s * (i + 1);
    assert(a - hhdm == f * 4096 + o);
    assert((a - hhdm) / 4096 == f && (a - hhdm) % 4096 == o);
    assert(o / s == i + 1) by {
        lemma_mul_is_commutative(s, i + 1);
        lemma_div_multiples_vanish(i + 1, s);
    }
}

/// Freeing a small allocation takes the object at its address out of use, and
/// nothing else: objects of 2^(4 + b) bytes lie one after another in a page,
/// the first of them behind the header.
pub proof fn law_small_memory_is_freed(
    h: HeapView,
    pmm: &pmm::Pmm,
    mem: Seq<u64>,
    ptr: u64,
    layout: Layout,
    b: int,
    h2: HeapView,
    pmm2: &pmm::Pmm,
    mem2: Seq<u64>,
)
    requires
        ptr != 0,
        0 <= b < 7,
        layout.size <= pow2((4 + b) as nat),
        layout.align <= pow2((4 + b) as nat),
        b == 0 || layout.size > pow2((3 + b) as nat) || layout.align > pow2((3 + b) as nat),
        heap::can_deallocate(h, pmm.hhdm(), ptr, layout),
        heap::deallocate_outcome(h, pmm, mem, ptr, layout, h2, pmm2, mem2),
    ensures
        ({
            let f = (ptr - pmm.hhdm()) / 4096;
            let i = (ptr - pmm.hhdm()) % 4096 / (pow2((4 + b) as nat) as int) - 1;
            &&& h.live(f, i)
            &&& !h2.live(f, i)
            &&& forall|g: int, j: int|
                (g != f || j != i) ==> (#[trigger] h2.live(g, j) <==> h.live(g, j))
            &&& h2.large == h.large
            &&& *pmm2 == *pmm
        }),
{
    law_buckets(layout.need(), b);
    law_freed_object_is_gone(
        h,
        heap::ptr_frame(pmm.hhdm(), ptr),
        heap::ptr_index(pmm.hhdm(), b, ptr),
    );
}

/// Freeing a large allocation makes its frames free: those from its address on,
/// as many as the least block that is large enough has.
pub proof fn law_large_memory_is_freed(
    h: HeapView,
    pmm: &pmm::Pmm,
    mem: Seq<u64>,
    ptr: u64,
    layout: Layout,
    o: int,
    h2: HeapView,
    pmm2: &pmm::Pmm,
    mem2: Seq<u64>,
)
    requires
        ptr != 0,
        0 <= o <= 11,
        layout.size > 1024 || layout.align > 1024,
        layout.size <= pow2(o as nat) * 4096,
        layout.align <= pow2(o as nat) * 4096,
        o == 0 || layout.size > pow2((o - 1) as nat) * 4096 || layout.align > pow2((o - 1) as nat)
            * 4096,
        pmm.wf(mem),
        heap::frames_apart(h, pmm),
        heap::can_deallocate(h, pmm.hhdm(), ptr, layout),
        heap::deallocate_outcome(h, pmm, mem, ptr, layout, h2, pmm2, mem2),
    ensures
        ({
            let first = (ptr - pmm.hhdm()) / 4096;
            &&& h.large.contains_key(first)
            &&& h2.large == h.large.remove(first)
            &&& h2.slabs == h.slabs
            &&& pmm2.free_count() == pmm.free_count() + pow2(o as nat)
            &&& forall|g: int| #[trigger]
                pmm2.is_free(g) <==> pmm.is_free(g) || first <= g < first + pow2(o as nat)
        }),
{
    law_buckets(layout.need(), 0);
    lemma_order_unique(layout.need(), o);
    let addr = PAddr((ptr - pmm.hhdm()) as u64);
    pmm.lemma_wf(mem);
    assert(addr.0 == ptr - pmm.hhdm());
    frame_laws::law_freeing_frees_the_block(pmm, mem, addr, o as nat, pmm2, mem2);
}

/// Objects of bucket `b` have 2^(1 + b) words.
proof fn lemma_object_words(b: int)
    requires
        0 <= b < 7,
    ensures
        heap::obj_words(b) == pow2((1 + b) as nat),
{
    lemma2_to64();
    assert(b == 0 || b == 1 || b == 2 || b == 3 || b == 4 || b == 5 || b == 6);
}

/// Where only the heap's words and those of free frames change, the words of an
/// object that stays in use do not.
proof fn lemma_object_stays(
    h: HeapView,
    pmm: &pmm::Pmm,
    mem: Seq<u64>,
    h2: HeapView,
    pmm2: &pmm::Pmm,
    mem2: Seq<u64>,
    f: int,
    i: int,
    k: int,
)
    requires
        h.wf(),
        h2.wf(),
        pmm.wf(mem),
        heap::frames_apart(h, pmm),
        heap::frames_apart(h2, pmm2),
        h.live(f, i),
        h2.live(f, i),
        h2.slabs[f].bucket == h.slabs[f].bucket,
        0 <= k < heap::obj_words(h.slabs[f].bucket),
        heap::only_heap_changed(h, pmm.lists(), mem, h2, pmm2.lists(), mem2),
    ensures
        ({
            let w = f * 512 + heap::obj_words(h.slabs[f].bucket) * (i + 1) + k;
            mem2[w] == mem[w]
        }),
{
    let w = f * 512 + heap::obj_words(h.slabs[f].bucket) * (i + 1) + k;
    pmm.lemma_wf(mem);
    law_objects_hold_no_heap_words(h, f, i, k);
    law_objects_hold_no_heap_words(h2, f, i, k);
    assert(h2.slabs.contains_key(f));
    assert(!pmm.is_free(w / 512) && !pmm2.is_free(w / 512));
}

/// An allocation leaves every object that is in use in use, and its words as
/// they are.
pub proof fn law_allocating_keeps_objects(
    h: HeapView,
    pmm: &pmm::Pmm,
    mem: Seq<u64>,
    layout: Layout,
    r: Option<u64>,
    h2: HeapView,
    pmm2: &pmm::Pmm,
    mem2: Seq<u64>,
    f: int,
    i: int,
    k: int,
)
    requires
        h.wf(),
        h2.wf(),
        pmm.wf(mem),
        heap::frames_apart(h, pmm),
        heap::frames_apart(h2, pmm2),
        h.live(f, i),
        0 <= k < pow2((1 + h.slabs[f].bucket) as nat),
        heap::allocate_outcome(h, pmm, mem, layout, r, h2, pmm2, mem2),
    ensures
        ({
            let w = f * 512 + pow2((1 + h.slabs[f].bucket) as nat) * (i + 1) + k;
            &&& h2.live(f, i)
            &&& mem2[w] == mem[w]
        }),
{
    assert(h.slab_wf(f));
    lemma_object_words(h.slabs[f].bucket);
    pmm.lemma_wf(mem);
    law_buckets(layout.need(), 0);
    if layout.need() <= 1024 {
        let b = heap::bucket_of(layout.need()).unwrap();
        let fresh = heap::fresh_frame(pmm);
        law_buckets(layout.need(), b);
        if h.source(b, fresh) is Some {
            if h.needs_slab(b) {
                lemma_next_frame_is_free(pmm, mem);
                assert(pmm.is_free(fresh.unwrap()));
            }
            law_allocated_object_is_new(h, b, fresh);
        }
        assert(h2.live(f, i));
        lemma_object_stays(h, pmm, mem, h2, pmm2, mem2, f, i, k);
    } else {
        law_objects_hold_no_heap_words(h, f, i, k);
        assert(h2.slabs.contains_key(f));
        assert(!pmm.is_free(f) && !pmm2.is_free(f));
    }
}

/// Freeing leaves the words of every object that stays in use as they are.
pub proof fn law_freeing_keeps_objects(
    h: HeapView,
    pmm: &pmm::Pmm,
    mem: Seq<u64>,
    ptr: u64,
    layout: Layout,
    h2: HeapView,
    pmm2: &pmm::Pmm,
    mem2: Seq<u64>,
    f: int,
    i: int,
    k: int,
)
    requires
        h.wf(),
        h2.wf(),
        pmm.wf(mem),
        heap::frames_apart(h, pmm),
        heap::frames_apart(h2, pmm2),
        h.live(f, i),
        h2.live(f, i),
        0 <= k < pow2((1 + h.slabs[f].bucket) as nat),
        heap::can_deallocate(h, pmm.hhdm(), ptr, layout),
        heap::deallocate_outcome(h, pmm, mem, ptr, layout, h2, pmm2, mem2),
    ensures
        ({
            let w = f * 512 + pow2((1 + h.slabs[f].bucket) as nat) * (i + 1) + k;
            mem2[w] == mem[w]
        }),
{
    assert(h.slab_wf(f));
    lemma_object_words(h.slabs[f].bucket);
    pmm.lemma_wf(mem);
    law_buckets(layout.need(), 0);
    if ptr != 0 {
        if layout.need() <= 1024 {
            lemma_object_stays(h, pmm, mem, h2, pmm2, mem2, f, i, k);
        } else {
            law_objects_hold_no_heap_words(h, f, i, k);
            assert(h2.slabs.contains_key(f));
            assert(!pmm.is_free(f) && !pmm2.is_free(f));
        }
    }
}

/// An allocation, and freeing something else, leave the words of a large
/// allocation as they are.
pub proof fn law_large_memory_keeps_its_words(
    h: HeapView,
    pmm: &pmm::Pmm,
    mem: Seq<u64>,
    ptr: u64,
    layout: Layout,
    r: Option<u64>,
    h2: HeapView,
    pmm2: &pmm::Pmm,
    mem2: Seq<u64>,
    f: int,
    w: int,
)
    requires
        pmm.wf(mem),
        heap::frames_apart(h, pmm),
        heap::frames_apart(h2, pmm2),
        h.large.contains_key(f),
        h2.large.contains_key(f),
        h2.large[f] == h.large[f],
        f * 512 <= w < (f + pow2(h.large[f] as nat)) * 512,
        heap::allocate_outcome(h, pmm, mem, layout, r, h2, pmm2, mem2)
            || heap::deallocate_outcome(h, pmm, mem, ptr, layout, h2, pmm2, mem2),
    ensures
        mem2[w] == mem[w],
{
    let g = w / 512;
    pmm.lemma_wf(mem);
    assert(f <= g < f + blocks::pages(h.large[f]));
    assert(heap::large_holds(h, f, g));
    assert(heap::large_holds(h2, f, g));
    assert(!pmm.is_free(g) && !pmm2.is_free(g));
    assert(!heap::heap_word(h, w) && !heap::heap_word(h2, w));
}

/// Freeing the null address does nothing.
pub proof fn law_null_is_not_freed(
    h: HeapView,
    pmm: &pmm::Pmm,
    mem: Seq<u64>,
    layout: Layout,
    h2: HeapView,
    pmm2: &pmm::Pmm,
    mem2: Seq<u64>,
)
    requires
        heap::deallocate_outcome(h, pmm, mem, 0, layout, h2, pmm2, mem2),
    ensures
        h2 == h,
        mem2 == mem,
        *pmm2 == *pmm,
{
}

} // verus!
