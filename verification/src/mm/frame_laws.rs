//! What the frame allocator does, in terms of the frames that are free.
use vstd::arithmetic::power2::*;
use vstd::prelude::*;

use crate::mm::addr::PAddr;
use crate::mm::free_lists;
use crate::mm::memmap::MemmapEntry;
use crate::mm::pmm;
use crate::mm::pmm::Pmm;

verus! {

/// The `2^order` frames from `s` on are free, and `s` is a multiple of as many.
pub open spec fn open_run(pmm: &Pmm, s: int, order: nat) -> bool {
    &&& 0 <= s
    &&& s % (pow2(order) as int) == 0
    &&& forall|g: int| s <= g < s + pow2(order) ==> #[trigger] pmm.is_free(g)
}

/// An allocation succeeds exactly when an aligned run of its size is free. It
/// returns the address of such a run, takes just that run away, and leaves every
/// other frame as it is.
pub proof fn law_allocation_takes_a_free_run(
    pmm: &Pmm,
    mem: Seq<u64>,
    order: nat,
    r: Option<PAddr>,
    pmm2: &Pmm,
    mem2: Seq<u64>,
)
    requires
        pmm.wf(mem),
        order <= 11,
        pmm::alloc_outcome(pmm, mem, order as int, r, pmm2, mem2),
    ensures
        r is None <==> !exists|s: int| #[trigger] open_run(pmm, s, order),
        r is None ==> pmm2.free_count() == pmm.free_count(),
        r is None ==> forall|g: int| #[trigger] pmm2.is_free(g) == pmm.is_free(g),
        r matches Some(a) ==> {
            let first = a.0 as int / 4096;
            &&& a.0 % 4096 == 0
            &&& open_run(pmm, first, order)
            &&& first + pow2(order) <= pmm.total()
            &&& pmm2.free_count() == pmm.free_count() - pow2(order)
            &&& forall|g: int| #[trigger]
                pmm2.is_free(g) <==> pmm.is_free(g) && !(first <= g < first + pow2(order))
        },
{
    pmm.lemma_wf(mem);
    let lists = pmm.lists();
    free_lists::law_alloc_fails_iff_no_run(lists, order as int);
    free_lists::lemma_first_order(lists, order as int);
    assert forall|s: int| #[trigger] open_run(pmm, s, order) == free_lists::free_run(
        lists,
        s,
        order as int,
    ) by {
        if open_run(pmm, s, order) {
            assert forall|g: int| s <= g < s + pow2(order) implies #[trigger] free_lists::covers(
                lists,
                g,
            ) by {
                assert(pmm.is_free(g));
            }
        }
        if free_lists::free_run(lists, s, order as int) {
            assert forall|g: int| s <= g < s + pow2(order) implies #[trigger] pmm.is_free(g) by {
                assert(free_lists::covers(lists, g));
            }
        }
    }
    if exists|s: int| #[trigger] free_lists::free_run(lists, s, order as int) {
        let s = choose|s: int| #[trigger] free_lists::free_run(lists, s, order as int);
        assert(open_run(pmm, s, order));
    }
    if r is None {
        assert forall|g: int| #[trigger] pmm2.is_free(g) == pmm.is_free(g) by {}
    } else {
        let first = r.unwrap().0 as int / 4096;
        assert(first == free_lists::alloc_frame_of(lists, order as int));
    }
}

/// The block that an allocation gives starts the list of the smallest order that
/// has a block, and is large enough.
pub proof fn law_smallest_block_is_taken(
    pmm: &Pmm,
    mem: Seq<u64>,
    order: nat,
    a: PAddr,
    pmm2: &Pmm,
    mem2: Seq<u64>,
) -> (c: int)
    requires
        order <= 11,
        pmm::alloc_outcome(pmm, mem, order as int, Some(a), pmm2, mem2),
    ensures
        order <= c <= 11,
        pmm.lists()[c].len() > 0,
        a.0 == pmm.lists()[c][0] * 4096,
        forall|k: int| order <= k < c ==> #[trigger] pmm.lists()[k].len() == 0,
{
    free_lists::lemma_first_order(pmm.lists(), order as int);
    free_lists::first_order(pmm.lists(), order as int)
}

/// Freeing makes just the frames of the block free.
pub proof fn law_freeing_frees_the_block(
    pmm: &Pmm,
    mem: Seq<u64>,
    addr: PAddr,
    order: nat,
    pmm2: &Pmm,
    mem2: Seq<u64>,
)
    requires
        pmm::free_outcome(pmm, mem, addr, order as int, pmm2, mem2),
    ensures
        pmm2.free_count() == pmm.free_count() + pow2(order),
        forall|g: int| #[trigger]
            pmm2.is_free(g) <==> pmm.is_free(g) || addr.0 as int / 4096 <= g < addr.0 as int / 4096
                + pow2(order),
{
}

/// A block that was allocated and freed again can be allocated once more, and
/// every frame is free just as it was.
pub proof fn law_freed_block_can_be_allocated(
    pmm: &Pmm,
    mem: Seq<u64>,
    order: nat,
    a: PAddr,
    pmm1: &Pmm,
    mem1: Seq<u64>,
    pmm2: &Pmm,
    mem2: Seq<u64>,
)
    requires
        pmm.wf(mem),
        order <= 11,
        pmm::alloc_outcome(pmm, mem, order as int, Some(a), pmm1, mem1),
        pmm::free_outcome(pmm1, mem1, a, order as int, pmm2, mem2),
    ensures
        pmm2.lists() == pmm.lists(),
        pmm2.free_count() == pmm.free_count(),
        forall|g: int| #[trigger] pmm2.is_free(g) == pmm.is_free(g),
        open_run(pmm2, a.0 as int / 4096, order),
{
    pmm.lemma_wf(mem);
    free_lists::law_free_undoes_alloc(pmm.lists(), order as int);
    law_allocation_takes_a_free_run(pmm, mem, order, Some(a), pmm1, mem1);
    let first = a.0 as int / 4096;
    assert forall|g: int| first <= g < first + pow2(order) implies #[trigger] pmm2.is_free(g) by {
        assert(pmm.is_free(g));
    }
}

/// Free blocks are as large as they can be: where all frames of an aligned run
/// are free, they belong to one block of at least that size.
pub proof fn law_free_runs_are_joined(pmm: &Pmm, mem: Seq<u64>, s: int, order: nat) -> (found: (
    int,
    int,
))
    requires
        pmm.wf(mem),
        order <= 11,
        open_run(pmm, s, order),
    ensures
        order <= found.0 <= 11,
        0 <= found.1 < pmm.lists()[found.0].len(),
        pmm.lists()[found.0][found.1] <= s,
        s + pow2(order) <= pmm.lists()[found.0][found.1] + pow2(found.0 as nat),
{
    pmm.lemma_wf(mem);
    let lists = pmm.lists();
    assert forall|g: int| s <= g < s + pow2(order) implies #[trigger] free_lists::covers(
        lists,
        g,
    ) by {
        assert(pmm.is_free(g));
    }
    assert(free_lists::free_run(lists, s, order as int));
    free_lists::lemma_run_in_block(lists, s, order as int)
}

/// Reclaiming frees the frames of the regions of kind 5, which are those that
/// the bootloader used, and no others.
pub proof fn law_reclaiming_frees_bootloader_memory(
    pmm: &Pmm,
    mem: Seq<u64>,
    memmap: Seq<MemmapEntry>,
    pmm2: &Pmm,
    mem2: Seq<u64>,
)
    requires
        pmm::reclaim_outcome(pmm, mem, memmap, memmap.len() as int, pmm2, mem2),
    ensures
        forall|g: int| #[trigger]
            pmm2.is_free(g) <==> pmm.is_free(g) || exists|i: int|
                0 <= i < memmap.len() && (#[trigger] memmap[i]).kind == 5 && memmap[i].base as int
                    / 4096 <= g < memmap[i].base as int / 4096 + memmap[i].length as int / 4096,
{
    assert forall|g: int| #[trigger]
        pmm2.is_free(g) <==> pmm.is_free(g) || exists|i: int|
            0 <= i < memmap.len() && (#[trigger] memmap[i]).kind == 5 && memmap[i].base as int
                / 4096 <= g < memmap[i].base as int / 4096 + memmap[i].length as int / 4096 by {
        if pmm::reclaims(memmap, memmap.len() as int, g) {
            let i = choose|i: int|
                0 <= i < memmap.len() && pmm::reclaimable(memmap[i]) && #[trigger] pmm::region_holds(
                    memmap[i],
                    g,
                );
            assert(memmap[i].kind == 5);
        }
        if exists|i: int|
            0 <= i < memmap.len() && (#[trigger] memmap[i]).kind == 5 && memmap[i].base as int / 4096
                <= g < memmap[i].base as int / 4096 + memmap[i].length as int / 4096 {
            let i = choose|i: int|
                0 <= i < memmap.len() && (#[trigger] memmap[i]).kind == 5 && memmap[i].base as int
                    / 4096 <= g < memmap[i].base as int / 4096 + memmap[i].length as int / 4096;
            assert(pmm::region_holds(memmap[i], g));
        }
    }
}

/// Each region of kind 5 counts with its whole frames, and no other counts.
pub proof fn law_reclaimed_frames_are_counted(memmap: Seq<MemmapEntry>, n: int)
    ensures
        n <= 0 ==> pmm::reclaimed_frames(memmap, n) == 0,
        n > 0 && memmap[n - 1].kind == 5 ==> pmm::reclaimed_frames(memmap, n)
            == pmm::reclaimed_frames(memmap, n - 1) + memmap[n - 1].length as int / 4096,
        n > 0 && memmap[n - 1].kind != 5 ==> pmm::reclaimed_frames(memmap, n)
            == pmm::reclaimed_frames(memmap, n - 1),
{
}

} // verus!
