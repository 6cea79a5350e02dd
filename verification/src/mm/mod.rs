//! Memory management.
use vstd::arithmetic::div_mod::*;
use vstd::arithmetic::mul::*;
use vstd::arithmetic::power2::*;
use vstd::bits::*;
use vstd::prelude::*;

pub mod addr;
pub mod blocks;
pub mod clone;
pub mod entry;
pub mod frame_laws;
pub mod free_lists;
pub mod heap;
pub mod heap_laws;
pub mod memmap;
pub mod memory_laws;
pub mod page_laws;
pub mod pmm;
pub mod space;
pub mod space_laws;
pub mod tables;
pub mod tree;
pub mod vmm;

use crate::mm::addr::PAddr;
use crate::mm::memmap::{MemmapEntry, MEMMAP_USABLE};
use crate::mm::pmm::{Pmm, FRAME_SIZE};
use crate::mm::vmm::Vmm;

verus! {

/// Why memory management could not be set up.
#[derive(Debug)]
pub enum MmError {
    /// The page tables could not be taken over.
    VmmError(vmm::VmmError),
    /// The heap could not be set up.
    HeapError(heap::HeapError),
}

/// A power of two.
pub open spec fn power_of_two(n: u64) -> bool {
    exists|k: nat| k < 64 && #[trigger] pow2(k) == n
}

/// Clearing the low bits of a number rounds it down.
proof fn lemma_clear_low_bits(x: u64, align: u64)
    requires
        power_of_two(align),
    ensures
        align > 0,
        x & !((align - 1) as u64) == x - x % align,
{
    let k = choose|k: nat| k < 64 && #[trigger] pow2(k) == align;
    let s = k as u64;
    lemma_pow2_pos(k);
    blocks::lemma_shift(s);
    let mask = (align - 1) as u64;
    assert(x & !mask == (x >> s) << s) by (bit_vector)
        requires
            s < 64,
            align == 1u64 << s,
            mask == align - 1,
    ;
    lemma_u64_shr_is_div(x, s);
    let q = x >> s;
    lemma_fundamental_div_mod(x as int, align as int);
    lemma_mul_is_commutative(q as int, align as int);
    lemma_mod_bound(x as int, align as int);
    lemma_u64_shl_is_mul(q, s);
}

/// Rounds an address up to a multiple of a power of two.
pub fn align_up(addr: u64, align: u64) -> (r: u64)
    requires
        power_of_two(align),
        addr + align <= u64::MAX,
    ensures
        r as int % align as int == 0,
        addr <= r < addr + align,
{
    proof {
        lemma_clear_low_bits((addr + align - 1) as u64, align);
        lemma_mod_bound(addr + align - 1, align as int);
        lemma_fundamental_div_mod(addr + align - 1, align as int);
        lemma_mod_multiples_basic((addr + align - 1) / align as int, align as int);
        lemma_mul_is_commutative((addr + align - 1) / align as int, align as int);
    }
    (addr + align - 1) & !(align - 1)
}

/// Rounds an address down to a multiple of a power of two.
pub fn align_down(addr: u64, align: u64) -> (r: u64)
    requires
        power_of_two(align),
    ensures
        r as int % align as int == 0,
        r <= addr < r + align,
{
    proof {
        lemma_clear_low_bits(addr, align);
        lemma_mod_bound(addr as int, align as int);
        lemma_fundamental_div_mod(addr as int, align as int);
        lemma_mod_multiples_basic(addr as int / align as int, align as int);
        lemma_mul_is_commutative(addr as int / align as int, align as int);
    }
    addr & !(align - 1)
}

/// The region is free to use.
pub open spec fn usable(e: MemmapEntry) -> bool {
    e.kind == MEMMAP_USABLE
}

/// End of the highest of the first `n` regions.
pub open spec fn highest_end(memmap: Seq<MemmapEntry>, n: int) -> int
    decreases n,
{
    if n <= 0 {
        0
    } else {
        let before = highest_end(memmap, n - 1);
        let end = memmap[n - 1].base + memmap[n - 1].length;
        if end > before {
            end
        } else {
            before
        }
    }
}

/// Number of frames up to the end of the highest region.
pub open spec fn frames_of(memmap: Seq<MemmapEntry>) -> int {
    (highest_end(memmap, memmap.len() as int) + 4095) / 4096
}

/// Bytes that hold one byte per frame, in whole frames.
pub open spec fn map_bytes_of(memmap: Seq<MemmapEntry>) -> int {
    (frames_of(memmap) + 4095) / 4096 * 4096
}

/// The first usable region from region `i` on that has room for `bytes`.
pub open spec fn first_fit(memmap: Seq<MemmapEntry>, bytes: int, i: int) -> Option<int>
    decreases memmap.len() - i,
{
    if i < 0 || i >= memmap.len() {
        None
    } else if usable(memmap[i]) && memmap[i].length >= bytes {
        Some(i)
    } else {
        first_fit(memmap, bytes, i + 1)
    }
}

/// The frame lies in the usable region.
pub open spec fn usable_holds(e: MemmapEntry, frame: int) -> bool {
    usable(e) && e.base as int / 4096 <= frame < (e.base + e.length) / 4096
}

/// The frame lies in one of the first `n` usable regions, is not frame 0, and
/// does not belong to the frames from `first` to `last`.
pub open spec fn populates(
    memmap: Seq<MemmapEntry>,
    n: int,
    first: int,
    last: int,
    frame: int,
) -> bool {
    &&& frame != 0
    &&& !(first <= frame < last)
    &&& exists|i: int| 0 <= i < n && #[trigger] usable_holds(memmap[i], frame)
}

/// No region wraps around, and no two usable regions overlap.
pub open spec fn memmap_ok(memmap: Seq<MemmapEntry>) -> bool {
    &&& forall|i: int|
        #![trigger memmap[i]]
        0 <= i < memmap.len() ==> memmap[i].base + memmap[i].length <= u64::MAX
    &&& forall|i: int, j: int, g: int|
        #![trigger usable_holds(memmap[i], g), usable_holds(memmap[j], g)]
        0 <= i < j < memmap.len() ==> !(usable_holds(memmap[i], g) && usable_holds(memmap[j], g))
}

/// The free blocks after the frames from `start` to `end`, without frame 0,
/// were freed.
pub open spec fn piece_lists(lists: Seq<Seq<int>>, start: int, end: int) -> Seq<Seq<int>> {
    let s = if start == 0 {
        1
    } else {
        start
    };
    if end <= s {
        lists
    } else {
        free_lists::add_range_lists(lists, s, end - s)
    }
}

/// The free blocks after the first `n` regions were gone through.
pub open spec fn populate_lists(
    lists: Seq<Seq<int>>,
    memmap: Seq<MemmapEntry>,
    first: int,
    last: int,
    n: int,
) -> Seq<Seq<int>>
    decreases n,
{
    if n <= 0 {
        lists
    } else {
        let before = populate_lists(lists, memmap, first, last, n - 1);
        let e = memmap[n - 1];
        if usable(e) {
            let start = e.base as int / 4096;
            let end = (e.base + e.length) / 4096;
            let lower = piece_lists(
                before,
                start,
                if end < first {
                    end
                } else {
                    first
                },
            );
            piece_lists(
                lower,
                if start > last {
                    start
                } else {
                    last
                },
                end,
            )
        } else {
            before
        }
    }
}

/// End of the highest region.
pub fn highest_address(memmap: &[MemmapEntry]) -> (highest: u64)
    requires
        memmap_ok(memmap@),
    ensures
        highest == highest_end(memmap@, memmap@.len() as int),
        forall|i: int|
            0 <= i < memmap@.len() ==> (#[trigger] memmap@[i]).base + memmap@[i].length <= highest,
        highest == 0 || exists|i: int|
            0 <= i < memmap@.len() && (#[trigger] memmap@[i]).base + memmap@[i].length == highest,
{
    proof {
        law_highest_end(memmap@);
    }
    let mut highest: u64 = 0;
    let mut i: usize = 0;
    while i < memmap.len()
        invariant
            i <= memmap@.len(),
            memmap_ok(memmap@),
            highest == highest_end(memmap@, i as int),
        decreases memmap@.len() - i,
    {
        let end: u64 = memmap[i].base + memmap[i].length;
        if end > highest {
            highest = end;
        }
        i = i + 1;
    }
    highest
}

/// Base of the first usable region that has room for a number of bytes.
pub fn find_region(memmap: &[MemmapEntry], bytes: u64) -> (r: Option<u64>)
    ensures
        match first_fit(memmap@, bytes as int, 0) {
            Some(i) => r == Some(memmap@[i].base),
            None => r is None,
        },
        r is None <==> forall|i: int|
            0 <= i < memmap@.len() ==> !((#[trigger] memmap@[i]).kind == 0 && memmap@[i].length
                >= bytes),
        r matches Some(base) ==> exists|i: int|
            0 <= i < memmap@.len() && (#[trigger] memmap@[i]).kind == 0 && memmap@[i].length
                >= bytes && memmap@[i].base == base && forall|j: int|
                0 <= j < i ==> !((#[trigger] memmap@[j]).kind == 0 && memmap@[j].length >= bytes),
{
    proof {
        law_first_fit(memmap@, bytes as int);
    }
    let mut i: usize = 0;
    while i < memmap.len()
        invariant
            i <= memmap@.len(),
            first_fit(memmap@, bytes as int, 0) == first_fit(memmap@, bytes as int, i as int),
        decreases memmap@.len() - i,
    {
        if memmap[i].kind == MEMMAP_USABLE && memmap[i].length >= bytes {
            proof {
                law_first_fit(memmap@, bytes as int);
                assert(first_fit(memmap@, bytes as int, 0) == Some(i as int));
            }
            return Some(memmap[i].base);
        }
        i = i + 1;
    }
    None
}

/// Where the map with one byte per frame goes.
#[derive(Debug, Clone, Copy, PartialEq, Eq, Structural)]
pub struct FrameMap {
    /// Number of frames.
    pub total_frames: u64,
    /// Bytes that the map takes, in whole frames.
    pub order_bytes: u64,
    /// Physical address of the map.
    pub order_phys: u64,
}

/// Finds a place for the map with one byte per frame.
pub fn plan_frame_map(memmap: &[MemmapEntry]) -> (r: Option<FrameMap>)
    requires
        memmap_ok(memmap@),
        highest_end(memmap@, memmap@.len() as int) + 4096 <= u64::MAX,
    ensures
        match first_fit(memmap@, map_bytes_of(memmap@), 0) {
            Some(i) => r == Some(
                FrameMap {
                    total_frames: frames_of(memmap@) as u64,
                    order_bytes: map_bytes_of(memmap@) as u64,
                    order_phys: memmap@[i].base,
                },
            ),
            None => r is None,
        },
        0 <= frames_of(memmap@) <= map_bytes_of(memmap@) <= u64::MAX / 4096 + 4096,
        r matches Some(plan) ==> {
            &&& forall|i: int|
                0 <= i < memmap@.len() ==> (#[trigger] memmap@[i]).base + memmap@[i].length
                    <= plan.total_frames * 4096
            &&& plan.total_frames == 0 || exists|i: int|
                0 <= i < memmap@.len() && (#[trigger] memmap@[i]).base + memmap@[i].length > (
                plan.total_frames - 1) * 4096
            &&& plan.order_bytes % 4096 == 0
            &&& plan.total_frames <= plan.order_bytes < plan.total_frames + 4096
        },
{
    proof {
        lemma2_to64();
        assert(pow2(12) == FRAME_SIZE);
    }
    proof {
        law_frames_span_the_memory(memmap@);
    }
    let highest: u64 = highest_address(memmap);
    let total_frames: u64 = align_up(highest, FRAME_SIZE) / 4096;
    proof {
        lemma_highest_positive(memmap@, memmap@.len() as int);
        assert(total_frames == frames_of(memmap@));
    }
    let order_bytes: u64 = align_up(total_frames, FRAME_SIZE);
    assert(order_bytes == map_bytes_of(memmap@));
    match find_region(memmap, order_bytes) {
        Some(order_phys) => Some(FrameMap { total_frames, order_bytes, order_phys }),
        None => None,
    }
}

/// The highest end is the end of a region, and no region ends above it.
pub proof fn law_highest_end(memmap: Seq<MemmapEntry>)
    ensures
        forall|i: int|
            0 <= i < memmap.len() ==> (#[trigger] memmap[i]).base + memmap[i].length
                <= highest_end(memmap, memmap.len() as int),
        highest_end(memmap, memmap.len() as int) == 0 || exists|i: int|
            0 <= i < memmap.len() && (#[trigger] memmap[i]).base + memmap[i].length == highest_end(
                memmap,
                memmap.len() as int,
            ),
{
    lemma_highest_positive(memmap, memmap.len() as int);
    lemma_highest_is_an_end(memmap, memmap.len() as int);
}

proof fn lemma_highest_is_an_end(memmap: Seq<MemmapEntry>, n: int)
    ensures
        highest_end(memmap, n) == 0 || exists|i: int|
            0 <= i < n && (#[trigger] memmap[i]).base + memmap[i].length == highest_end(memmap, n),
    decreases n,
{
    if n > 0 {
        lemma_highest_is_an_end(memmap, n - 1);
        let end = memmap[n - 1].base + memmap[n - 1].length;
        if end <= highest_end(memmap, n - 1) && highest_end(memmap, n - 1) != 0 {
            let i = choose|i: int|
                0 <= i < n - 1 && (#[trigger] memmap[i]).base + memmap[i].length == highest_end(
                    memmap,
                    n - 1,
                );
            assert(0 <= i < n);
        }
    }
}

/// The frames span the memory up to the end of the highest region, and the last
/// of them is needed for that; their map takes a byte for each, in whole frames.
pub proof fn law_frames_span_the_memory(memmap: Seq<MemmapEntry>)
    ensures
        forall|i: int|
            0 <= i < memmap.len() ==> (#[trigger] memmap[i]).base + memmap[i].length <= frames_of(
                memmap,
            ) * 4096,
        frames_of(memmap) == 0 || exists|i: int|
            0 <= i < memmap.len() && (#[trigger] memmap[i]).base + memmap[i].length > (frames_of(
                memmap,
            ) - 1) * 4096,
        map_bytes_of(memmap) % 4096 == 0,
        frames_of(memmap) <= map_bytes_of(memmap) < frames_of(memmap) + 4096,
{
    law_highest_end(memmap);
    let highest = highest_end(memmap, memmap.len() as int);
    assert(highest >= 0) by {
        lemma_highest_positive(memmap, memmap.len() as int);
    }
    assert(highest <= frames_of(memmap) * 4096);
    assert(frames_of(memmap) > 0 ==> highest > (frames_of(memmap) - 1) * 4096);
}

/// The first usable region that is large enough is found: one of kind 0 and of
/// enough bytes, such that no region before it is both.
pub proof fn law_first_fit(memmap: Seq<MemmapEntry>, bytes: int)
    ensures
        first_fit(memmap, bytes, 0) is None <==> forall|i: int|
            0 <= i < memmap.len() ==> !((#[trigger] memmap[i]).kind == 0 && memmap[i].length
                >= bytes),
        first_fit(memmap, bytes, 0) matches Some(i) ==> {
            &&& 0 <= i < memmap.len()
            &&& memmap[i].kind == 0
            &&& memmap[i].length >= bytes
            &&& forall|j: int|
                0 <= j < i ==> !((#[trigger] memmap[j]).kind == 0 && memmap[j].length >= bytes)
        },
{
    lemma_first_fit(memmap, bytes, 0);
}

proof fn lemma_first_fit(memmap: Seq<MemmapEntry>, bytes: int, k: int)
    requires
        0 <= k,
    ensures
        first_fit(memmap, bytes, k) is None <==> forall|i: int|
            k <= i < memmap.len() ==> !((#[trigger] memmap[i]).kind == 0 && memmap[i].length
                >= bytes),
        first_fit(memmap, bytes, k) matches Some(i) ==> {
            &&& k <= i < memmap.len()
            &&& memmap[i].kind == 0
            &&& memmap[i].length >= bytes
            &&& forall|j: int|
                k <= j < i ==> !((#[trigger] memmap[j]).kind == 0 && memmap[j].length >= bytes)
        },
    decreases memmap.len() - k,
{
    if k < memmap.len() {
        lemma_first_fit(memmap, bytes, k + 1);
    }
}

/// The frames that are freed at boot: the whole frames of the regions of kind 0,
/// but for frame 0 and for those that the map of the frames takes.
pub proof fn law_usable_frames(
    memmap: Seq<MemmapEntry>,
    first: int,
    last: int,
    frame: int,
)
    ensures
        populates(memmap, memmap.len() as int, first, last, frame) <==> frame != 0 && !(first
            <= frame < last) && exists|i: int|
            0 <= i < memmap.len() && (#[trigger] memmap[i]).kind == 0 && memmap[i].base as int
                / 4096 <= frame < (memmap[i].base + memmap[i].length) / 4096,
{
    if populates(memmap, memmap.len() as int, first, last, frame) {
        let i = choose|i: int|
            0 <= i < memmap.len() && #[trigger] usable_holds(memmap[i], frame);
        assert(memmap[i].kind == 0);
    }
    if exists|i: int|
        0 <= i < memmap.len() && (#[trigger] memmap[i]).kind == 0 && memmap[i].base as int / 4096
            <= frame < (memmap[i].base + memmap[i].length) / 4096 {
        let i = choose|i: int|
            0 <= i < memmap.len() && (#[trigger] memmap[i]).kind == 0 && memmap[i].base as int
                / 4096 <= frame < (memmap[i].base + memmap[i].length) / 4096;
        assert(usable_holds(memmap[i], frame));
    }
}

/// Where the map of the frames goes: to the start of the first usable region
/// that has room for it.
pub proof fn law_map_is_in_a_usable_region(memmap: Seq<MemmapEntry>) -> (i: int)
    requires
        first_fit(memmap, map_bytes_of(memmap), 0) is Some,
    ensures
        0 <= i < memmap.len(),
        memmap[i].kind == 0,
        memmap[i].length >= map_bytes_of(memmap),
        map_first(memmap) == memmap[i].base as int / 4096,
        map_last(memmap) == map_first(memmap) + map_bytes_of(memmap) / 4096,
{
    law_first_fit(memmap, map_bytes_of(memmap));
    first_fit(memmap, map_bytes_of(memmap), 0).unwrap()
}

proof fn lemma_highest_positive(memmap: Seq<MemmapEntry>, n: int)
    ensures
        highest_end(memmap, n) >= 0,
        forall|i: int|
            #![trigger memmap[i]]
            0 <= i < n ==> memmap[i].base + memmap[i].length <= highest_end(memmap, n),
    decreases n,
{
    if n > 0 {
        lemma_highest_positive(memmap, n - 1);
    }
}

/// Frees the frames from `start` to `end`, but never frame 0.
fn add_piece(pmm: &mut Pmm, mem: &mut [u64], start: u64, end: u64)
    requires
        old(pmm).wf(old(mem)@),
        start < end ==> end <= old(pmm).total(),
        forall|g: int| g != 0 && start <= g < end ==> !old(pmm).is_free(g),
    ensures
        final(pmm).wf(final(mem)@),
        final(pmm).total() == old(pmm).total(),
        final(pmm).hhdm() == old(pmm).hhdm(),
        final(pmm).lists() == piece_lists(old(pmm).lists(), start as int, end as int),
        forall|g: int| #[trigger]
            final(pmm).is_free(g) <==> old(pmm).is_free(g) || (g != 0 && start <= g < end),
        pmm::only_links_changed(old(mem)@, final(mem)@, old(pmm).lists(), final(pmm).lists()),
{
    if end <= start {
        return;
    }
    let s: u64 = if start == 0 {
        1
    } else {
        start
    };
    if end > s {
        proof {
            pmm.lemma_wf(mem@);
        }
        pmm.add_range(mem, s, end - s);
    }
}

/// Frees the usable frames that the map with one byte per frame does not take.
pub fn populate(
    pmm: &mut Pmm,
    mem: &mut [u64],
    memmap: &[MemmapEntry],
    order_first: u64,
    order_last: u64,
)
    requires
        old(pmm).wf(old(mem)@),
        memmap_ok(memmap@),
        order_first <= order_last,
        highest_end(memmap@, memmap@.len() as int) <= old(pmm).total() * 4096,
        forall|g: int|
            populates(memmap@, memmap@.len() as int, order_first as int, order_last as int, g)
                ==> !#[trigger] old(pmm).is_free(g),
    ensures
        final(pmm).wf(final(mem)@),
        final(pmm).total() == old(pmm).total(),
        final(pmm).hhdm() == old(pmm).hhdm(),
        final(pmm).lists() == populate_lists(
            old(pmm).lists(),
            memmap@,
            order_first as int,
            order_last as int,
            memmap@.len() as int,
        ),
        forall|g: int| #[trigger]
            final(pmm).is_free(g) <==> old(pmm).is_free(g) || populates(
                memmap@,
                memmap@.len() as int,
                order_first as int,
                order_last as int,
                g,
            ),
        pmm::only_links_changed(old(mem)@, final(mem)@, old(pmm).lists(), final(pmm).lists()),
{
    let ghost n = memmap@.len() as int;
    let ghost first = order_first as int;
    let ghost last = order_last as int;
    let mut i: usize = 0;
    proof {
        lemma_highest_positive(memmap@, n);
    }
    while i < memmap.len()
        invariant
            i <= memmap@.len(),
            n == memmap@.len(),
            first == order_first,
            last == order_last,
            first <= last,
            memmap_ok(memmap@),
            pmm.wf(mem@),
            pmm.total() == old(pmm).total(),
            pmm.hhdm() == old(pmm).hhdm(),
            forall|j: int|
                #![trigger memmap@[j]]
                0 <= j < n ==> memmap@[j].base + memmap@[j].length <= pmm.total() * 4096,
            forall|g: int|
                populates(memmap@, n, first, last, g) ==> !#[trigger] old(pmm).is_free(g),
            pmm.lists() == populate_lists(old(pmm).lists(), memmap@, first, last, i as int),
            forall|g: int| #[trigger]
                pmm.is_free(g) <==> old(pmm).is_free(g) || populates(
                    memmap@,
                    i as int,
                    first,
                    last,
                    g,
                ),
            pmm::only_links_changed(old(mem)@, mem@, old(pmm).lists(), pmm.lists()),
        decreases memmap@.len() - i,
    {
        let entry: MemmapEntry = memmap[i];
        let ghost mem1 = mem@;
        let ghost free1 = |g: int| pmm.is_free(g);
        if entry.kind == MEMMAP_USABLE {
            let entry_first: u64 = entry.base / 4096;
            let entry_last: u64 = (entry.base + entry.length) / 4096;
            let lower_end: u64 = if entry_last < order_first {
                entry_last
            } else {
                order_first
            };
            let upper_start: u64 = if entry_first > order_last {
                entry_first
            } else {
                order_last
            };
            proof {
                assert forall|g: int|
                    g != 0 && entry_first <= g < entry_last && !(first <= g < last) implies !(
                #[trigger] pmm.is_free(g)) by {
                    assert(usable_holds(memmap@[i as int], g));
                    assert(populates(memmap@, n, first, last, g));
                    assert(!old(pmm).is_free(g));
                    if populates(memmap@, i as int, first, last, g) {
                        let j = choose|j: int| 0 <= j < i && #[trigger] usable_holds(
                            memmap@[j],
                            g,
                        );
                        assert(!(usable_holds(memmap@[j], g) && usable_holds(
                            memmap@[i as int],
                            g,
                        )));
                    }
                }
            }
            add_piece(pmm, mem, entry_first, lower_end);
            let ghost mem2 = mem@;
            let ghost free2 = |g: int| pmm.is_free(g);
            proof {
                assert forall|g: int| g != 0 && upper_start <= g < entry_last implies !(
                #[trigger] pmm.is_free(g)) by {
                    assert(!free1(g));
                }
            }
            add_piece(pmm, mem, upper_start, entry_last);
            proof {
                assert forall|g: int| #[trigger]
                    pmm.is_free(g) <==> old(pmm).is_free(g) || populates(
                        memmap@,
                        i + 1,
                        first,
                        last,
                        g,
                    ) by {
                    assert(free2(g) <==> free1(g) || (g != 0 && entry_first <= g < lower_end));
                    lemma_populates_next(memmap@, i as int, first, last, g);
                }
                assert forall|w: int|
                    0 <= w < old(mem)@.len() && !(w % 512 < 2 && (free_lists::covers(
                        old(pmm).lists(),
                        w / 512,
                    ) || free_lists::covers(pmm.lists(), w / 512))) implies #[trigger] mem@[w]
                    == old(mem)@[w] by {
                    if free1(w / 512) {
                        assert(free2(w / 512));
                    }
                    if free2(w / 512) {
                        assert(pmm.is_free(w / 512));
                    }
                    assert(mem1[w] == old(mem)@[w]);
                    assert(mem2[w] == mem1[w]);
                }
            }
        } else {
            proof {
                assert forall|g: int| #[trigger]
                    pmm.is_free(g) <==> old(pmm).is_free(g) || populates(
                        memmap@,
                        i + 1,
                        first,
                        last,
                        g,
                    ) by {
                    lemma_populates_next(memmap@, i as int, first, last, g);
                }
            }
        }
        i = i + 1;
    }
}

proof fn lemma_populates_next(
    memmap: Seq<MemmapEntry>,
    i: int,
    first: int,
    last: int,
    g: int,
)
    requires
        0 <= i < memmap.len(),
    ensures
        populates(memmap, i + 1, first, last, g) <==> populates(memmap, i, first, last, g) || (g
            != 0 && !(first <= g < last) && usable_holds(memmap[i], g)),
{
    if populates(memmap, i + 1, first, last, g) {
        let j = choose|j: int| 0 <= j < i + 1 && #[trigger] usable_holds(memmap[j], g);
        assert(j == i || 0 <= j < i);
    }
    if populates(memmap, i, first, last, g) {
        let j = choose|j: int| 0 <= j < i && #[trigger] usable_holds(memmap[j], g);
        assert(0 <= j < i + 1);
    }
}

/// The page tables below a root lie in the memory, outside the frames that
/// become free.
pub open spec fn tables_outside(
    mem: Seq<u64>,
    root: int,
    memmap: Seq<MemmapEntry>,
    first: int,
    last: int,
) -> bool {
    forall|p: Seq<int>|
        #![trigger tables::node(mem, root, 3, p)]
        tables::node(mem, root, 3, p) matches Some(t) ==> {
            &&& 0 <= t
            &&& t * 512 + 512 <= mem.len()
            &&& !populates(memmap, memmap.len() as int, first, last, t)
        }
}

/// The frames that become free.
pub open spec fn usable_frames(memmap: Seq<MemmapEntry>, first: int, last: int) -> Set<int> {
    Set::new(|g: int| populates(memmap, memmap.len() as int, first, last, g))
}

/// First frame of the map with one byte per frame.
pub open spec fn map_first(memmap: Seq<MemmapEntry>) -> int {
    memmap[first_fit(memmap, map_bytes_of(memmap), 0).unwrap()].base as int / 4096
}

/// Frame after the map with one byte per frame.
pub open spec fn map_last(memmap: Seq<MemmapEntry>) -> int {
    map_first(memmap) + map_bytes_of(memmap) / 4096
}

/// Sets up the frame allocator, the address space and the heap.
///
/// Returns the value of CR3 that makes the new address space the current one.
pub fn init(
    memmap: &[MemmapEntry],
    mem: &mut [u64],
    frame_order: &'static mut [u8],
    hhdm_offset: u64,
    old_cr3: u64,
    pmm_slot: &mut Option<Pmm>,
    vmm_slot: &mut Option<Vmm>,
) -> (r: Result<u64, MmError>)
    requires
        memmap_ok(memmap@),
        highest_end(memmap@, memmap@.len() as int) + 4096 <= u64::MAX,
        first_fit(memmap@, map_bytes_of(memmap@), 0) is Some,
        old(frame_order)@.len() == frames_of(memmap@),
        old(mem)@.len() == frames_of(memmap@) * 512,
        hhdm_offset != 0,
        hhdm_offset + frames_of(memmap@) * 4096 <= u64::MAX,
        frames_of(memmap@) <= 0x100_0000_0000,
        tables_outside(
            old(mem)@,
            entry::entry_frame(old_cr3),
            memmap@,
            map_first(memmap@),
            map_last(memmap@),
        ),
        *old(pmm_slot) is None,
        *old(vmm_slot) is None,
    ensures
        ({
            let first = map_first(memmap@);
            let last = map_last(memmap@);
            let from = entry::entry_frame(old_cr3);
            let free = usable_frames(memmap@, first, last).len();
            let count = 1 + clone::tables_below(old(mem)@, from, 3, 512);
            let lists = populate_lists(
                free_lists::no_blocks(),
                memmap@,
                first,
                last,
                memmap@.len() as int,
            );
            &&& *final(pmm_slot) matches Some(pmm) && {
                &&& pmm.wf(final(mem)@)
                &&& pmm.total() == frames_of(memmap@)
                &&& pmm.hhdm() == hhdm_offset
                &&& r is Ok <==> free >= count
                &&& r is Ok ==> pmm.lists() == vmm::alloc_frames(lists, count)
                    && pmm.free_count() == free - count
                &&& r is Err ==> {
                    &&& pmm.free_count() == free
                    &&& pmm.lists() == clone::free_all(
                        vmm::alloc_frames(lists, free as int),
                        clone::given_back(old(mem)@, from, 3, lists, free as int),
                    )
                    &&& forall|g: int| #[trigger]
                        pmm.is_free(g) == populates(memmap@, memmap@.len() as int, first, last, g)
                }
            }
            &&& r matches Err(e) ==> {
                &&& e matches MmError::VmmError(vmm::VmmError::OutOfFrames)
                &&& *final(vmm_slot) is None
            }
            &&& r matches Ok(cr3) ==> (*final(vmm_slot) matches Some(vmm) && {
                &&& vmm.wf(final(mem)@, &final(pmm_slot).unwrap())
                &&& vmm.root() == free_lists::alloc_frame_of(lists, 0)
                &&& cr3 == ((vmm.root() * 4096) as u64 | (old_cr3 & !entry::ENTRY_ADDR_MASK))
                &&& vmm.space(final(mem)@, 0) == tables::space_of(old(mem)@, from, 0)
                &&& clone::copied(final(mem)@, vmm.root(), old(mem)@, from, 3, lists)
                &&& forall|g: int| #[trigger]
                    final(pmm_slot).unwrap().is_free(g) <==> populates(
                        memmap@,
                        memmap@.len() as int,
                        first,
                        last,
                        g,
                    ) && !tables::is_table(final(mem)@, vmm.root(), g)
            })
            &&& final(mem)@.len() == old(mem)@.len()
            &&& forall|w: int|
                0 <= w < old(mem)@.len() && !populates(
                    memmap@,
                    memmap@.len() as int,
                    first,
                    last,
                    w / 512,
                ) ==> #[trigger] final(mem)@[w] == old(mem)@[w]
        }),
{
    let ghost mem0 = mem@;
    let ghost from = entry::entry_frame(old_cr3);
    let plan: FrameMap = plan_frame_map(memmap).unwrap();
    let mut allocator: Pmm = Pmm::new(frame_order, plan.total_frames, hhdm_offset);
    let order_first: u64 = plan.order_phys / 4096;
    let order_last: u64 = order_first + plan.order_bytes / 4096;
    proof {
        assert(order_first == map_first(memmap@));
        assert(order_last == map_last(memmap@));
        assert forall|g: int| !#[trigger] allocator.is_free(g) by {
            free_lists::lemma_no_blocks(g);
        }
    }
    populate(&mut allocator, mem, memmap, order_first, order_last);
    let ghost mem1 = mem@;
    proof {
        assert forall|g: int| #[trigger]
            free_lists::covers(allocator.lists(), g) == populates(
                memmap@,
                memmap@.len() as int,
                order_first as int,
                order_last as int,
                g,
            ) by {
            assert(allocator.is_free(g) == free_lists::covers(allocator.lists(), g));
        }
        lemma_tables_populated(mem0, mem1, from, &allocator, memmap@);
        allocator.law_free_count(mem1);
        assert(Set::new(|g: int| allocator.is_free(g)) =~= usable_frames(
            memmap@,
            map_first(memmap@),
            map_last(memmap@),
        ));
    }
    let ghost lists = allocator.lists();
    let ghost free = allocator.free_count();
    let taken = vmm::take_ownership(mem, &mut allocator, old_cr3);
    proof {
        if let Ok((top, _)) = taken {
            let root = top.0 as int / 4096;
            clone::lemma_copied_same(mem@, mem@, root, mem1, mem0, from, 3, lists);
        } else {
            clone::lemma_given_back_same(mem1, mem0, from, 3, lists, free);
        }
        assert forall|w: int|
            0 <= w < mem0.len() && !populates(
                memmap@,
                memmap@.len() as int,
                order_first as int,
                order_last as int,
                w / 512,
            ) implies #[trigger] mem@[w] == mem0[w] by {
            assert(!free_lists::covers(lists, w / 512));
            free_lists::lemma_no_blocks(w / 512);
            assert(mem1[w] == mem0[w]);
        }
    }
    pmm::install(pmm_slot, allocator);
    let (top_level, cr3): (PAddr, u64) = match taken {
        Ok(t) => t,
        Err(e) => {
            return Err(MmError::VmmError(e));
        },
    };
    *vmm_slot = Some(Vmm::new(top_level));
    match heap::init(hhdm_offset) {
        Ok(()) => Ok(cr3),
        Err(e) => Err(MmError::HeapError(e)),
    }
}

/// Freeing frames leaves tables outside them as they are.
proof fn lemma_tables_populated(
    mem: Seq<u64>,
    mem2: Seq<u64>,
    root: int,
    pmm: &Pmm,
    memmap: Seq<MemmapEntry>,
)
    requires
        tables_outside(mem, root, memmap, map_first(memmap), map_last(memmap)),
        pmm::only_links_changed(mem, mem2, free_lists::no_blocks(), pmm.lists()),
        forall|g: int| #[trigger]
            pmm.is_free(g) ==> populates(
                memmap,
                memmap.len() as int,
                map_first(memmap),
                map_last(memmap),
                g,
            ),
    ensures
        clone::subtree_ok(mem2, root, 3, pmm.lists()),
        tables::space_of(mem2, root, 0) == tables::space_of(mem, root, 0),
        clone::tables_below(mem2, root, 3, 512) == clone::tables_below(mem, root, 3, 512),
        clone::subtree_same(mem2, mem, root, 3),
{
    assert forall|p: Seq<int>|
        #![trigger tables::node(mem, root, 3, p)]
        tables::node(mem, root, 3, p) matches Some(t) ==> clone::table_same(mem, mem2, t)
            && !free_lists::covers(pmm.lists(), t) by {
        if let Some(t) = tables::node(mem, root, 3, p) {
            assert(!pmm.is_free(t));
            free_lists::lemma_no_blocks(t);
            assert forall|j: int| 0 <= j < 512 implies #[trigger] mem2[t * 512 + j] == mem[t * 512
                + j] by {
                assert((t * 512 + j) / 512 == t);
            }
        }
    }
    clone::lemma_subtree_same(mem, mem2, root, 3, pmm.lists());
    clone::lemma_count_same(mem, mem2, root, 3, 512);
    assert forall|p: Seq<int>, j: int| 0 <= j < 512 implies #[trigger] tables::slot_kept(
        mem,
        mem2,
        root,
        p,
        j,
    ) by {
        if let Some(t) = tables::node(mem, root, 3, p) {
            assert(clone::table_same(mem, mem2, t));
            assert(mem2[t * 512 + j] == mem[t * 512 + j]);
        }
    }
    tables::lemma_same_tables(mem, mem2, root);
    assert(tables::space_of(mem2, root, 0) =~= tables::space_of(mem, root, 0));
    assert forall|p: Seq<int>|
        #![trigger tables::node(mem2, root, 3, p)]
        tables::node(mem2, root, 3, p) matches Some(t) ==> clone::table_same(mem2, mem, t) by {
        if let Some(t) = tables::node(mem2, root, 3, p) {
            assert(tables::node(mem, root, 3, p) == Some(t));
            assert(clone::table_same(mem, mem2, t));
            assert forall|j: int| 0 <= j < 512 implies #[trigger] mem[t * 512 + j] == mem2[t * 512
                + j] by {
                assert(mem2[t * 512 + j] == mem[t * 512 + j]);
            }
        }
    }
}

} // verus!
