//! Physical frame allocator: a buddy allocator whose free lists are threaded
//! through the free frames themselves.
use vstd::prelude::*;

use crate::mm::addr::PAddr;
use crate::mm::blocks;
use crate::mm::free_lists;
use crate::mm::memmap::{MemmapEntry, MEMMAP_BOOTLOADER_RECLAIMABLE};

verus! {

/// log2 of the frame size.
pub const FRAME_SHIFT: u32 = 12;

/// Bytes in a frame.
pub const FRAME_SIZE: u64 = 4096;

/// 64-bit words in a frame.
pub const FRAME_WORDS: usize = 512;

/// Order of the largest block.
pub const MAX_ORDER: usize = 11;

const NUM_ORDERS: usize = 12;

/// Mark of a frame that is in no free block.
const ORDER_NONE: u8 = 0xFF;

spec fn block_ok(map: Seq<u8>, f: int, o: int) -> bool {
    &&& 0 <= f
    &&& f % blocks::pages(o) == 0
    &&& f + blocks::pages(o) <= map.len()
    &&& forall|g: int| f <= g < f + blocks::pages(o) ==> #[trigger] map[g] == o
}

spec fn blocks_ok(lists: Seq<Seq<int>>, map: Seq<u8>) -> bool {
    forall|o: int, i: int|
        #![trigger lists[o][i]]
        0 <= o < 12 && 0 <= i < lists[o].len() ==> block_ok(map, lists[o][i], o)
}

spec fn frames_ok(lists: Seq<Seq<int>>, map: Seq<u8>) -> bool {
    forall|g: int|
        0 <= g < map.len() && #[trigger] map[g] != ORDER_NONE ==> map[g] < 12
            && lists[map[g] as int].contains(blocks::block_start(g, map[g] as int))
}

/// The lists and the per-frame map describe the same blocks.
spec fn consistent(lists: Seq<Seq<int>>, map: Seq<u8>) -> bool {
    &&& lists.len() == 12
    &&& blocks_ok(lists, map)
    &&& frames_ok(lists, map)
    &&& free_lists::distinct(lists)
}

/// Number of frames that are in a free block.
spec fn count_free(map: Seq<u8>) -> int
    decreases map.len(),
{
    if map.len() == 0 {
        0
    } else {
        count_free(map.drop_last()) + if map.last() != ORDER_NONE {
            1int
        } else {
            0
        }
    }
}

/// Virtual address at which a frame is seen.
pub open spec fn frame_address(hhdm: int, frame: int) -> int {
    hhdm + frame * 4096
}

/// Word that links to item `i` of a list; zero where there is none.
spec fn link_word(list: Seq<int>, i: int, hhdm: int) -> int {
    if 0 <= i < list.len() {
        frame_address(hhdm, list[i])
    } else {
        0
    }
}

/// The links of block `i` of list `o` lead to its neighbours.
spec fn linked(lists: Seq<Seq<int>>, mem: Seq<u64>, hhdm: int, o: int, i: int) -> bool {
    &&& mem[lists[o][i] * 512] == link_word(lists[o], i - 1, hhdm)
    &&& mem[lists[o][i] * 512 + 1] == link_word(lists[o], i + 1, hhdm)
    &&& frame_address(hhdm, lists[o][i]) > 0
}

spec fn links_ok(lists: Seq<Seq<int>>, mem: Seq<u64>, hhdm: int) -> bool {
    forall|o: int, i: int|
        0 <= o < 12 && 0 <= i < lists[o].len() ==> #[trigger] linked(lists, mem, hhdm, o, i)
}

spec fn heads_ok(lists: Seq<Seq<int>>, heads: Seq<Option<u64>>, hhdm: int) -> bool {
    forall|o: int|
        0 <= o < 12 ==> match #[trigger] heads[o] {
            Some(a) => lists[o].len() > 0 && a == frame_address(hhdm, lists[o][0]),
            None => lists[o].len() == 0,
        }
}

/// Only the link words of frames that are free before or after may differ.
pub open spec fn only_links_changed(
    before: Seq<u64>,
    after: Seq<u64>,
    lists: Seq<Seq<int>>,
    lists2: Seq<Seq<int>>,
) -> bool {
    &&& after.len() == before.len()
    &&& forall|w: int|
        0 <= w < before.len() && !(w % 512 < 2 && (free_lists::covers(lists, w / 512) || free_lists::covers(
            lists2,
            w / 512,
        ))) ==> #[trigger] after[w] == before[w]
}

/// What an allocation of `2^order` frames returns and changes.
pub open spec fn alloc_outcome(
    pmm: &Pmm,
    mem: Seq<u64>,
    order: int,
    r: Option<PAddr>,
    pmm2: &Pmm,
    mem2: Seq<u64>,
) -> bool {
    &&& pmm2.wf(mem2)
    &&& pmm2.total() == pmm.total()
    &&& pmm2.hhdm() == pmm.hhdm()
    &&& r is Some <==> free_lists::first_order(pmm.lists(), order) < 12
    &&& r is None ==> {
        &&& pmm2.lists() == pmm.lists()
        &&& pmm2.free_count() == pmm.free_count()
        &&& mem2 == mem
    }
    &&& r matches Some(addr) ==> {
        let frame = free_lists::alloc_frame_of(pmm.lists(), order);
        &&& addr.0 == frame * 4096
        &&& frame_address(pmm.hhdm(), frame) > 0
        &&& frame % blocks::pages(order) == 0
        &&& 0 <= frame
        &&& frame + blocks::pages(order) <= pmm.total()
        &&& pmm2.lists() == free_lists::alloc_lists(pmm.lists(), order)
        &&& pmm2.free_count() == pmm.free_count() - blocks::pages(order)
        &&& forall|g: int| frame <= g < frame + blocks::pages(order) ==> pmm.is_free(g)
        &&& forall|g: int|
            pmm2.is_free(g) <==> pmm.is_free(g) && !(frame <= g < frame + blocks::pages(order))
        &&& only_links_changed(mem, mem2, pmm.lists(), pmm2.lists())
    }
}

/// The `2^order` frames at an address can be freed: they are aligned and in
/// range, and none of them is free.
pub open spec fn can_free(pmm: &Pmm, mem: Seq<u64>, addr: PAddr, order: int) -> bool {
    let frame = addr.0 as int / 4096;
    &&& 0 <= order <= MAX_ORDER
    &&& pmm.wf(mem)
    &&& addr.0 % 4096 == 0
    &&& frame + blocks::pages(order) <= pmm.total()
    &&& frame % blocks::pages(order) == 0
    &&& pmm.hhdm() + addr.0 > 0
    &&& forall|g: int| frame <= g < frame + blocks::pages(order) ==> !pmm.is_free(g)
}

/// What freeing `2^order` frames changes.
pub open spec fn free_outcome(
    pmm: &Pmm,
    mem: Seq<u64>,
    addr: PAddr,
    order: int,
    pmm2: &Pmm,
    mem2: Seq<u64>,
) -> bool {
    let frame = addr.0 as int / 4096;
    &&& pmm2.wf(mem2)
    &&& pmm2.total() == pmm.total()
    &&& pmm2.hhdm() == pmm.hhdm()
    &&& pmm2.lists() == free_lists::free_lists_of(pmm.lists(), frame, order)
    &&& pmm2.free_count() == pmm.free_count() + blocks::pages(order)
    &&& forall|g: int|
        pmm2.is_free(g) <==> pmm.is_free(g) || frame <= g < frame + blocks::pages(order)
    &&& only_links_changed(mem, mem2, pmm.lists(), pmm2.lists())
}

/// The buddy allocator.
pub struct Pmm {
    free_lists: [Option<u64>; NUM_ORDERS],
    frame_order: &'static mut [u8],
    total_frames: u64,
    free_frames: u64,
    hhdm_offset: u64,
    lists: Ghost<Seq<Seq<int>>>,
}

impl Pmm {
    /// The free blocks, by order, head of the list first.
    pub closed spec fn lists(&self) -> Seq<Seq<int>> {
        self.lists@
    }

    /// Number of frames that the allocator knows.
    pub closed spec fn total(&self) -> int {
        self.total_frames as int
    }

    /// Number of free frames.
    pub closed spec fn free_count(&self) -> int {
        self.free_frames as int
    }

    /// Offset of the direct map.
    pub closed spec fn hhdm(&self) -> int {
        self.hhdm_offset as int
    }

    /// The frame is free.
    pub open spec fn is_free(&self, frame: int) -> bool {
        free_lists::covers(self.lists(), frame)
    }

    spec fn map(&self) -> Seq<u8> {
        self.frame_order@
    }

    /// What every step of an operation keeps.
    spec fn structure(&self, mem: Seq<u64>) -> bool {
        &&& self.map().len() == self.total_frames
        &&& mem.len() == self.total_frames * 512
        &&& self.hhdm_offset + self.total_frames * 4096 <= u64::MAX
        &&& consistent(self.lists@, self.map())
        &&& links_ok(self.lists@, mem, self.hhdm())
        &&& heads_ok(self.lists@, self.free_lists@, self.hhdm())
    }

    /// The allocator and the memory that holds its lists are well-formed.
    pub closed spec fn wf(&self, mem: Seq<u64>) -> bool {
        &&& self.structure(mem)
        &&& self.free_frames == count_free(self.map())
        &&& free_lists::coalesced(self.lists@)
    }

    /// The parts that no operation changes.
    spec fn same_shape(&self, other: &Pmm) -> bool {
        &&& self.total_frames == other.total_frames
        &&& self.hhdm_offset == other.hhdm_offset
        &&& self.map().len() == other.map().len()
    }

    /// Bounds that a well-formed allocator keeps.
    pub proof fn lemma_wf(&self, mem: Seq<u64>)
        requires
            self.wf(mem),
        ensures
            mem.len() == self.total() * 512,
            self.hhdm() + self.total() * 4096 <= u64::MAX,
            0 <= self.hhdm(),
            0 <= self.free_count() <= self.total() <= u64::MAX / 4096,
            free_lists::disjoint_blocks(self.lists()),
            free_lists::coalesced(self.lists()),
            forall|g: int| #[trigger] self.is_free(g) ==> 0 <= g < self.total(),
            self.is_free(0) ==> self.hhdm() > 0,
            self.free_count() > 0 <==> free_lists::first_order(self.lists(), 0) < 12,
    {
        let lists = self.lists@;
        let map = self.map();
        lemma_count_bounds(map);
        assert forall|g: int| #[trigger] self.is_free(g) implies 0 <= g < self.total() by {
            lemma_covers(lists, map, g);
        }
        assert forall|o: int, i: int|
            #![trigger lists[o][i]]
            0 <= o < 12 && 0 <= i < lists[o].len() implies 0 <= lists[o][i] && lists[o][i]
            % blocks::pages(o) == 0 by {
            assert(block_ok(map, lists[o][i], o));
        }
        assert forall|o: int, i: int, o2: int, j: int, g: int|
            #[trigger] free_lists::block_holds(lists, o, i, g) && #[trigger] free_lists::block_holds(
                lists,
                o2,
                j,
                g,
            ) implies o == o2 && i == j by {
            assert(block_ok(map, lists[o][i], o));
            assert(block_ok(map, lists[o2][j], o2));
            assert(map[g] == o && map[g] == o2);
            blocks::lemma_block_start_unique(lists[o][i], g, o);
            blocks::lemma_block_start_unique(lists[o2][j], g, o);
            assert(lists[o].no_duplicates());
        }
        if self.is_free(0) {
            let (o, i) = choose|o: int, i: int| free_lists::block_holds(lists, o, i, 0);
            assert(block_ok(map, lists[o][i], o));
            assert(linked(lists, mem, self.hhdm(), o, i));
        }
        free_lists::lemma_first_order(lists, 0);
        let c = free_lists::first_order(lists, 0);
        if c < 12 {
            lemma_block_mark(lists, map, c, 0);
            lemma_count_positive(map, lists[c][0]);
        }
        if self.free_count() > 0 {
            let g = lemma_count_witness(map);
            assert(lists[map[g] as int].contains(blocks::block_start(g, map[g] as int)));
        }
    }

    /// Writes to frames that are not free leave the allocator well-formed.
    pub proof fn lemma_wf_other_memory(&self, mem: Seq<u64>, mem2: Seq<u64>)
        requires
            self.wf(mem),
            mem2.len() == mem.len(),
            forall|w: int|
                0 <= w < mem.len() && self.is_free(w / 512) ==> #[trigger] mem2[w] == mem[w],
        ensures
            self.wf(mem2),
    {
        let lists = self.lists@;
        assert forall|o: int, i: int| 0 <= o < 12 && 0 <= i < lists[o].len() implies #[trigger] linked(
            lists,
            mem2,
            self.hhdm(),
            o,
            i,
        ) by {
            let f = lists[o][i];
            assert(linked(lists, mem, self.hhdm(), o, i));
            lemma_block_mark(lists, self.map(), o, i);
            lemma_covers(lists, self.map(), f);
            assert((f * 512) / 512 == f);
            assert((f * 512 + 1) / 512 == f);
            assert(self.is_free((f * 512) / 512));
            assert(self.is_free((f * 512 + 1) / 512));
        }
    }

    /// The number of free frames is the size of the set of free frames.
    pub proof fn law_free_count(&self, mem: Seq<u64>)
        requires
            self.wf(mem),
        ensures
            Set::new(|g: int| self.is_free(g)).finite(),
            Set::new(|g: int| self.is_free(g)).len() == self.free_count(),
    {
        lemma_count_set(self.map());
        let marked = Set::new(|g: int| 0 <= g < self.map().len() && self.map()[g] != ORDER_NONE);
        assert forall|g: int| #[trigger] self.is_free(g) == marked.contains(g) by {
            lemma_covers(self.lists@, self.map(), g);
        }
        assert(Set::new(|g: int| self.is_free(g)) =~= marked);
    }

    /// Creates an allocator that has no free frame.
    pub fn new(frame_order: &'static mut [u8], total_frames: u64, hhdm_offset: u64) -> (pmm: Self)
        requires
            total_frames == old(frame_order)@.len(),
            hhdm_offset + total_frames * 4096 <= u64::MAX,
        ensures
            pmm.lists() == free_lists::no_blocks(),
            pmm.total() == total_frames,
            pmm.hhdm() == hhdm_offset,
            pmm.free_count() == 0,
            forall|mem: Seq<u64>| mem.len() == total_frames * 512 ==> #[trigger] pmm.wf(mem),
    {
        let mut i: usize = 0;
        while i < frame_order.len()
            invariant
                i <= frame_order@.len(),
                frame_order@.len() == old(frame_order)@.len(),
                forall|j: int| 0 <= j < i ==> frame_order@[j] == ORDER_NONE,
            decreases frame_order@.len() - i,
        {
            frame_order[i] = ORDER_NONE;
            i = i + 1;
        }
        proof {
            lemma_count_none(frame_order@);
        }
        Self {
            free_lists: [None; NUM_ORDERS],
            frame_order,
            total_frames,
            free_frames: 0,
            hhdm_offset,
            lists: Ghost(free_lists::no_blocks()),
        }
    }

    fn frame_to_block(&self, frame: u64) -> (block: u64)
        requires
            frame < self.total_frames,
            self.hhdm_offset + self.total_frames * 4096 <= u64::MAX,
        ensures
            block == frame_address(self.hhdm(), frame as int),
    {
        frame * FRAME_SIZE + self.hhdm_offset
    }

    fn block_to_frame(&self, block: u64) -> (frame: u64)
        requires
            block >= self.hhdm_offset,
        ensures
            frame == (block - self.hhdm_offset) / 4096,
    {
        (block - self.hhdm_offset) / FRAME_SIZE
    }

    fn set_block_order(&mut self, frame: u64, order: usize, value: u8)
        requires
            order <= MAX_ORDER,
            frame + blocks::pages(order as int) <= old(self).map().len(),
        ensures
            final(self).map() == Seq::new(
                old(self).map().len(),
                |g: int|
                    if frame <= g < frame + blocks::pages(order as int) {
                        value
                    } else {
                        old(self).map()[g]
                    },
            ),
            final(self).same_shape(old(self)),
            final(self).free_lists == old(self).free_lists,
            final(self).free_frames == old(self).free_frames,
            final(self).lists == old(self).lists,
    {
        proof {
            blocks::lemma_shift(order as u64);
            blocks::lemma_pages_bound(order as int);
        }
        let size: u64 = 1u64 << (order as u64);
        let len: usize = self.frame_order.len();
        let mut i: u64 = 0;
        while i < size
            invariant
                i <= size,
                size == blocks::pages(order as int),
                len == self.map().len(),
                frame + size <= self.map().len(),
                self.map().len() == old(self).map().len(),
                forall|g: int|
                    0 <= g < self.map().len() ==> #[trigger] self.map()[g] == if frame <= g < frame + i {
                        value
                    } else {
                        old(self).map()[g]
                    },
                self.same_shape(old(self)),
                self.free_lists == old(self).free_lists,
                self.free_frames == old(self).free_frames,
                self.lists == old(self).lists,
            decreases size - i,
        {
            self.frame_order[(frame + i) as usize] = value;
            i = i + 1;
        }
    }

    /// Whether no frame of the block is free.
    pub fn assert_block_unused(&self, frame: u64, order: usize) -> (unused: bool)
        requires
            order <= MAX_ORDER,
            frame + blocks::pages(order as int) <= self.total(),
            exists|mem: Seq<u64>| #[trigger] self.wf(mem),
        ensures
            unused <==> forall|g: int|
                frame <= g < frame + blocks::pages(order as int) ==> !self.is_free(g),
    {
        proof {
            blocks::lemma_shift(order as u64);
            blocks::lemma_pages_bound(order as int);
            assert forall|g: int| free_lists::covers(self.lists@, g) == (0 <= g < self.map().len()
                && self.map()[g] != ORDER_NONE) by {
                lemma_covers(self.lists@, self.map(), g);
            }
        }
        let size: u64 = 1u64 << (order as u64);
        let len: usize = self.frame_order.len();
        let mut i: u64 = 0;
        while i < size
            invariant
                i <= size,
                size == blocks::pages(order as int),
                len == self.map().len(),
                frame + size <= self.map().len(),
                forall|g: int|
                    free_lists::covers(self.lists@, g) == (0 <= g < self.map().len() && self.map()[g]
                        != ORDER_NONE),
                forall|g: int| frame <= g < frame + i ==> #[trigger] self.map()[g] == ORDER_NONE,
            decreases size - i,
        {
            if self.frame_order[(frame + i) as usize] != ORDER_NONE {
                assert(self.is_free(frame + i));
                return false;
            }
            i = i + 1;
        }
        true
    }

    /// Puts a block at the head of its list.
    fn list_push(&mut self, mem: &mut [u64], frame: u64, order: usize)
        requires
            order <= MAX_ORDER,
            old(self).structure(old(mem)@),
            frame as int % blocks::pages(order as int) == 0,
            frame + blocks::pages(order as int) <= old(self).total(),
            frame_address(old(self).hhdm(), frame as int) > 0,
            forall|g: int|
                frame <= g < frame + blocks::pages(order as int) ==> #[trigger] old(self).map()[g]
                    == ORDER_NONE,
        ensures
            final(self).structure(final(mem)@),
            final(self).lists() == free_lists::push_block(old(self).lists(), order as int, frame as int),
            set_range(
                old(self).map(),
                final(self).map(),
                frame as int,
                blocks::pages(order as int),
                order as u8,
            ),
            final(self).same_shape(old(self)),
            final(self).free_frames == old(self).free_frames,
            final(mem)@.len() == old(mem)@.len(),
            forall|w: int|
                0 <= w < old(mem)@.len() && !(w % 512 < 2 && final(self).map()[w / 512]
                    != ORDER_NONE) ==> #[trigger] final(mem)@[w] == old(mem)@[w],
    {
        proof {
            blocks::lemma_pages_bound(order as int);
        }
        let block: u64 = self.frame_to_block(frame);
        let head: Option<u64> = self.free_lists[order];
        let n: usize = mem.len();
        let at: usize = frame as usize * FRAME_WORDS;
        mem[at] = 0;
        match head {
            Some(h) => {
                let next: u64 = self.block_to_frame(h);
                proof {
                    let l = self.lists@[order as int];
                    lemma_block_mark(self.lists@, self.map(), order as int, 0);
                    assert(h - self.hhdm_offset == l[0] * 4096);
                    assert(next == l[0]);
                    assert(next != frame);
                }
                mem[at + 1] = h;
                mem[next as usize * FRAME_WORDS] = block;
            },
            None => {
                mem[at + 1] = 0;
            },
        }
        self.free_lists[order] = Some(block);
        self.set_block_order(frame, order, order as u8);
        self.lists = Ghost(free_lists::push_block(self.lists@, order as int, frame as int));
        proof {
            let o = order as int;
            let f = frame as int;
            let l0 = old(self).lists@;
            lemma_push_consistent(l0, old(self).map(), self.map(), f, o);
            lemma_push_links(l0, old(self).map(), old(mem)@, mem@, f, o, self.hhdm());
            assert forall|w: int|
                0 <= w < old(mem)@.len() && !(w % 512 < 2 && self.map()[w / 512]
                    != ORDER_NONE) implies #[trigger] mem@[w] == old(mem)@[w] by {
                assert(self.map()[f] == o);
                if l0[o].len() > 0 {
                    let h = l0[o][0];
                    assert(block_ok(old(self).map(), h, o));
                    assert(old(self).map()[h] == o);
                    assert(self.map()[h] == o);
                    assert((h * 512) / 512 == h);
                    assert((h * 512) % 512 == 0);
                }
                assert((f * 512) / 512 == f);
                assert((f * 512 + 1) / 512 == f);
            }
        }
    }

    /// Takes a block out of its list.
    fn list_remove(&mut self, mem: &mut [u64], frame: u64, order: usize)
        requires
            order <= MAX_ORDER,
            old(self).structure(old(mem)@),
            old(self).lists()[order as int].contains(frame as int),
        ensures
            final(self).structure(final(mem)@),
            final(self).lists() == free_lists::take_block(old(self).lists(), order as int, frame as int),
            set_range(
                old(self).map(),
                final(self).map(),
                frame as int,
                blocks::pages(order as int),
                ORDER_NONE,
            ),
            final(self).same_shape(old(self)),
            final(self).free_frames == old(self).free_frames,
            final(mem)@.len() == old(mem)@.len(),
            forall|w: int|
                0 <= w < old(mem)@.len() && !(w % 512 < 2 && old(self).map()[w / 512]
                    != ORDER_NONE) ==> #[trigger] final(mem)@[w] == old(mem)@[w],
    {
        let ghost o = order as int;
        let ghost f = frame as int;
        let ghost l = self.lists@[o];
        let ghost i = l.index_of(f);
        proof {
            lemma_block_mark(self.lists@, self.map(), o, i);
            assert(linked(self.lists@, mem@, self.hhdm(), o, i));
            assert(block_ok(self.map(), self.lists@[o][i], o));
            if i > 0 {
                lemma_block_mark(self.lists@, self.map(), o, i - 1);
                assert(linked(self.lists@, mem@, self.hhdm(), o, i - 1));
            }
            if i + 1 < l.len() {
                lemma_block_mark(self.lists@, self.map(), o, i + 1);
                assert(linked(self.lists@, mem@, self.hhdm(), o, i + 1));
            }
            assert(l.no_duplicates());
        }
        let n: usize = mem.len();
        let at: usize = frame as usize * FRAME_WORDS;
        let prev: u64 = mem[at];
        let next: u64 = mem[at + 1];
        assert(prev == link_word(l, i - 1, self.hhdm()));
        assert(next == link_word(l, i + 1, self.hhdm()));
        if prev != 0 {
            let p: u64 = self.block_to_frame(prev);
            proof {
                assert(prev - self.hhdm_offset == l[i - 1] * 4096);
                assert(p == l[i - 1]);
            }
            mem[p as usize * FRAME_WORDS + 1] = next;
        } else {
            assert(i == 0);
            self.free_lists[order] = if next != 0 {
                Some(next)
            } else {
                None
            };
        }
        if next != 0 {
            let q: u64 = self.block_to_frame(next);
            proof {
                assert(next - self.hhdm_offset == l[i + 1] * 4096);
                assert(q == l[i + 1]);
            }
            mem[q as usize * FRAME_WORDS] = prev;
        }
        self.set_block_order(frame, order, ORDER_NONE);
        self.lists = Ghost(free_lists::take_block(self.lists@, o, f));
        proof {
            let l0 = old(self).lists@;
            lemma_take_consistent(l0, old(self).map(), self.map(), f, o);
            lemma_take_links(l0, old(self).map(), old(mem)@, mem@, f, o, self.hhdm());
            assert(heads_ok(self.lists@, self.free_lists@, self.hhdm())) by {
                assert forall|o2: int| 0 <= o2 < 12 implies match #[trigger] self.free_lists@[o2] {
                    Some(a) => self.lists@[o2].len() > 0 && a == frame_address(
                        self.hhdm(),
                        self.lists@[o2][0],
                    ),
                    None => self.lists@[o2].len() == 0,
                } by {
                    assert(old(self).free_lists@[o2] == old(self).free_lists@[o2]);
                }
            }
            assert forall|w: int|
                0 <= w < old(mem)@.len() && !(w % 512 < 2 && old(self).map()[w / 512]
                    != ORDER_NONE) implies #[trigger] mem@[w] == old(mem)@[w] by {
                if i > 0 {
                    assert((l[i - 1] * 512 + 1) / 512 == l[i - 1]);
                }
                if i + 1 < l.len() {
                    assert((l[i + 1] * 512) / 512 == l[i + 1]);
                }
            }
        }
    }

    /// Offset of the direct map.
    pub fn hhdm_offset(&self) -> (r: u64)
        ensures
            r == self.hhdm(),
    {
        self.hhdm_offset
    }

    /// Number of free frames.
    pub fn free_frames_count(&self) -> (r: u64)
        ensures
            r == self.free_count(),
    {
        self.free_frames
    }

    /// Puts the upper halves of a block that is in no list into their lists,
    /// until what is left has the order asked for.
    fn split_block(&mut self, mem: &mut [u64], frame: u64, from: usize, order: usize)
        requires
            order <= from <= MAX_ORDER,
            old(self).structure(old(mem)@),
            frame as int % blocks::pages(from as int) == 0,
            frame + blocks::pages(from as int) <= old(self).total(),
            frame_address(old(self).hhdm(), frame as int) > 0,
            forall|g: int|
                frame <= g < frame + blocks::pages(from as int) ==> #[trigger] old(self).map()[g]
                    == ORDER_NONE,
        ensures
            final(self).structure(final(mem)@),
            final(self).lists() == free_lists::split(
                old(self).lists(),
                frame as int,
                from as int,
                order as int,
            ),
            final(self).same_shape(old(self)),
            final(self).free_frames == old(self).free_frames,
            final(mem)@.len() == old(mem)@.len(),
            count_free(final(self).map()) == count_free(old(self).map()) + blocks::pages(
                from as int,
            ) - blocks::pages(order as int),
            forall|g: int|
                0 <= g < old(self).map().len() ==> if frame + blocks::pages(order as int) <= g
                    < frame + blocks::pages(from as int) {
                    #[trigger] final(self).map()[g] != ORDER_NONE
                } else {
                    final(self).map()[g] == old(self).map()[g]
                },
            forall|w: int|
                0 <= w < old(mem)@.len() && !(w % 512 < 2 && final(self).map()[w / 512]
                    != ORDER_NONE) ==> #[trigger] final(mem)@[w] == old(mem)@[w],
    {
        let mut o: usize = from;
        while o > order
            invariant
                order <= o <= from <= MAX_ORDER,
                self.structure(mem@),
                self.same_shape(old(self)),
                self.free_frames == old(self).free_frames,
                mem@.len() == old(mem)@.len(),
                mem@.len() == self.map().len() * 512,
                frame as int % blocks::pages(o as int) == 0,
                blocks::pages(o as int) <= blocks::pages(from as int),
                frame + blocks::pages(from as int) <= self.total(),
                frame_address(self.hhdm(), frame as int) > 0,
                forall|g: int|
                    frame <= g < frame + blocks::pages(from as int) ==> #[trigger] old(
                        self,
                    ).map()[g] == ORDER_NONE,
                free_lists::split(self.lists(), frame as int, o as int, order as int) == free_lists::split(
                    old(self).lists(),
                    frame as int,
                    from as int,
                    order as int,
                ),
                count_free(self.map()) == count_free(old(self).map()) + blocks::pages(from as int)
                    - blocks::pages(o as int),
                forall|g: int|
                    0 <= g < old(self).map().len() ==> if frame + blocks::pages(o as int) <= g
                        < frame + blocks::pages(from as int) {
                        #[trigger] self.map()[g] != ORDER_NONE
                    } else {
                        self.map()[g] == old(self).map()[g]
                    },
                forall|w: int|
                    0 <= w < old(mem)@.len() && !(w % 512 < 2 && self.map()[w / 512] != ORDER_NONE)
                        ==> #[trigger] mem@[w] == old(mem)@[w],
            decreases o,
        {
            o = o - 1;
            proof {
                blocks::lemma_shift(o as u64);
                blocks::lemma_pages(o as int);
                blocks::lemma_pages_bound(o as int);
                blocks::lemma_halves(frame as int, o as int);
            }
            let ghost map1 = self.map();
            let ghost mem1 = mem@;
            let buddy: u64 = frame + (1u64 << (o as u64));
            self.list_push(mem, buddy, o);
            proof {
                lemma_count_range(map1, self.map(), buddy as int, blocks::pages(o as int), o as u8);
                assert forall|w: int|
                    0 <= w < old(mem)@.len() && !(w % 512 < 2 && self.map()[w / 512]
                        != ORDER_NONE) implies #[trigger] mem@[w] == old(mem)@[w] by {
                    assert(mem@[w] == mem1[w]);
                    assert(0 <= w / 512 < map1.len());
                    assert(self.map()[w / 512] == map1[w / 512] || self.map()[w / 512] == o as u8);
                }
            }
        }
    }

    /// Allocates a block of `2^order` frames.
    ///
    /// The block comes from the smallest order that has one; what is left over
    /// of a larger block goes back to the lists.
    pub fn alloc_pages(&mut self, mem: &mut [u64], order: usize) -> (r: Option<PAddr>)
        requires
            order <= MAX_ORDER,
            old(self).wf(old(mem)@),
        ensures
            alloc_outcome(old(self), old(mem)@, order as int, r, final(self), final(mem)@),
    {
        let mut current: usize = order;
        while current <= MAX_ORDER
            invariant
                order <= current <= MAX_ORDER + 1,
                order <= MAX_ORDER,
                self.wf(mem@),
                self.lists() == old(self).lists(),
                self.map() == old(self).map(),
                self.same_shape(old(self)),
                self.free_frames == old(self).free_frames,
                mem@ == old(mem)@,
                free_lists::first_order(self.lists(), order as int) == free_lists::first_order(
                    self.lists(),
                    current as int,
                ),
                forall|k: int| order <= k < current ==> #[trigger] self.lists()[k].len() == 0,
            decreases MAX_ORDER + 1 - current,
        {
            match self.free_lists[current] {
                Some(head) => {
                    let ghost l0 = self.lists@;
                    let ghost map0 = self.map();
                    let ghost c = current as int;
                    let ghost f = l0[c][0];
                    proof {
                        assert(head == frame_address(self.hhdm(), f));
                        lemma_block_mark(l0, map0, c, 0);
                        assert(linked(l0, mem@, self.hhdm(), c, 0));
                        assert(block_ok(map0, l0[c][0], c));
                        assert(l0[c].contains(f));
                        assert(head - self.hhdm_offset == f * 4096);
                        blocks::lemma_pages_bound(c);
                        blocks::lemma_pages_bound(order as int);
                        blocks::lemma_pages_monotonic(order as int, c);
                        blocks::lemma_align_down(f, order as int, c);
                        blocks::lemma_shift(order as u64);
                    }
                    let frame: u64 = self.block_to_frame(head);
                    self.list_remove(mem, frame, current);
                    let ghost map1 = self.map();
                    let ghost mem1 = mem@;
                    proof {
                        lemma_count_range(map1, map0, f, blocks::pages(c), c as u8);
                    }
                    self.split_block(mem, frame, current, order);
                    proof {
                        lemma_count_bounds(self.map());
                        free_lists::lemma_alloc_coalesced(l0, order as int);
                    }
                    self.free_frames = self.free_frames - (1u64 << (order as u64));
                    proof {
                        assert forall|g: int| #[trigger]
                            free_lists::covers(self.lists@, g) <==> free_lists::covers(l0, g) && !(f <= g < f
                                + blocks::pages(order as int)) by {
                            lemma_covers(l0, map0, g);
                            lemma_covers(self.lists@, self.map(), g);
                        }
                        assert forall|g: int| f <= g < f + blocks::pages(order as int) implies free_lists::covers(
                            l0,
                            g,
                        ) by {
                            lemma_covers(l0, map0, g);
                            assert(map0[g] == c);
                        }
                        assert forall|w: int|
                            0 <= w < old(mem)@.len() && !(w % 512 < 2 && (free_lists::covers(l0, w / 512)
                                || free_lists::covers(self.lists@, w / 512))) implies #[trigger] mem@[w] == old(
                            mem,
                        )@[w] by {
                            lemma_covers(l0, map0, w / 512);
                            lemma_covers(self.lists@, self.map(), w / 512);
                            assert(mem@[w] == mem1[w]);
                        }
                    }
                    return Some(PAddr(frame * FRAME_SIZE));
                },
                None => {
                    assert(self.free_lists@[current as int] is None);
                },
            }
            current = current + 1;
        }
        None
    }

    /// Frees a block of `2^order` frames that is not free.
    ///
    /// The block is joined with its buddy as long as the buddy is free too.
    pub fn free_pages(&mut self, mem: &mut [u64], addr: PAddr, order: usize)
        requires
            can_free(old(self), old(mem)@, addr, order as int),
        ensures
            free_outcome(old(self), old(mem)@, addr, order as int, final(self), final(mem)@),
    {
        let first: u64 = frame_index(addr);
        let ghost map0 = self.map();
        let ghost l0 = self.lists@;
        let ghost size = blocks::pages(order as int);
        proof {
            blocks::lemma_shift(order as u64);
            blocks::lemma_pages_bound(order as int);
            assert forall|g: int| first <= g < first + size implies #[trigger] map0[g]
                == ORDER_NONE by {
                lemma_covers(l0, map0, g);
                assert(!old(self).is_free(g));
            }
            let marked = Seq::new(
                map0.len(),
                |g: int|
                    if first <= g < first + size {
                        0u8
                    } else {
                        map0[g]
                    },
            );
            lemma_count_range(map0, marked, first as int, size, 0u8);
            lemma_count_bounds(marked);
        }
        self.free_frames = self.free_frames + (1u64 << (order as u64));
        let mut frame: u64 = first;
        let mut o: usize = order;
        while o < MAX_ORDER
            invariant_except_break
                free_lists::free_lists_of(self.lists@, frame as int, o as int) == free_lists::free_lists_of(
                    l0,
                    first as int,
                    order as int,
                ),
            invariant
                order <= o <= MAX_ORDER,
                self.structure(mem@),
                self.same_shape(old(self)),
                free_lists::coalesced(self.lists@),
                map0.len() == self.map().len(),
                consistent(l0, map0),
                l0 == old(self).lists(),
                size == blocks::pages(order as int),
                mem@.len() == old(mem)@.len(),
                mem@.len() == map0.len() * 512,
                self.free_frames == old(self).free_frames + size,
                frame as int % blocks::pages(o as int) == 0,
                frame <= first,
                first + size <= frame + blocks::pages(o as int) <= self.total(),
                frame_address(self.hhdm(), frame as int) > 0,
                count_free(self.map()) + blocks::pages(o as int) == self.free_frames,
                forall|g: int|
                    frame <= g < frame + blocks::pages(o as int) ==> #[trigger] self.map()[g]
                        == ORDER_NONE && (map0[g] != ORDER_NONE || first <= g < first + size),
                forall|g: int|
                    0 <= g < map0.len() && !(frame <= g < frame + blocks::pages(o as int))
                        ==> #[trigger] self.map()[g] == map0[g],
                forall|w: int|
                    0 <= w < old(mem)@.len() && !(w % 512 < 2 && map0[w / 512] != ORDER_NONE)
                        ==> #[trigger] mem@[w] == old(mem)@[w],
            ensures
                free_lists::push_block(self.lists@, o as int, frame as int) == free_lists::free_lists_of(
                    l0,
                    first as int,
                    order as int,
                ),
                o < MAX_ORDER ==> !self.lists@[o as int].contains(
                    blocks::buddy_of(frame as int, o as int),
                ),
            decreases MAX_ORDER - o,
        {
            let ghost b = blocks::buddy_of(frame as int, o as int);
            let ghost f = frame as int;
            let ghost l1 = self.lists@;
            let ghost map1 = self.map();
            let ghost mem1 = mem@;
            proof {
                blocks::lemma_shift(o as u64);
                blocks::lemma_pages_bound(o as int);
                blocks::lemma_pages(o as int);
                blocks::lemma_buddy_bits(frame, o as u64);
                blocks::lemma_buddy(f, o as int);
                assert(l1[o as int].contains(b) <==> 0 <= b < map1.len() && map1[b] == o) by {
                    if l1[o as int].contains(b) {
                        lemma_block_mark(l1, map1, o as int, l1[o as int].index_of(b));
                    }
                    if 0 <= b < map1.len() && map1[b] == o {
                        blocks::lemma_block_start_unique(b, b, o as int);
                    }
                }
            }
            let len: usize = self.frame_order.len();
            let buddy: u64 = frame ^ (1u64 << (o as u64));
            if buddy >= self.total_frames || self.frame_order[buddy as usize] != o as u8 {
                break;
            }
            proof {
                let k = l1[o as int].index_of(b);
                assert(block_ok(map1, l1[o as int][k], o as int));
                assert(linked(l1, mem1, self.hhdm(), o as int, k));
            }
            self.list_remove(mem, buddy, o);
            proof {
                lemma_count_range(self.map(), map1, b, blocks::pages(o as int), o as u8);
                assert(free_lists::coalesced(self.lists@)) by {
                    free_lists::lemma_take_coalesced(l1, o as int, b);
                }
                assert forall|w: int|
                    0 <= w < old(mem)@.len() && !(w % 512 < 2 && map0[w / 512] != ORDER_NONE)
                        implies #[trigger] mem@[w] == old(mem)@[w] by {
                    assert(0 <= w / 512 < map0.len());
                    assert(map1[w / 512] != ORDER_NONE ==> map0[w / 512] != ORDER_NONE);
                    assert(mem@[w] == mem1[w]);
                }
                assert forall|g: int|
                    blocks::parent_of(f, o as int) <= g < blocks::parent_of(f, o as int)
                        + blocks::pages(o + 1) implies #[trigger] self.map()[g] == ORDER_NONE && (
                map0[g] != ORDER_NONE || first <= g < first + size) by {
                    if b <= g < b + blocks::pages(o as int) {
                        assert(map1[g] == o);
                    } else {
                        assert(map1[g] == ORDER_NONE);
                    }
                }
            }
            frame = frame & !(1u64 << (o as u64));
            o = o + 1;
        }
        let ghost map2 = self.map();
        let ghost l2 = self.lists@;
        let ghost mem2 = mem@;
        proof {
            blocks::lemma_pages_bound(o as int);
        }
        self.list_push(mem, frame, o);
        proof {
            let f = frame as int;
            lemma_count_range(map2, self.map(), f, blocks::pages(o as int), o as u8);
            free_lists::lemma_push_coalesced(l2, o as int, f);
            assert forall|g: int| #[trigger]
                free_lists::covers(self.lists@, g) <==> free_lists::covers(l0, g) || first <= g
                    < first + size by {
                lemma_covers(l0, map0, g);
                lemma_covers(self.lists@, self.map(), g);
                if f <= g < f + blocks::pages(o as int) {
                    assert(map2[g] == ORDER_NONE);
                } else if 0 <= g < map0.len() {
                    assert(self.map()[g] == map2[g]);
                }
            }
            assert forall|w: int|
                0 <= w < old(mem)@.len() && !(w % 512 < 2 && (free_lists::covers(l0, w / 512) || free_lists::covers(
                    self.lists@,
                    w / 512,
                ))) implies #[trigger] mem@[w] == old(mem)@[w] by {
                lemma_covers(l0, map0, w / 512);
                lemma_covers(self.lists@, self.map(), w / 512);
                assert(0 <= w / 512 < map0.len());
                assert(mem@[w] == mem2[w]);
            }
            assert(only_links_changed(old(mem)@, mem@, l0, self.lists()));
            assert(self.lists() == free_lists::free_lists_of(l0, first as int, order as int));
            assert(self.wf(mem@));
        }
    }

    /// Frees `count` frames from `start` on.
    pub fn add_range(&mut self, mem: &mut [u64], start: u64, count: u64)
        requires
            old(self).wf(old(mem)@),
            start + count <= old(self).total(),
            count > 0 ==> old(self).hhdm() + start > 0,
            forall|g: int| start <= g < start + count ==> !old(self).is_free(g),
        ensures
            final(self).wf(final(mem)@),
            final(self).total() == old(self).total(),
            final(self).hhdm() == old(self).hhdm(),
            final(self).lists() == free_lists::add_range_lists(
                old(self).lists(),
                start as int,
                count as int,
            ),
            final(self).free_count() == old(self).free_count() + count,
            forall|g: int|
                final(self).is_free(g) <==> old(self).is_free(g) || start <= g < start + count,
            only_links_changed(old(mem)@, final(mem)@, old(self).lists(), final(self).lists()),
    {
        let mut at: u64 = start;
        let mut left: u64 = count;
        while left > 0
            invariant
                start <= at,
                at + left == start + count,
                start + count <= self.total(),
                self.total() <= u64::MAX / 4096,
                self.wf(mem@),
                self.total() == old(self).total(),
                self.hhdm() == old(self).hhdm(),
                count > 0 ==> self.hhdm() + start > 0,
                free_lists::add_range_lists(self.lists(), at as int, left as int) == free_lists::add_range_lists(
                    old(self).lists(),
                    start as int,
                    count as int,
                ),
                self.free_count() == old(self).free_count() + (at - start),
                forall|g: int| start <= g < start + count ==> !old(self).is_free(g),
                forall|g: int| self.is_free(g) <==> old(self).is_free(g) || start <= g < at,
                only_links_changed(old(mem)@, mem@, old(self).lists(), self.lists()),
            decreases left,
        {
            let align_order: u32 = if at == 0 {
                MAX_ORDER as u32
            } else {
                at.trailing_zeros()
            };
            let size_order: u32 = 63 - left.leading_zeros();
            let fit: u32 = if align_order < size_order {
                align_order
            } else {
                size_order
            };
            let order: usize = if fit as usize > MAX_ORDER {
                MAX_ORDER
            } else {
                fit as usize
            };
            let ghost l1 = self.lists();
            let ghost mem1 = mem@;
            proof {
                free_lists::lemma_fitting_order(at, left, align_order as int, size_order as int, order as int);
                blocks::lemma_shift(order as u64);
                blocks::lemma_pages_bound(order as int);
                assert(at * 4096 / 4096 == at);
            }
            self.free_pages(mem, PAddr(at * FRAME_SIZE), order);
            let block: u64 = 1u64 << (order as u64);
            at = at + block;
            left = left - block;
            proof {
                assert forall|w: int|
                    0 <= w < old(mem)@.len() && !(w % 512 < 2 && (free_lists::covers(
                        old(self).lists(),
                        w / 512,
                    ) || free_lists::covers(self.lists(), w / 512))) implies #[trigger] mem@[w] == old(
                    mem,
                )@[w] by {
                    assert(!self.is_free(w / 512) ==> !free_lists::covers(l1, w / 512));
                    assert(mem@[w] == mem1[w]);
                }
            }
        }
    }
}

impl Pmm {
    /// Frees the reclaimable regions; returns the number of frames.
    fn reclaim(&mut self, mem: &mut [u64], memmap: &[MemmapEntry]) -> (reclaimed: u64)
        requires
            old(self).wf(old(mem)@),
            can_reclaim(old(self), memmap@),
        ensures
            reclaimed == reclaimed_frames(memmap@, memmap@.len() as int),
            reclaim_outcome(
                old(self),
                old(mem)@,
                memmap@,
                memmap@.len() as int,
                final(self),
                final(mem)@,
            ),
    {
        let mut reclaimed: u64 = 0;
        let mut i: usize = 0;
        proof {
            self.lemma_wf(mem@);
        }
        while i < memmap.len()
            invariant
                i <= memmap@.len(),
                can_reclaim(old(self), memmap@),
                reclaimed == reclaimed_frames(memmap@, i as int),
                reclaim_outcome(old(self), old(mem)@, memmap@, i as int, self, mem@),
                0 <= old(self).free_count(),
            decreases memmap@.len() - i,
        {
            let entry: MemmapEntry = memmap[i];
            let ghost mem1 = mem@;
            let ghost l1 = self.lists();
            let ghost was_free = |g: int| self.is_free(g);
            if entry.kind == MEMMAP_BOOTLOADER_RECLAIMABLE {
                let first: u64 = entry.base / FRAME_SIZE;
                let count: u64 = entry.length / FRAME_SIZE;
                proof {
                    assert forall|g: int| first <= g < first + count implies !self.is_free(g) by {
                        assert(region_holds(memmap@[i as int], g));
                        assert(!old(self).is_free(g));
                        if reclaims(memmap@, i as int, g) {
                            let j = choose|j: int|
                                0 <= j < i && reclaimable(memmap@[j]) && #[trigger] region_holds(
                                    memmap@[j],
                                    g,
                                );
                        }
                    }
                }
                self.add_range(mem, first, count);
                proof {
                    self.lemma_wf(mem@);
                }
                reclaimed = reclaimed + count;
            }
            proof {
                assert forall|g: int| #[trigger]
                    self.is_free(g) <==> old(self).is_free(g) || reclaims(
                        memmap@,
                        i + 1,
                        g,
                    ) by {
                    assert(was_free(g) <==> old(self).is_free(g) || reclaims(
                        memmap@,
                        i as int,
                        g,
                    ));
                    if reclaims(memmap@, i as int, g) {
                        let j = choose|j: int|
                            0 <= j < i && reclaimable(memmap@[j]) && #[trigger] region_holds(
                                memmap@[j],
                                g,
                            );
                        assert(0 <= j < i + 1);
                    }
                    if reclaims(memmap@, i + 1, g) && !reclaims(memmap@, i as int, g) {
                        let j = choose|j: int|
                            0 <= j < i + 1 && reclaimable(memmap@[j]) && #[trigger] region_holds(
                                memmap@[j],
                                g,
                            );
                        assert(j == i);
                    }
                    if reclaimable(entry) && region_holds(entry, g) {
                        assert(region_holds(memmap@[i as int], g));
                    }
                }
                assert forall|w: int|
                    0 <= w < old(mem)@.len() && !(w % 512 < 2 && (free_lists::covers(
                        old(self).lists(),
                        w / 512,
                    ) || free_lists::covers(self.lists(), w / 512))) implies #[trigger] mem@[w]
                    == old(mem)@[w] by {
                    if was_free(w / 512) {
                        assert(self.is_free(w / 512));
                    }
                    assert(mem1[w] == old(mem)@[w]);
                }
            }
            i = i + 1;
        }
        reclaimed
    }
}

/// Frame number of a frame-aligned address.
fn frame_index(addr: PAddr) -> (frame: u64)
    requires
        addr.0 % 4096 == 0,
    ensures
        frame == addr.0 / 4096,
{
    addr.0 / FRAME_SIZE
}

/// `after` is `before` with `value` put in `n` places from `from` on.
spec fn set_range(before: Seq<u8>, after: Seq<u8>, from: int, n: int, value: u8) -> bool {
    &&& after.len() == before.len()
    &&& forall|g: int|
        0 <= g < before.len() ==> #[trigger] after[g] == if from <= g < from + n {
            value
        } else {
            before[g]
        }
}

/// The first frame of a free block is marked with the order of its list.
proof fn lemma_block_mark(lists: Seq<Seq<int>>, map: Seq<u8>, o: int, i: int)
    requires
        consistent(lists, map),
        0 <= o < 12,
        0 <= i < lists[o].len(),
    ensures
        0 <= lists[o][i] < map.len(),
        map[lists[o][i]] == o,
{
    blocks::lemma_pages(o);
    assert(block_ok(map, lists[o][i], o));
}

/// A frame is in a free block if and only if the map marks it.
proof fn lemma_covers(lists: Seq<Seq<int>>, map: Seq<u8>, g: int)
    requires
        consistent(lists, map),
    ensures
        free_lists::covers(lists, g) <==> 0 <= g < map.len() && map[g] != ORDER_NONE,
{
    if free_lists::covers(lists, g) {
        let (o, i) = choose|o: int, i: int| #[trigger] free_lists::block_holds(lists, o, i, g);
        assert(block_ok(map, lists[o][i], o));
        assert(map[g] == o);
    }
    if 0 <= g < map.len() && map[g] != ORDER_NONE {
        let o = map[g] as int;
        blocks::lemma_block_start(g, o);
        let i = lists[o].index_of(blocks::block_start(g, o));
        assert(free_lists::block_holds(lists, o, i, g));
    }
}

/// The words that `list_push` writes.
spec fn push_words(
    before: Seq<u64>,
    after: Seq<u64>,
    list: Seq<int>,
    f: int,
    hhdm: int,
) -> bool {
    &&& after.len() == before.len()
    &&& after[f * 512] == 0
    &&& after[f * 512 + 1] == link_word(list, 0, hhdm)
    &&& list.len() > 0 ==> after[list[0] * 512] == frame_address(hhdm, f)
    &&& forall|w: int|
        0 <= w < before.len() && w != f * 512 && w != f * 512 + 1 && !(list.len() > 0 && w
            == list[0] * 512) ==> #[trigger] after[w] == before[w]
}

proof fn lemma_push_links(
    lists: Seq<Seq<int>>,
    map: Seq<u8>,
    mem: Seq<u64>,
    mem2: Seq<u64>,
    f: int,
    o: int,
    hhdm: int,
)
    requires
        consistent(lists, map),
        links_ok(lists, mem, hhdm),
        mem.len() == map.len() * 512,
        0 <= o < 12,
        0 <= f < map.len(),
        map[f] == ORDER_NONE,
        frame_address(hhdm, f) > 0,
        push_words(mem, mem2, lists[o], f, hhdm),
    ensures
        links_ok(free_lists::push_block(lists, o, f), mem2, hhdm),
{
    let l2 = free_lists::push_block(lists, o, f);
    assert forall|o2: int, i: int|
        0 <= o2 < 12 && 0 <= i < l2[o2].len() implies #[trigger] linked(
        l2,
        mem2,
        hhdm,
        o2,
        i,
    ) by {
        let g = l2[o2][i];
        if lists[o].len() > 0 {
            lemma_block_mark(lists, map, o, 0);
        }
        if o2 == o && i == 0 {
            assert(lists[o].len() > 0 ==> l2[o][1] == lists[o][0]);
        } else {
            let j = if o2 == o { i - 1 } else { i };
            assert(g == lists[o2][j]);
            lemma_block_mark(lists, map, o2, j);
            assert(linked(lists, mem, hhdm, o2, j));
            assert(j + 1 < lists[o2].len() ==> l2[o2][i + 1] == lists[o2][j + 1]);
            assert(j > 0 ==> l2[o2][i - 1] == lists[o2][j - 1]);
            assert(o2 == o && j > 0 ==> lists[o][0] != g);
        }
    }
}

proof fn lemma_push_consistent(
    lists: Seq<Seq<int>>,
    map: Seq<u8>,
    map2: Seq<u8>,
    f: int,
    o: int,
)
    requires
        consistent(lists, map),
        0 <= o < 12,
        0 <= f,
        f % blocks::pages(o) == 0,
        f + blocks::pages(o) <= map.len(),
        forall|g: int| f <= g < f + blocks::pages(o) ==> #[trigger] map[g] == ORDER_NONE,
        set_range(map, map2, f, blocks::pages(o), o as u8),
    ensures
        consistent(free_lists::push_block(lists, o, f), map2),
{
    let l2 = free_lists::push_block(lists, o, f);
    blocks::lemma_pages(o);
    assert forall|o2: int, i: int|
        #![trigger l2[o2][i]]
        0 <= o2 < 12 && 0 <= i < l2[o2].len() implies block_ok(map2, l2[o2][i], o2) by {
        if !(o2 == o && i == 0) {
            let j = if o2 == o { i - 1 } else { i };
            assert(l2[o2][i] == lists[o2][j]);
            assert(block_ok(map, lists[o2][j], o2));
            assert forall|g: int| lists[o2][j] <= g < lists[o2][j] + blocks::pages(o2) implies #[trigger] map2[g]
                == o2 by {
                assert(map[g] == o2);
            }
        }
    }
    assert forall|g: int| 0 <= g < map2.len() && #[trigger] map2[g] != ORDER_NONE implies map2[g]
        < 12 && l2[map2[g] as int].contains(blocks::block_start(g, map2[g] as int)) by {
        if f <= g < f + blocks::pages(o) {
            blocks::lemma_block_start_unique(f, g, o);
            assert(l2[o][0] == f);
        } else {
            let o2 = map[g] as int;
            let s = blocks::block_start(g, o2);
            assert(lists[o2].contains(s));
            let i = lists[o2].index_of(s);
            if o2 == o {
                assert(l2[o][i + 1] == s);
            } else {
                assert(l2[o2][i] == s);
            }
        }
    }
    assert forall|o2: int| 0 <= o2 < 12 implies (#[trigger] l2[o2]).no_duplicates() by {
        assert(lists[o2].no_duplicates());
        if o2 == o {
            assert forall|i: int, j: int|
                0 <= i < l2[o].len() && 0 <= j < l2[o].len() && i != j implies l2[o][i]
                != l2[o][j] by {
                if i == 0 {
                    assert(block_ok(map, lists[o][j - 1], o));
                    assert(map[lists[o][j - 1]] == o);
                } else if j == 0 {
                    assert(block_ok(map, lists[o][i - 1], o));
                    assert(map[lists[o][i - 1]] == o);
                }
            }
        }
    }
}

/// The words that `list_remove` writes.
spec fn take_words(
    before: Seq<u64>,
    after: Seq<u64>,
    l: Seq<int>,
    i: int,
    hhdm: int,
) -> bool {
    &&& after.len() == before.len()
    &&& i > 0 ==> after[l[i - 1] * 512 + 1] == link_word(l, i + 1, hhdm)
    &&& i + 1 < l.len() ==> after[l[i + 1] * 512] == link_word(l, i - 1, hhdm)
    &&& forall|w: int|
        0 <= w < before.len() && !(i > 0 && w == l[i - 1] * 512 + 1) && !(i + 1 < l.len() && w
            == l[i + 1] * 512) ==> #[trigger] after[w] == before[w]
}

proof fn lemma_take_links(
    lists: Seq<Seq<int>>,
    map: Seq<u8>,
    mem: Seq<u64>,
    mem2: Seq<u64>,
    f: int,
    o: int,
    hhdm: int,
)
    requires
        consistent(lists, map),
        links_ok(lists, mem, hhdm),
        mem.len() == map.len() * 512,
        0 <= o < 12,
        lists[o].contains(f),
        take_words(mem, mem2, lists[o], lists[o].index_of(f), hhdm),
    ensures
        links_ok(free_lists::take_block(lists, o, f), mem2, hhdm),
{
    let l = lists[o];
    let k = l.index_of(f);
    let l2 = free_lists::take_block(lists, o, f);
    assert(l.no_duplicates());
    assert forall|o2: int, i: int|
        0 <= o2 < 12 && 0 <= i < l2[o2].len() implies #[trigger] linked(
        l2,
        mem2,
        hhdm,
        o2,
        i,
    ) by {
        let j = if o2 == o && i >= k { i + 1 } else { i };
        let g = l2[o2][i];
        assert(g == lists[o2][j]);
        lemma_block_mark(lists, map, o2, j);
        assert(linked(lists, mem, hhdm, o2, j));
        if k > 0 {
            lemma_block_mark(lists, map, o, k - 1);
            assert(o2 == o && j == k - 1 <==> g == l[k - 1]);
        }
        if k + 1 < l.len() {
            lemma_block_mark(lists, map, o, k + 1);
            assert(o2 == o && j == k + 1 <==> g == l[k + 1]);
        }
        if o2 == o && j == k - 1 {
            assert(mem2[g * 512] == mem[g * 512]);
        } else if o2 == o && j == k + 1 {
            assert(mem2[g * 512 + 1] == mem[g * 512 + 1]);
        } else {
            assert(mem2[g * 512] == mem[g * 512]);
            assert(mem2[g * 512 + 1] == mem[g * 512 + 1]);
        }
    }
}

proof fn lemma_take_consistent(
    lists: Seq<Seq<int>>,
    map: Seq<u8>,
    map2: Seq<u8>,
    f: int,
    o: int,
)
    requires
        consistent(lists, map),
        0 <= o < 12,
        lists[o].contains(f),
        set_range(map, map2, f, blocks::pages(o), ORDER_NONE),
    ensures
        consistent(free_lists::take_block(lists, o, f), map2),
{
    let l = lists[o];
    let k = l.index_of(f);
    let l2 = free_lists::take_block(lists, o, f);
    assert(l.no_duplicates());
    assert(block_ok(map, lists[o][k], o));
    blocks::lemma_pages(o);
    assert forall|o2: int, i: int|
        #![trigger l2[o2][i]]
        0 <= o2 < 12 && 0 <= i < l2[o2].len() implies block_ok(map2, l2[o2][i], o2) by {
        let j = if o2 == o && i >= k { i + 1 } else { i };
        let s = l2[o2][i];
        assert(s == lists[o2][j]);
        assert(block_ok(map, lists[o2][j], o2));
        assert forall|g: int| s <= g < s + blocks::pages(o2) implies #[trigger] map2[g] == o2 by {
            assert(map[g] == o2);
            if f <= g < f + blocks::pages(o) {
                assert(map[g] == o);
                blocks::lemma_block_start_unique(f, g, o);
                blocks::lemma_block_start_unique(s, g, o);
            }
        }
    }
    assert forall|g: int| 0 <= g < map2.len() && #[trigger] map2[g] != ORDER_NONE implies map2[g]
        < 12 && l2[map2[g] as int].contains(blocks::block_start(g, map2[g] as int)) by {
        let o2 = map[g] as int;
        let s = blocks::block_start(g, o2);
        assert(lists[o2].contains(s));
        let i = lists[o2].index_of(s);
        blocks::lemma_block_start(g, o2);
        if o2 == o {
            assert(s != f);
            let j = if i > k { i - 1 } else { i };
            assert(l2[o][j] == s);
        } else {
            assert(l2[o2][i] == s);
        }
    }
    assert forall|o2: int| 0 <= o2 < 12 implies (#[trigger] l2[o2]).no_duplicates() by {
        assert(lists[o2].no_duplicates());
    }
}

/// Marking frames that were not marked adds them to the count.
proof fn lemma_count_range(before: Seq<u8>, after: Seq<u8>, from: int, n: int, value: u8)
    requires
        set_range(before, after, from, n, value),
        0 <= from,
        0 <= n,
        from + n <= before.len(),
        value != ORDER_NONE,
        forall|g: int| from <= g < from + n ==> #[trigger] before[g] == ORDER_NONE,
    ensures
        count_free(after) == count_free(before) + n,
    decreases before.len(),
{
    if before.len() > 0 {
        let b = before.drop_last();
        let a = after.drop_last();
        if n > 0 && from + n == before.len() {
            assert(after.last() == value);
            assert(before[from + n - 1] == ORDER_NONE);
            assert(set_range(b, a, from, n - 1, value));
            lemma_count_range(b, a, from, n - 1, value);
        } else if from == before.len() {
            assert(before =~= after);
        } else {
            assert(after[before.len() - 1] == before[before.len() - 1]);
            assert(set_range(b, a, from, n, value));
            lemma_count_range(b, a, from, n, value);
        }
    }
}

proof fn lemma_count_bounds(map: Seq<u8>)
    ensures
        0 <= count_free(map) <= map.len(),
    decreases map.len(),
{
    if map.len() > 0 {
        lemma_count_bounds(map.drop_last());
    }
}

proof fn lemma_count_positive(map: Seq<u8>, g: int)
    requires
        0 <= g < map.len(),
        map[g] != ORDER_NONE,
    ensures
        count_free(map) > 0,
    decreases map.len(),
{
    lemma_count_bounds(map.drop_last());
    if g < map.len() - 1 {
        lemma_count_positive(map.drop_last(), g);
    }
}

proof fn lemma_count_witness(map: Seq<u8>) -> (g: int)
    requires
        count_free(map) > 0,
    ensures
        0 <= g < map.len(),
        map[g] != ORDER_NONE,
    decreases map.len(),
{
    if map.last() != ORDER_NONE {
        map.len() - 1
    } else {
        lemma_count_witness(map.drop_last())
    }
}

proof fn lemma_count_set(map: Seq<u8>)
    ensures
        Set::new(|g: int| 0 <= g < map.len() && map[g] != ORDER_NONE).finite(),
        Set::new(|g: int| 0 <= g < map.len() && map[g] != ORDER_NONE).len() == count_free(map),
    decreases map.len(),
{
    let s = Set::new(|g: int| 0 <= g < map.len() && map[g] != ORDER_NONE);
    if map.len() == 0 {
        assert(s =~= Set::empty());
    } else {
        let m = map.drop_last();
        let t = Set::new(|g: int| 0 <= g < m.len() && m[g] != ORDER_NONE);
        lemma_count_set(m);
        if map.last() != ORDER_NONE {
            assert(s =~= t.insert(map.len() - 1));
        } else {
            assert(s =~= t);
        }
    }
}

proof fn lemma_count_none(map: Seq<u8>)
    requires
        forall|j: int| 0 <= j < map.len() ==> map[j] == ORDER_NONE,
    ensures
        count_free(map) == 0,
    decreases map.len(),
{
    if map.len() > 0 {
        lemma_count_none(map.drop_last());
    }
}
/// Puts the allocator into its place.
pub fn install(slot: &mut Option<Pmm>, pmm: Pmm)
    requires
        *old(slot) is None,
    ensures
        *final(slot) == Some(pmm),
{
    *slot = Some(pmm);
}

/// Free and total frames.
pub fn stats(slot: &Option<Pmm>) -> (r: (u64, u64))
    requires
        *slot is Some,
    ensures
        r.0 == slot.unwrap().free_count(),
        r.1 == slot.unwrap().total(),
{
    let p = slot.as_ref().unwrap();
    (p.free_frames, p.total_frames)
}

/// Allocates one frame.
pub fn alloc_frame(slot: &mut Option<Pmm>, mem: &mut [u64]) -> (r: Option<PAddr>)
    requires
        *old(slot) is Some,
        old(slot).unwrap().wf(old(mem)@),
    ensures
        *final(slot) is Some,
        alloc_outcome(&old(slot).unwrap(), old(mem)@, 0, r, &final(slot).unwrap(), final(mem)@),
{
    alloc_pages(slot, mem, 0)
}

/// Frees one frame.
pub fn free_frame(slot: &mut Option<Pmm>, mem: &mut [u64], addr: PAddr)
    requires
        *old(slot) is Some,
        can_free(&old(slot).unwrap(), old(mem)@, addr, 0),
    ensures
        *final(slot) is Some,
        free_outcome(&old(slot).unwrap(), old(mem)@, addr, 0, &final(slot).unwrap(), final(mem)@),
{
    free_pages(slot, mem, addr, 0)
}

/// Allocates a block of `2^order` frames.
pub fn alloc_pages(slot: &mut Option<Pmm>, mem: &mut [u64], order: usize) -> (r: Option<PAddr>)
    requires
        *old(slot) is Some,
        order <= MAX_ORDER,
        old(slot).unwrap().wf(old(mem)@),
    ensures
        *final(slot) is Some,
        alloc_outcome(
            &old(slot).unwrap(),
            old(mem)@,
            order as int,
            r,
            &final(slot).unwrap(),
            final(mem)@,
        ),
{
    slot.as_mut().unwrap().alloc_pages(mem, order)
}

/// Frees a block of `2^order` frames.
pub fn free_pages(slot: &mut Option<Pmm>, mem: &mut [u64], addr: PAddr, order: usize)
    requires
        *old(slot) is Some,
        can_free(&old(slot).unwrap(), old(mem)@, addr, order as int),
    ensures
        *final(slot) is Some,
        free_outcome(
            &old(slot).unwrap(),
            old(mem)@,
            addr,
            order as int,
            &final(slot).unwrap(),
            final(mem)@,
        ),
{
    slot.as_mut().unwrap().free_pages(mem, addr, order)
}

/// The region holds frames that the bootloader no longer needs.
pub open spec fn reclaimable(e: MemmapEntry) -> bool {
    e.kind == MEMMAP_BOOTLOADER_RECLAIMABLE
}

/// The frame lies in the region.
pub open spec fn region_holds(e: MemmapEntry, frame: int) -> bool {
    e.base as int / 4096 <= frame < e.base as int / 4096 + e.length as int / 4096
}

/// The frame lies in one of the first `n` reclaimable regions.
pub open spec fn reclaims(memmap: Seq<MemmapEntry>, n: int, frame: int) -> bool {
    exists|i: int| 0 <= i < n && reclaimable(memmap[i]) && #[trigger] region_holds(
        memmap[i],
        frame,
    )
}

/// Number of frames in the first `n` reclaimable regions.
pub open spec fn reclaimed_frames(memmap: Seq<MemmapEntry>, n: int) -> int
    decreases n,
{
    if n <= 0 {
        0
    } else {
        reclaimed_frames(memmap, n - 1) + if reclaimable(memmap[n - 1]) {
            memmap[n - 1].length as int / 4096
        } else {
            0
        }
    }
}

/// The free blocks after the first `n` regions were gone through.
pub open spec fn reclaim_lists(
    lists: Seq<Seq<int>>,
    memmap: Seq<MemmapEntry>,
    n: int,
) -> Seq<Seq<int>>
    decreases n,
{
    if n <= 0 {
        lists
    } else {
        let before = reclaim_lists(lists, memmap, n - 1);
        if reclaimable(memmap[n - 1]) {
            free_lists::add_range_lists(
                before,
                memmap[n - 1].base as int / 4096,
                memmap[n - 1].length as int / 4096,
            )
        } else {
            before
        }
    }
}

/// The reclaimable regions can be freed: they are in range, do not overlap, and
/// hold no free frame.
pub open spec fn can_reclaim(pmm: &Pmm, memmap: Seq<MemmapEntry>) -> bool {
    &&& forall|i: int|
        #![trigger memmap[i]]
        0 <= i < memmap.len() && reclaimable(memmap[i]) ==> {
            let first = memmap[i].base as int / 4096;
            let count = memmap[i].length as int / 4096;
            &&& first + count <= pmm.total()
            &&& count > 0 ==> pmm.hhdm() + first > 0
            &&& forall|g: int| first <= g < first + count ==> !pmm.is_free(g)
        }
    &&& forall|i: int, j: int, g: int|
        #![trigger region_holds(memmap[i], g), region_holds(memmap[j], g)]
        0 <= i < j < memmap.len() && reclaimable(memmap[i]) && reclaimable(memmap[j]) ==> !(
        region_holds(memmap[i], g) && region_holds(memmap[j], g))
}

/// What reclaiming changes.
pub open spec fn reclaim_outcome(
    pmm: &Pmm,
    mem: Seq<u64>,
    memmap: Seq<MemmapEntry>,
    n: int,
    pmm2: &Pmm,
    mem2: Seq<u64>,
) -> bool {
    &&& pmm2.wf(mem2)
    &&& pmm2.total() == pmm.total()
    &&& pmm2.hhdm() == pmm.hhdm()
    &&& pmm2.lists() == reclaim_lists(pmm.lists(), memmap, n)
    &&& forall|g: int| #[trigger]
        pmm2.is_free(g) <==> pmm.is_free(g) || reclaims(memmap, n, g)
    &&& pmm2.free_count() == pmm.free_count() + reclaimed_frames(memmap, n)
    &&& only_links_changed(mem, mem2, pmm.lists(), pmm2.lists())
}

/// Frees the memory that the bootloader used; returns the number of frames.
pub fn reclaim_bootloader(
    slot: &mut Option<Pmm>,
    mem: &mut [u64],
    memmap: &[MemmapEntry],
) -> (reclaimed: u64)
    requires
        *old(slot) is Some,
        old(slot).unwrap().wf(old(mem)@),
        can_reclaim(&old(slot).unwrap(), memmap@),
    ensures
        *final(slot) is Some,
        reclaimed == reclaimed_frames(memmap@, memmap@.len() as int),
        reclaim_outcome(
            &old(slot).unwrap(),
            old(mem)@,
            memmap@,
            memmap@.len() as int,
            &final(slot).unwrap(),
            final(mem)@,
        ),
{
    slot.as_mut().unwrap().reclaim(mem, memmap)
}

} // verus!
