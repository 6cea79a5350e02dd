//! What page tables and the heap, which share memory and free frames, keep of
//! each other.
use vstd::prelude::*;

use crate::mm::blocks;
use crate::mm::free_lists;
use crate::mm::heap;
use crate::mm::heap::{Heap, HeapView, Layout};
use crate::mm::pmm::Pmm;
use crate::mm::tables;
use crate::mm::tree::Tree;
use crate::mm::vmm;

verus! {

/// The frame belongs to the heap.
pub open spec fn heap_frame(h: HeapView, frame: int) -> bool {
    h.slabs.contains_key(frame) || exists|f: int| #[trigger] heap::large_holds(h, f, frame)
}

/// No frame is both a page table and in the heap.
pub open spec fn heap_off_tables(h: HeapView, mem: Seq<u64>, root: int) -> bool {
    forall|f: int| #[trigger] tables::is_table(mem, root, f) ==> !heap_frame(h, f)
}

/// A heap without slabs and blocks is apart from all page tables.
pub proof fn law_empty_heap_is_off_tables(mem: Seq<u64>, root: int)
    ensures
        heap_off_tables(HeapView::empty(), mem, root),
{
}

/// Mapping and unmapping leave the heap as it is: it stays well-formed and apart
/// from the page tables, and not a word of its frames changes.
pub proof fn law_paging_keeps_heap(
    heap: &Heap,
    mem: Seq<u64>,
    pmm: &Pmm,
    mem2: Seq<u64>,
    pmm2: &Pmm,
    root: int,
)
    requires
        heap.wf(mem, pmm),
        heap_off_tables(heap@, mem, root),
        vmm::confined(mem, pmm.lists(), mem2, pmm2.lists(), root),
        pmm2.wf(mem2),
        pmm2.total() == pmm.total(),
        pmm2.hhdm() == pmm.hhdm(),
    ensures
        heap.wf(mem2, pmm2),
        heap_off_tables(heap@, mem2, root),
        forall|w: int|
            0 <= w < mem.len() && heap_frame(heap@, w / 512) ==> #[trigger] mem2[w] == mem[w],
{
    let h = heap@;
    heap.lemma_wf(mem, pmm);
    pmm.lemma_wf(mem);
    assert forall|f: int| heap_frame(h, f) implies !vmm::managed(mem, pmm.lists(), root, f) by {
        if h.slabs.contains_key(f) {
            assert(!pmm.is_free(f));
        } else {
            let b = choose|b: int| #[trigger] heap::large_holds(h, b, f);
            assert(!pmm.is_free(f));
        }
        assert(tables::is_table(mem, root, f) ==> !heap_frame(h, f));
    }
    assert forall|f: int| #[trigger] tables::is_table(mem2, root, f) implies !heap_frame(h, f) by {
        assert(vmm::managed(mem2, pmm2.lists(), root, f));
    }
    assert forall|f: int| #[trigger] h.slabs.contains_key(f) implies !pmm2.is_free(f) by {
        assert(!vmm::managed(mem2, pmm2.lists(), root, f));
    }
    assert forall|f: int, g: int| #[trigger] heap::large_holds(h, f, g) implies !pmm2.is_free(
        g,
    ) by {
        assert(!vmm::managed(mem2, pmm2.lists(), root, g));
    }
    assert forall|f: int, w: int|
        #![trigger h.slabs.contains_key(f), mem2[w]]
        h.slabs.contains_key(f) && f * 512 <= w < f * 512 + 512 implies mem2[w] == mem[w] by {
        assert(w / 512 == f);
        assert(heap_frame(h, f));
        assert(0 <= f < pmm.total());
        assert(!vmm::managed(mem, pmm.lists(), root, w / 512));
    }
    heap.lemma_wf_other_memory(mem, pmm, mem2, pmm2);
}

/// The page tables after the heap has taken or freed frames: only the free
/// blocks differ.
pub open spec fn tree_kept(
    mem: Seq<u64>,
    pmm: &Pmm,
    mem2: Seq<u64>,
    pmm2: &Pmm,
    root: int,
) -> bool {
    Tree::of(mem2, root, pmm2.lists(), pmm2.free_count()) == (Tree {
        space: tables::space_of(mem, root, pmm2.free_count()),
        lists: pmm2.lists(),
        ..Tree::of(mem, root, pmm.lists(), pmm.free_count())
    })
}

/// Where no table changes or becomes free, the page tables stay as they are.
proof fn lemma_tables_kept(
    mem: Seq<u64>,
    pmm: &Pmm,
    mem2: Seq<u64>,
    pmm2: &Pmm,
    root: int,
)
    requires
        vmm::consistent(mem, pmm, root),
        pmm2.wf(mem2),
        pmm2.total() == pmm.total(),
        pmm2.hhdm() == pmm.hhdm(),
        mem2.len() == mem.len(),
        forall|f: int| #[trigger] tables::is_table(mem, root, f) ==> !pmm2.is_free(f),
        forall|w: int|
            0 <= w < mem.len() && tables::is_table(mem, root, w / 512) ==> #[trigger] mem2[w]
                == mem[w],
    ensures
        vmm::consistent(mem2, pmm2, root),
        forall|f: int| #[trigger] tables::is_table(mem2, root, f) == tables::is_table(mem, root, f),
        tree_kept(mem, pmm, mem2, pmm2, root),
{
    tables::lemma_tables_untouched(mem, mem2, root, pmm.lists(), pmm2.free_count());
    assert forall|p: Seq<int>|
        #![trigger tables::node(mem2, root, 3, p)]
        tables::node(mem2, root, 3, p) matches Some(t) ==> !free_lists::covers(
            pmm2.lists(),
            t,
        ) by {
        if let Some(t) = tables::node(mem2, root, 3, p) {
            assert(tables::node(mem, root, 3, p) == Some(t));
            assert(tables::is_table(mem, root, t));
            assert(!pmm2.is_free(t));
        }
    }
    assert(Tree::of(mem2, root, pmm2.lists(), pmm2.free_count()).dirs =~= Tree::of(
        mem,
        root,
        pmm.lists(),
        pmm.free_count(),
    ).dirs);
}

/// An allocation leaves the page tables as they are, and takes none of them.
pub proof fn law_allocating_keeps_page_tables(
    h: HeapView,
    pmm: &Pmm,
    mem: Seq<u64>,
    layout: Layout,
    r: Option<u64>,
    h2: HeapView,
    pmm2: &Pmm,
    mem2: Seq<u64>,
    root: int,
)
    requires
        h.wf(),
        vmm::consistent(mem, pmm, root),
        heap_off_tables(h, mem, root),
        pmm2.wf(mem2),
        heap::allocate_outcome(h, pmm, mem, layout, r, h2, pmm2, mem2),
    ensures
        vmm::consistent(mem2, pmm2, root),
        heap_off_tables(h2, mem2, root),
        tree_kept(mem, pmm, mem2, pmm2, root),
{
    pmm.lemma_wf(mem);
    pmm2.lemma_wf(mem2);
    lemma_tables_not_free(mem, pmm, root);
    match heap::bucket_of(layout.need()) {
        Some(b) => {
            let fresh = heap::fresh_frame(pmm);
            if let Some(f) = fresh {
                lemma_next_is_free(pmm, mem, 0);
            }
            assert forall|f: int| heap_frame(h2, f) implies heap_frame(h, f) || pmm.is_free(f) by {
                lemma_large_same(h, h2, f);
            }
        },
        None => {
            match heap::large_order(layout.need()) {
                Some(o) if free_lists::first_order(pmm.lists(), o) < 12 => {
                    let b = free_lists::alloc_frame_of(pmm.lists(), o);
                    assert forall|f: int| heap_frame(h2, f) implies heap_frame(h, f) || pmm.is_free(
                        f,
                    ) by {
                        if !h2.slabs.contains_key(f) {
                            let a = choose|a: int| #[trigger] heap::large_holds(h2, a, f);
                            if a != b {
                                assert(heap::large_holds(h, a, f));
                            }
                        }
                    }
                },
                _ => {},
            }
        },
    }
    assert forall|w: int| 0 <= w < mem.len() && tables::is_table(mem, root, w / 512) implies #[trigger] mem2[w]
        == mem[w] by {
        assert(!heap_frame(h, w / 512));
        assert(!pmm.is_free(w / 512));
        assert(!pmm2.is_free(w / 512));
        assert(!heap_frame(h2, w / 512));
    }
    lemma_tables_kept(mem, pmm, mem2, pmm2, root);
}

/// Freeing leaves the page tables as they are.
pub proof fn law_freeing_keeps_page_tables(
    h: HeapView,
    pmm: &Pmm,
    mem: Seq<u64>,
    ptr: u64,
    layout: Layout,
    h2: HeapView,
    pmm2: &Pmm,
    mem2: Seq<u64>,
    root: int,
)
    requires
        h.wf(),
        heap::frames_apart(h, pmm),
        vmm::consistent(mem, pmm, root),
        heap_off_tables(h, mem, root),
        heap::can_deallocate(h, pmm.hhdm(), ptr, layout),
        pmm2.wf(mem2),
        heap::deallocate_outcome(h, pmm, mem, ptr, layout, h2, pmm2, mem2),
    ensures
        vmm::consistent(mem2, pmm2, root),
        heap_off_tables(h2, mem2, root),
        tree_kept(mem, pmm, mem2, pmm2, root),
{
    pmm.lemma_wf(mem);
    pmm2.lemma_wf(mem2);
    lemma_tables_not_free(mem, pmm, root);
    assert forall|f: int| #[trigger] tables::is_table(mem, root, f) implies !pmm2.is_free(f) by {
        assert(!heap_frame(h, f));
        if ptr != 0 && heap::bucket_of(layout.need()) is None {
            if let Some(o) = heap::large_order(layout.need()) {
                let b = heap::ptr_frame(pmm.hhdm(), ptr);
                assert(h.large.contains_key(b));
                assert(((ptr - pmm.hhdm()) as u64) as int / 4096 == b);
                assert(!heap::large_holds(h, b, f));
                assert(!pmm.is_free(f));
            }
        }
    }
    assert forall|f: int| heap_frame(h2, f) implies heap_frame(h, f) by {
        if !h2.slabs.contains_key(f) {
            let a = choose|a: int| #[trigger] heap::large_holds(h2, a, f);
            assert(heap::large_holds(h, a, f));
        }
    }
    assert forall|w: int| 0 <= w < mem.len() && tables::is_table(mem, root, w / 512) implies #[trigger] mem2[w]
        == mem[w] by {
        assert(!heap_frame(h, w / 512));
        assert(!pmm.is_free(w / 512));
        assert(!pmm2.is_free(w / 512));
    }
    lemma_tables_kept(mem, pmm, mem2, pmm2, root);
}

proof fn lemma_tables_not_free(mem: Seq<u64>, pmm: &Pmm, root: int)
    requires
        vmm::consistent(mem, pmm, root),
    ensures
        forall|f: int| #[trigger] tables::is_table(mem, root, f) ==> !pmm.is_free(f),
{
    assert forall|f: int| #[trigger] tables::is_table(mem, root, f) implies !pmm.is_free(f) by {
        let p = choose|p: Seq<int>| #[trigger] tables::node(mem, root, 3, p) == Some(f);
    }
}

/// The block that is given out next is free.
proof fn lemma_next_is_free(pmm: &Pmm, mem: Seq<u64>, order: int)
    requires
        pmm.wf(mem),
        0 <= order,
        free_lists::first_order(pmm.lists(), order) < 12,
    ensures
        pmm.is_free(free_lists::alloc_frame_of(pmm.lists(), order)),
{
    let lists = pmm.lists();
    let c = free_lists::first_order(lists, order);
    free_lists::lemma_first_order(lists, order);
    blocks::lemma_pages_bound(c);
    assert(free_lists::block_holds(lists, c, 0, lists[c][0]));
}

proof fn lemma_large_same(h: HeapView, h2: HeapView, f: int)
    requires
        h2.large == h.large,
    ensures
        (exists|b: int| #[trigger] heap::large_holds(h2, b, f)) <==> (exists|b: int| #[trigger]
            heap::large_holds(h, b, f)),
{
    if exists|b: int| #[trigger] heap::large_holds(h2, b, f) {
        let b = choose|b: int| #[trigger] heap::large_holds(h2, b, f);
        assert(heap::large_holds(h, b, f));
    }
    if exists|b: int| #[trigger] heap::large_holds(h, b, f) {
        let b = choose|b: int| #[trigger] heap::large_holds(h, b, f);
        assert(heap::large_holds(h2, b, f));
    }
}

} // verus!
