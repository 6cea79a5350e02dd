//! What the page tables in memory mean, entry by entry, and what mapping and
//! unmapping make of them.
use vstd::prelude::*;
use vstd::set_lib::*;

use crate::mm::addr::VAddr;
use crate::mm::clone;
use crate::mm::entry;
use crate::mm::free_lists;
use crate::mm::pmm::Pmm;
use crate::mm::space;
use crate::mm::space::Space;
use crate::mm::space_laws;
use crate::mm::tables;
use crate::mm::vmm;
use crate::mm::vmm::{MapError, PageSize, TlbFlush, UnmapError, Vmm};

verus! {

/// Frame of the table that an entry refers to: bits 12 to 51 hold its address.
pub open spec fn table_of(e: u64) -> int {
    (e & 0x000F_FFFF_FFFF_F000) as int / 4096
}

/// The entry of an address in the top-level table: bits 39 to 47 are its index.
pub open spec fn entry3(mem: Seq<u64>, root: int, v: u64) -> u64 {
    mem[root * 512 + (v as int / 0x80_0000_0000) % 512]
}

/// The entry of an address in the table below: bits 30 to 38 are its index.
pub open spec fn entry2(mem: Seq<u64>, root: int, v: u64) -> u64 {
    mem[table_of(entry3(mem, root, v)) * 512 + (v as int / 0x4000_0000) % 512]
}

/// The entry of an address in the table below that: bits 21 to 29 are its index.
pub open spec fn entry1(mem: Seq<u64>, root: int, v: u64) -> u64 {
    mem[table_of(entry2(mem, root, v)) * 512 + (v as int / 0x20_0000) % 512]
}

/// The entry of an address in the lowest table: bits 12 to 20 are its index.
pub open spec fn entry0(mem: Seq<u64>, root: int, v: u64) -> u64 {
    mem[table_of(entry1(mem, root, v)) * 512 + (v as int / 0x1000) % 512]
}

/// Bit 0 of an entry says that it is in use.
pub open spec fn used(e: u64) -> bool {
    e & 1 != 0
}

/// Bit 7 of an entry above the lowest table says that it maps a page.
pub open spec fn maps_page(e: u64) -> bool {
    e & 0x80 != 0
}

/// There is a table for 1 GiB around an address.
pub open spec fn has_table2(mem: Seq<u64>, root: int, v: u64) -> bool {
    used(entry3(mem, root, v))
}

/// There is a table for 1 GiB around an address that is not one page.
pub open spec fn has_table1(mem: Seq<u64>, root: int, v: u64) -> bool {
    has_table2(mem, root, v) && used(entry2(mem, root, v)) && !maps_page(entry2(mem, root, v))
}

/// There is a table for 2 MiB around an address that are not one page.
pub open spec fn has_table0(mem: Seq<u64>, root: int, v: u64) -> bool {
    has_table1(mem, root, v) && used(entry1(mem, root, v)) && !maps_page(entry1(mem, root, v))
}

/// The address lies in a page of the given size.
pub open spec fn page_there(mem: Seq<u64>, root: int, v: u64, size: PageSize) -> bool {
    match size {
        PageSize::Huge => has_table2(mem, root, v) && used(entry2(mem, root, v)) && maps_page(
            entry2(mem, root, v),
        ),
        PageSize::Large => has_table1(mem, root, v) && used(entry1(mem, root, v)) && maps_page(
            entry1(mem, root, v),
        ),
        PageSize::Base => has_table0(mem, root, v) && used(entry0(mem, root, v)),
    }
}

/// The entry that a page of the given size would take is in use, or lies in a
/// larger page.
pub open spec fn page_taken(mem: Seq<u64>, root: int, v: u64, size: PageSize) -> bool {
    match size {
        PageSize::Huge => has_table2(mem, root, v) && used(entry2(mem, root, v)),
        PageSize::Large => page_there(mem, root, v, PageSize::Huge) || (has_table1(mem, root, v)
            && used(entry1(mem, root, v))),
        PageSize::Base => page_there(mem, root, v, PageSize::Huge) || page_there(
            mem,
            root,
            v,
            PageSize::Large,
        ) || page_there(mem, root, v, PageSize::Base),
    }
}

/// Number of tables that a page of the given size needs and that are not there.
pub open spec fn tables_missing(mem: Seq<u64>, root: int, v: u64, size: PageSize) -> int {
    let for_huge: int = if has_table2(mem, root, v) {
        0
    } else {
        1
    };
    let for_large: int = if has_table1(mem, root, v) {
        0
    } else {
        1
    };
    let for_base: int = if has_table0(mem, root, v) {
        0
    } else {
        1
    };
    match size {
        PageSize::Huge => for_huge,
        PageSize::Large => for_huge + for_large,
        PageSize::Base => for_huge + for_large + for_base,
    }
}

/// What an address space holds on the way to an address is what the entries say.
#[verifier::spinoff_prover]
proof fn lemma_entries(mem: Seq<u64>, root: int, free: int, v: u64)
    ensures
        ({
            let s = tables::space_of(mem, root, free);
            let path = space::path_of(v);
            &&& s.tables.contains(path.take(0))
            &&& !s.leaves.contains_key(path.take(1))
            &&& s.tables.contains(path.take(1)) == has_table2(mem, root, v)
            &&& s.tables.contains(path.take(2)) == has_table1(mem, root, v)
            &&& s.tables.contains(path.take(3)) == has_table0(mem, root, v)
            &&& !s.tables.contains(path.take(4))
            &&& s.leaves.contains_key(path.take(2)) == page_there(mem, root, v, PageSize::Huge)
            &&& s.leaves.contains_key(path.take(3)) == page_there(mem, root, v, PageSize::Large)
            &&& s.leaves.contains_key(path.take(4)) == page_there(mem, root, v, PageSize::Base)
            &&& s.leaves.contains_key(path.take(2)) ==> s.leaves[path.take(2)] == entry2(
                mem,
                root,
                v,
            )
            &&& s.leaves.contains_key(path.take(3)) ==> s.leaves[path.take(3)] == entry1(
                mem,
                root,
                v,
            )
            &&& s.leaves.contains_key(path.take(4)) ==> s.leaves[path.take(4)] == entry0(
                mem,
                root,
                v,
            )
            &&& has_table2(mem, root, v) ==> tables::node(mem, root, 3, path.take(1)) == Some(
                table_of(entry3(mem, root, v)),
            )
            &&& has_table1(mem, root, v) ==> tables::node(mem, root, 3, path.take(2)) == Some(
                table_of(entry2(mem, root, v)),
            )
            &&& has_table0(mem, root, v) ==> tables::node(mem, root, 3, path.take(3)) == Some(
                table_of(entry1(mem, root, v)),
            )
        }),
{
    let path = space::path_of(v);
    assert(path.take(0) =~= Seq::empty());
    assert(path.take(1) =~= path.take(0).push(path[0]));
    assert(path.take(2) =~= path.take(1).push(path[1]));
    assert(path.take(3) =~= path.take(2).push(path[2]));
    assert(path.take(4) =~= path.take(3).push(path[3]));
    assert(path.take(1).drop_last() =~= path.take(0));
    assert(path.take(2).drop_last() =~= path.take(1));
    assert(path.take(3).drop_last() =~= path.take(2));
    assert(path.take(4).drop_last() =~= path.take(3));
    tables::lemma_node_push(mem, root, 3, path.take(0), path[0]);
    tables::lemma_node_push(mem, root, 3, path.take(1), path[1]);
    tables::lemma_node_push(mem, root, 3, path.take(2), path[2]);
    tables::lemma_node_push(mem, root, 3, path.take(3), path[3]);
    assert(tables::node(mem, root, 3, path.take(0)) == Some(root));
}

/// Looking up an address walks the tables as the processor does: an address of
/// which bits 47 to 63 are not all alike leads nowhere, and neither does one on
/// whose way an entry is not in use. The entry of a page holds its physical
/// address, to which the rest of the address is added, and its flags.
pub proof fn law_translation_walks_the_tables(mem: Seq<u64>, root: int, v: u64)
    ensures
        ({
            let t = tables::space_of(mem, root, 0).translate(v);
            if 0x8000_0000_0000 <= v < 0xFFFF_8000_0000_0000 {
                t is None
            } else if page_there(mem, root, v, PageSize::Huge) {
                t == Some(
                    (
                        (entry2(mem, root, v) & 0x000F_FFFF_FFFF_F000) + v as int % 0x4000_0000,
                        entry2(mem, root, v) & 0x8000_0000_0000_0F7F,
                    ),
                )
            } else if page_there(mem, root, v, PageSize::Large) {
                t == Some(
                    (
                        (entry1(mem, root, v) & 0x000F_FFFF_FFFF_F000) + v as int % 0x20_0000,
                        entry1(mem, root, v) & 0x8000_0000_0000_0F7F,
                    ),
                )
            } else if page_there(mem, root, v, PageSize::Base) {
                t == Some(
                    (
                        (entry0(mem, root, v) & 0x000F_FFFF_FFFF_F000) + v as int % 0x1000,
                        entry0(mem, root, v) & 0x8000_0000_0000_0F7F,
                    ),
                )
            } else {
                t is None
            }
        }),
{
    lemma_entries(mem, root, 0, v);
}

/// Whether a page can be mapped: its address must have bits 47 to 63 all alike,
/// both addresses must be multiples of the page size, its entry must not be
/// taken, and there must be a frame for every table that is missing. The answer
/// tells which of these fails.
pub proof fn law_map_answer(
    vmm0: &Vmm,
    mem0: Seq<u64>,
    pmm0: &Pmm,
    flushes0: Seq<TlbFlush>,
    virt: u64,
    phys: u64,
    flags: u64,
    size: PageSize,
    r: Result<(), MapError>,
    vmm1: &Vmm,
    mem1: Seq<u64>,
    pmm1: &Pmm,
    flushes1: Seq<TlbFlush>,
)
    requires
        vmm::map_outcome(
            vmm0,
            mem0,
            pmm0,
            flushes0,
            virt,
            phys,
            flags,
            size,
            r,
            vmm1,
            mem1,
            pmm1,
            flushes1,
        ),
    ensures
        ({
            let bytes: int = match size {
                PageSize::Base => 0x1000,
                PageSize::Large => 0x20_0000,
                PageSize::Huge => 0x4000_0000,
            };
            let root = vmm0.root();
            r == (if 0x8000_0000_0000 <= virt < 0xFFFF_8000_0000_0000 {
                Err::<(), MapError>(MapError::NonCanonical)
            } else if virt as int % bytes != 0 || phys as int % bytes != 0 {
                Err(MapError::Misaligned)
            } else if page_taken(mem0, root, virt, size) {
                Err(MapError::AlreadyMapped)
            } else if tables_missing(mem0, root, virt, size) > pmm0.free_count() {
                Err(MapError::OutOfMemory)
            } else {
                Ok(())
            })
        }),
{
    lemma_map_answer(mem0, vmm0.root(), pmm0.free_count(), virt, phys, flags, size);
}

/// The number of tables that are missing.
proof fn lemma_missing(mem: Seq<u64>, root: int, free: int, virt: u64, size: PageSize)
    ensures
        tables::space_of(mem, root, free).missing(space::path_of(virt), space::depth(size))
            == tables_missing(mem, root, virt, size),
{
    lemma_entries(mem, root, free, virt);
    let s = tables::space_of(mem, root, free);
    let path = space::path_of(virt);
    assert(s.missing(path, 1) == 0);
    assert(s.missing(path, 2) == s.missing(path, 1) + if s.tables.contains(path.take(1)) {
        0int
    } else {
        1
    });
    assert(s.missing(path, 3) == s.missing(path, 2) + if s.tables.contains(path.take(2)) {
        0int
    } else {
        1
    });
    assert(s.missing(path, 4) == s.missing(path, 3) + if s.tables.contains(path.take(3)) {
        0int
    } else {
        1
    });
}

/// How many frames are free does not matter for a lookup.
proof fn lemma_translate_any_free(mem: Seq<u64>, root: int, free: int, v: u64)
    ensures
        tables::space_of(mem, root, free).translate(v) == tables::space_of(mem, root, 0).translate(
            v,
        ),
{
    assert(tables::space_of(mem, root, free).leaves =~= tables::space_of(mem, root, 0).leaves);
}

proof fn lemma_map_answer(
    mem: Seq<u64>,
    root: int,
    free: int,
    virt: u64,
    phys: u64,
    flags: u64,
    size: PageSize,
)
    ensures
        ({
            let bytes: int = match size {
                PageSize::Base => 0x1000,
                PageSize::Large => 0x20_0000,
                PageSize::Huge => 0x4000_0000,
            };
            tables::space_of(mem, root, free).map(virt, phys, flags, size).1 == (if 0x8000_0000_0000
                <= virt < 0xFFFF_8000_0000_0000 {
                Err::<(), MapError>(MapError::NonCanonical)
            } else if virt as int % bytes != 0 || phys as int % bytes != 0 {
                Err(MapError::Misaligned)
            } else if page_taken(mem, root, virt, size) {
                Err(MapError::AlreadyMapped)
            } else if tables_missing(mem, root, virt, size) > free {
                Err(MapError::OutOfMemory)
            } else {
                Ok(())
            })
        }),
{
    lemma_missing(mem, root, free, virt, size);
    lemma_taken(mem, root, free, virt, size);
}

/// Memory that holds neither tables nor free frames is left alone.
proof fn lemma_other_memory(
    mem0: Seq<u64>,
    pmm0: &Pmm,
    mem1: Seq<u64>,
    pmm1: &Pmm,
    root: int,
)
    requires
        vmm::confined(mem0, pmm0.lists(), mem1, pmm1.lists(), root),
    ensures
        forall|w: int|
            0 <= w < mem0.len() && !tables::is_table(mem0, root, w / 512) && !pmm0.is_free(w / 512)
                ==> #[trigger] mem1[w] == mem0[w],
{
    assert forall|w: int|
        0 <= w < mem0.len() && !tables::is_table(mem0, root, w / 512) && !pmm0.is_free(
            w / 512,
        ) implies #[trigger] mem1[w] == mem0[w] by {
        assert(!vmm::managed(mem0, pmm0.lists(), root, w / 512));
    }
}

/// Once a page is mapped, each of its addresses leads to the corresponding
/// physical address, with the flags asked for and bit 0 set; large and huge
/// pages take over the flags of bits 1 to 4, 8 and 63. All other addresses lead
/// where they led before. Where the page could not be mapped, all addresses do,
/// and no frame is taken.
pub proof fn law_map_effect(
    vmm0: &Vmm,
    mem0: Seq<u64>,
    pmm0: &Pmm,
    flushes0: Seq<TlbFlush>,
    virt: u64,
    phys: u64,
    flags: u64,
    size: PageSize,
    r: Result<(), MapError>,
    vmm1: &Vmm,
    mem1: Seq<u64>,
    pmm1: &Pmm,
    flushes1: Seq<TlbFlush>,
    v: u64,
)
    requires
        vmm0.wf(mem0, pmm0),
        flags & 0x8000_0000_0000_0F7F == flags,
        r is Ok ==> phys < 0x10_0000_0000_0000,
        vmm::map_outcome(
            vmm0,
            mem0,
            pmm0,
            flushes0,
            virt,
            phys,
            flags,
            size,
            r,
            vmm1,
            mem1,
            pmm1,
            flushes1,
        ),
    ensures
        ({
            let bytes: int = match size {
                PageSize::Base => 0x1000,
                PageSize::Large => 0x20_0000,
                PageSize::Huge => 0x4000_0000,
            };
            let found = if size is Base {
                flags | 1
            } else {
                (flags & 0x8000_0000_0000_011E) | 1
            };
            let before = vmm0.space(mem0, 0).translate(v);
            let after = vmm1.space(mem1, 0).translate(v);
            &&& r is Ok && virt <= v < virt + bytes ==> after == Some((phys + (v - virt), found))
            &&& r is Err || !(virt <= v < virt + bytes) ==> after == before
            &&& r is Err ==> pmm1.free_count() == pmm0.free_count() && pmm1.lists() == pmm0.lists()
                && flushes1 == flushes0
            &&& r is Ok ==> pmm1.free_count() == pmm0.free_count() - tables_missing(
                mem0,
                vmm0.root(),
                virt,
                size,
            )
            &&& r is Ok ==> flushes1.len() == flushes0.len() + 1 && flushes1.last()
                == TlbFlush::Page(virt) && flushes1.drop_last() == flushes0
            &&& forall|w: int|
                0 <= w < mem0.len() && !tables::is_table(mem0, vmm0.root(), w / 512)
                    && !pmm0.is_free(w / 512) ==> #[trigger] mem1[w] == mem0[w]
        }),
{
    lemma_other_memory(mem0, pmm0, mem1, pmm1, vmm0.root());
    let s0 = vmm0.space(mem0, pmm0.free_count());
    let s1 = vmm1.space(mem1, pmm1.free_count());
    pmm0.lemma_wf(mem0);
    tables::lemma_space_wf(mem0, vmm0.root(), pmm0.free_count());
    lemma_translate_any_free(mem0, vmm0.root(), pmm0.free_count(), v);
    lemma_translate_any_free(mem1, vmm1.root(), pmm1.free_count(), v);
    if r is Ok {
        if space_laws::in_page(v, virt, size) {
            space_laws::law_mapped_page_translates(s0, virt, phys, flags, size, v);
        } else {
            space_laws::law_map_keeps_other_pages(s0, virt, phys, flags, size, v);
        }
        lemma_missing(mem0, vmm0.root(), pmm0.free_count(), virt, size);
        assert(flushes1.drop_last() =~= flushes0);
    }
}

/// The entries that refer to the tables on the way to an address.
proof fn lemma_dirs(mem: Seq<u64>, root: int, v: u64)
    ensures
        ({
            let path = space::path_of(v);
            &&& has_table2(mem, root, v) ==> tables::dir_at(mem, root, 3, path.take(1)) == Some(
                entry3(mem, root, v),
            )
            &&& has_table1(mem, root, v) ==> tables::dir_at(mem, root, 3, path.take(2)) == Some(
                entry2(mem, root, v),
            )
            &&& has_table0(mem, root, v) ==> tables::dir_at(mem, root, 3, path.take(3)) == Some(
                entry1(mem, root, v),
            )
        }),
{
    lemma_entries(mem, root, 0, v);
    let path = space::path_of(v);
    assert(path.take(0) =~= Seq::empty());
    assert(path.take(1).drop_last() =~= path.take(0));
    assert(path.take(2).drop_last() =~= path.take(1));
    assert(path.take(3).drop_last() =~= path.take(2));
    assert(tables::node(mem, root, 3, path.take(0)) == Some(root));
}

/// The bits of the entry of a new table.
proof fn lemma_frame_entry(frame: int)
    requires
        0 <= frame < 0x100_0000_0000,
    ensures
        vmm::frame_entry(frame) & 0xFFF0_0000_0000_0FFF == 7,
{
    let a = (frame * 4096) as u64;
    assert((a | (0x1u64 | 0x2 | 0x4)) & 0xFFF0_0000_0000_0FFF == 7) by (bit_vector)
        requires
            a % 4096 == 0,
            a < 0x10_0000_0000_0000,
    ;
}

/// The entry of a table at depth `k` of a path after a page was mapped: as
/// before where the table was there, and else one of a frame that was free.
proof fn lemma_dir_after(
    vmm0: &Vmm,
    mem0: Seq<u64>,
    pmm0: &Pmm,
    flushes0: Seq<TlbFlush>,
    virt: u64,
    phys: u64,
    flags: u64,
    size: PageSize,
    vmm1: &Vmm,
    mem1: Seq<u64>,
    pmm1: &Pmm,
    flushes1: Seq<TlbFlush>,
    k: int,
)
    requires
        vmm0.wf(mem0, pmm0),
        0 < k < space::depth(size),
        vmm::map_outcome(
            vmm0,
            mem0,
            pmm0,
            flushes0,
            virt,
            phys,
            flags,
            size,
            Ok(()),
            vmm1,
            mem1,
            pmm1,
            flushes1,
        ),
    ensures
        ({
            let p = space::path_of(virt).take(k);
            &&& tables::dir_at(mem1, vmm0.root(), 3, p) is Some
            &&& tables::node(mem0, vmm0.root(), 3, p) is Some ==> tables::dir_at(
                mem1,
                vmm0.root(),
                3,
                p,
            ) == tables::dir_at(mem0, vmm0.root(), 3, p)
            &&& tables::node(mem0, vmm0.root(), 3, p) is None ==> tables::dir_at(
                mem1,
                vmm0.root(),
                3,
                p,
            ).unwrap() & 0xFFF0_0000_0000_0FFF == 7
        }),
{
    let root = vmm0.root();
    let path = space::path_of(virt);
    let p = path.take(k);
    let n = space::depth(size);
    let t0 = vmm0.tree(mem0, pmm0);
    let t1 = vmm1.tree(mem1, pmm1);
    let s0 = t0.space;
    let need = s0.missing(path, n);
    pmm0.lemma_wf(mem0);
    pmm1.lemma_wf(mem1);
    tables::lemma_space_wf(mem0, root, pmm0.free_count());
    tables::lemma_space_wf(mem1, root, pmm1.free_count());
    assert(p.len() == k);
    assert(t1.space.tables.contains(p));
    assert(t1.dirs.contains_key(p));
    assert(tables::dir_at(mem1, root, 3, p) == Some(t1.dirs[p]));
    if s0.tables.contains(p) {
        tables::lemma_dir(mem0, root, 3, p);
        assert(t0.dirs[p] == tables::dir_at(mem0, root, 3, p).unwrap());
    } else {
        let first = lemma_first_missing(s0, path, n, k);
        assert(first == n - need);
        let j = k - (n - need);
        assert(0 <= j < need);
        assert(path.take(n - need + j) == p);
        let frame = free_lists::alloc_frame_of(vmm::alloc_frames(pmm0.lists(), j), 0);
        assert(tables::node(mem1, root, 3, path.take(n - need + j)) == Some(frame));
        assert(frame * 512 + 512 <= mem1.len());
        lemma_frame_entry(frame);
    }
}

/// Where a table is missing at depth `k`, all from there down to the entry are.
proof fn lemma_first_missing(s: Space, path: Seq<int>, n: int, k: int) -> (first: int)
    requires
        s.wf(),
        0 < k < n <= path.len(),
        !s.tables.contains(path.take(k)),
    ensures
        0 < first <= k,
        first == n - s.missing(path, n),
    decreases k,
{
    assert(path.take(0) =~= Seq::empty());
    if s.tables.contains(path.take(k - 1)) {
        space::lemma_missing_exact(s, path, k - 1, n);
        k
    } else {
        lemma_first_missing(s, path, n, k - 1)
    }
}

/// The tables that are there stay in their places, and a table that is made for
/// a page can be written to and is open to user programs, so that the flags of
/// the page alone decide: its entry has bits 0, 1 and 2 set, and no other bit but
/// those of its address.
pub proof fn law_new_tables_are_open(
    vmm0: &Vmm,
    mem0: Seq<u64>,
    pmm0: &Pmm,
    flushes0: Seq<TlbFlush>,
    virt: u64,
    phys: u64,
    flags: u64,
    size: PageSize,
    vmm1: &Vmm,
    mem1: Seq<u64>,
    pmm1: &Pmm,
    flushes1: Seq<TlbFlush>,
)
    requires
        vmm0.wf(mem0, pmm0),
        vmm::map_outcome(
            vmm0,
            mem0,
            pmm0,
            flushes0,
            virt,
            phys,
            flags,
            size,
            Ok(()),
            vmm1,
            mem1,
            pmm1,
            flushes1,
        ),
    ensures
        ({
            let root = vmm0.root();
            &&& has_table2(mem1, root, virt)
            &&& if has_table2(mem0, root, virt) {
                entry3(mem1, root, virt) == entry3(mem0, root, virt)
            } else {
                entry3(mem1, root, virt) & 0xFFF0_0000_0000_0FFF == 7
            }
            &&& !(size is Huge) ==> has_table1(mem1, root, virt) && if has_table1(
                mem0,
                root,
                virt,
            ) {
                entry2(mem1, root, virt) == entry2(mem0, root, virt)
            } else {
                entry2(mem1, root, virt) & 0xFFF0_0000_0000_0FFF == 7
            }
            &&& size is Base ==> has_table0(mem1, root, virt) && if has_table0(mem0, root, virt) {
                entry1(mem1, root, virt) == entry1(mem0, root, virt)
            } else {
                entry1(mem1, root, virt) & 0xFFF0_0000_0000_0FFF == 7
            }
        }),
{
    let root = vmm0.root();
    let path = space::path_of(virt);
    lemma_entries(mem0, root, 0, virt);
    lemma_entries(mem1, root, 0, virt);
    lemma_dirs(mem0, root, virt);
    lemma_dirs(mem1, root, virt);
    tables::lemma_dir(mem1, root, 3, path.take(1));
    lemma_dir_after(
        vmm0, mem0, pmm0, flushes0, virt, phys, flags, size, vmm1, mem1, pmm1, flushes1, 1,
    );
    if !(size is Huge) {
        tables::lemma_dir(mem1, root, 3, path.take(2));
        lemma_dir_after(
            vmm0, mem0, pmm0, flushes0, virt, phys, flags, size, vmm1, mem1, pmm1, flushes1, 2,
        );
    }
    if size is Base {
        tables::lemma_dir(mem1, root, 3, path.take(3));
        lemma_dir_after(
            vmm0, mem0, pmm0, flushes0, virt, phys, flags, size, vmm1, mem1, pmm1, flushes1, 3,
        );
    }
}

/// Where a table is there before and after, on the way to whatever address, and
/// the entries that refer to tables are kept, its entry is the same.
proof fn lemma_same_dirs(mem0: Seq<u64>, mem1: Seq<u64>, root: int, v: u64)
    requires
        forall|p: Seq<int>|
            tables::dir_at(mem0, root, 3, p) is Some && #[trigger] tables::dir_at(
                mem1,
                root,
                3,
                p,
            ) is Some ==> tables::dir_at(mem1, root, 3, p) == tables::dir_at(mem0, root, 3, p),
    ensures
        has_table2(mem0, root, v) && has_table2(mem1, root, v) ==> entry3(mem1, root, v) == entry3(
            mem0,
            root,
            v,
        ),
        has_table1(mem0, root, v) && has_table1(mem1, root, v) ==> entry2(mem1, root, v) == entry2(
            mem0,
            root,
            v,
        ),
        has_table0(mem0, root, v) && has_table0(mem1, root, v) ==> entry1(mem1, root, v) == entry1(
            mem0,
            root,
            v,
        ),
{
    lemma_dirs(mem0, root, v);
    lemma_dirs(mem1, root, v);
}

/// Where an entry refers to a table on the way to an address, the table is there.
proof fn lemma_dirs_there(mem: Seq<u64>, root: int, v: u64)
    ensures
        ({
            let path = space::path_of(v);
            &&& tables::dir_at(mem, root, 3, path.take(1)) is Some ==> has_table2(mem, root, v)
            &&& tables::dir_at(mem, root, 3, path.take(2)) is Some ==> has_table1(mem, root, v)
            &&& tables::dir_at(mem, root, 3, path.take(3)) is Some ==> has_table0(mem, root, v)
        }),
{
    let path = space::path_of(v);
    lemma_entries(mem, root, 0, v);
    tables::lemma_dir(mem, root, 3, path.take(1));
    tables::lemma_dir(mem, root, 3, path.take(2));
    tables::lemma_dir(mem, root, 3, path.take(3));
}

/// Mapping a page keeps an entry that refers to a table.
proof fn lemma_map_keeps_dir(
    vmm0: &Vmm,
    mem0: Seq<u64>,
    pmm0: &Pmm,
    flushes0: Seq<TlbFlush>,
    virt: u64,
    phys: u64,
    flags: u64,
    size: PageSize,
    r: Result<(), MapError>,
    vmm1: &Vmm,
    mem1: Seq<u64>,
    pmm1: &Pmm,
    flushes1: Seq<TlbFlush>,
    p: Seq<int>,
)
    requires
        vmm::map_outcome(
            vmm0,
            mem0,
            pmm0,
            flushes0,
            virt,
            phys,
            flags,
            size,
            r,
            vmm1,
            mem1,
            pmm1,
            flushes1,
        ),
    ensures
        tables::dir_at(mem0, vmm0.root(), 3, p) is Some ==> tables::dir_at(mem1, vmm0.root(), 3, p)
            == tables::dir_at(mem0, vmm0.root(), 3, p),
{
    let root = vmm0.root();
    let t0 = vmm0.tree(mem0, pmm0);
    let t1 = vmm1.tree(mem1, pmm1);
    if tables::dir_at(mem0, root, 3, p) is Some {
        tables::lemma_dir(mem0, root, 3, p);
        assert(t0.dirs.contains_key(p));
        assert(t0.space.tables.contains(p));
        assert(t1.space.tables.contains(p));
        assert(t1.dirs.contains_key(p));
        assert(t1.dirs[p] == t0.dirs[p]);
    }
}

/// Mapping a page leaves every table that is there in place, with its entry as
/// it is.
pub proof fn law_map_keeps_tables(
    vmm0: &Vmm,
    mem0: Seq<u64>,
    pmm0: &Pmm,
    flushes0: Seq<TlbFlush>,
    virt: u64,
    phys: u64,
    flags: u64,
    size: PageSize,
    r: Result<(), MapError>,
    vmm1: &Vmm,
    mem1: Seq<u64>,
    pmm1: &Pmm,
    flushes1: Seq<TlbFlush>,
    v: u64,
)
    requires
        vmm::map_outcome(
            vmm0,
            mem0,
            pmm0,
            flushes0,
            virt,
            phys,
            flags,
            size,
            r,
            vmm1,
            mem1,
            pmm1,
            flushes1,
        ),
    ensures
        ({
            let root = vmm0.root();
            &&& has_table2(mem0, root, v) ==> has_table2(mem1, root, v) && entry3(mem1, root, v)
                == entry3(mem0, root, v)
            &&& has_table1(mem0, root, v) ==> has_table1(mem1, root, v) && entry2(mem1, root, v)
                == entry2(mem0, root, v)
            &&& has_table0(mem0, root, v) ==> has_table0(mem1, root, v) && entry1(mem1, root, v)
                == entry1(mem0, root, v)
        }),
{
    let root = vmm0.root();
    let path = space::path_of(v);
    lemma_dirs(mem0, root, v);
    lemma_map_keeps_dir(
        vmm0, mem0, pmm0, flushes0, virt, phys, flags, size, r, vmm1, mem1, pmm1, flushes1,
        path.take(1),
    );
    lemma_map_keeps_dir(
        vmm0, mem0, pmm0, flushes0, virt, phys, flags, size, r, vmm1, mem1, pmm1, flushes1,
        path.take(2),
    );
    lemma_map_keeps_dir(
        vmm0, mem0, pmm0, flushes0, virt, phys, flags, size, r, vmm1, mem1, pmm1, flushes1,
        path.take(3),
    );
    lemma_dirs_there(mem1, root, v);
    lemma_dirs(mem1, root, v);
}

/// Unmapping a page makes no table, and leaves the entry of every table that
/// stays as it is.
pub proof fn law_unmap_keeps_tables(
    vmm0: &Vmm,
    mem0: Seq<u64>,
    pmm0: &Pmm,
    flushes0: Seq<TlbFlush>,
    virt: u64,
    size: PageSize,
    r: Result<(), UnmapError>,
    vmm1: &Vmm,
    mem1: Seq<u64>,
    pmm1: &Pmm,
    flushes1: Seq<TlbFlush>,
    v: u64,
)
    requires
        vmm::unmap_outcome(
            vmm0,
            mem0,
            pmm0,
            flushes0,
            virt,
            size,
            r,
            vmm1,
            mem1,
            pmm1,
            flushes1,
        ),
    ensures
        ({
            let root = vmm0.root();
            &&& has_table2(mem1, root, v) ==> has_table2(mem0, root, v) && entry3(mem1, root, v)
                == entry3(mem0, root, v)
            &&& has_table1(mem1, root, v) ==> has_table1(mem0, root, v) && entry2(mem1, root, v)
                == entry2(mem0, root, v)
            &&& has_table0(mem1, root, v) ==> has_table0(mem0, root, v) && entry1(mem1, root, v)
                == entry1(mem0, root, v)
        }),
{
    let root = vmm0.root();
    let t0 = vmm0.tree(mem0, pmm0);
    let t1 = vmm1.tree(mem1, pmm1);
    let path = space::path_of(v);
    lemma_entries(mem0, root, pmm0.free_count(), v);
    lemma_entries(mem1, root, pmm1.free_count(), v);
    assert forall|p: Seq<int>|
        #![trigger tables::dir_at(mem1, root, 3, p)]
        tables::dir_at(mem1, root, 3, p) is Some implies tables::dir_at(mem1, root, 3, p)
        == tables::dir_at(mem0, root, 3, p) by {
        assert(t1.dirs.contains_key(p));
        if r is Ok {
            assert(t0.dirs.contains_key(p));
            assert(t1.dirs[p] == t0.dirs[p]);
        }
    }
    lemma_dirs(mem1, root, v);
    tables::lemma_dir(mem0, root, 3, path.take(1));
    tables::lemma_dir(mem0, root, 3, path.take(2));
    tables::lemma_dir(mem0, root, 3, path.take(3));
    lemma_same_dirs(mem0, mem1, root, v);
}

/// Whether a page can be unmapped: its address must have bits 47 to 63 all alike
/// and be a multiple of the page size, and there must be a page of that size.
pub proof fn law_unmap_answer(
    vmm0: &Vmm,
    mem0: Seq<u64>,
    pmm0: &Pmm,
    flushes0: Seq<TlbFlush>,
    virt: u64,
    size: PageSize,
    r: Result<(), UnmapError>,
    vmm1: &Vmm,
    mem1: Seq<u64>,
    pmm1: &Pmm,
    flushes1: Seq<TlbFlush>,
)
    requires
        vmm::unmap_outcome(
            vmm0,
            mem0,
            pmm0,
            flushes0,
            virt,
            size,
            r,
            vmm1,
            mem1,
            pmm1,
            flushes1,
        ),
    ensures
        ({
            let bytes: int = match size {
                PageSize::Base => 0x1000,
                PageSize::Large => 0x20_0000,
                PageSize::Huge => 0x4000_0000,
            };
            r == (if 0x8000_0000_0000 <= virt < 0xFFFF_8000_0000_0000 {
                Err::<(), UnmapError>(UnmapError::NonCanonical)
            } else if virt as int % bytes != 0 {
                Err(UnmapError::Misaligned)
            } else if !page_there(mem0, vmm0.root(), virt, size) {
                Err(UnmapError::NotMapped)
            } else {
                Ok(())
            })
        }),
{
    lemma_entries(mem0, vmm0.root(), pmm0.free_count(), virt);
}

/// Once a page is unmapped, none of its addresses leads anywhere; all other
/// addresses lead where they led before. The processor is told of the page, and
/// once for each table that was given back. Where the page could not be
/// unmapped, nothing changes.
pub proof fn law_unmap_effect(
    vmm0: &Vmm,
    mem0: Seq<u64>,
    pmm0: &Pmm,
    flushes0: Seq<TlbFlush>,
    virt: u64,
    size: PageSize,
    r: Result<(), UnmapError>,
    vmm1: &Vmm,
    mem1: Seq<u64>,
    pmm1: &Pmm,
    flushes1: Seq<TlbFlush>,
    v: u64,
)
    requires
        vmm0.wf(mem0, pmm0),
        vmm::unmap_outcome(
            vmm0,
            mem0,
            pmm0,
            flushes0,
            virt,
            size,
            r,
            vmm1,
            mem1,
            pmm1,
            flushes1,
        ),
    ensures
        ({
            let bytes: int = match size {
                PageSize::Base => 0x1000,
                PageSize::Large => 0x20_0000,
                PageSize::Huge => 0x4000_0000,
            };
            let given_back = pmm1.free_count() - pmm0.free_count();
            &&& r is Ok && virt <= v < virt + bytes ==> vmm1.space(mem1, 0).translate(v) is None
            &&& !(virt <= v < virt + bytes) ==> vmm1.space(mem1, 0).translate(v) == vmm0.space(
                mem0,
                0,
            ).translate(v)
            &&& r is Err ==> mem1 == mem0 && pmm1.lists() == pmm0.lists() && flushes1 == flushes0
            &&& r is Ok ==> {
                &&& given_back >= 0
                &&& flushes1.len() == flushes0.len() + 1 + given_back
                &&& flushes1.take(flushes0.len() as int) == flushes0
                &&& flushes1[flushes0.len() as int] == TlbFlush::Page(virt)
                &&& forall|i: int|
                    flushes0.len() < i < flushes1.len() ==> #[trigger] flushes1[i] == TlbFlush::All
            }
            &&& forall|w: int|
                0 <= w < mem0.len() && !tables::is_table(mem0, vmm0.root(), w / 512)
                    && !pmm0.is_free(w / 512) ==> #[trigger] mem1[w] == mem0[w]
        }),
{
    lemma_other_memory(mem0, pmm0, mem1, pmm1, vmm0.root());
    let s0 = vmm0.space(mem0, pmm0.free_count());
    pmm0.lemma_wf(mem0);
    tables::lemma_space_wf(mem0, vmm0.root(), pmm0.free_count());
    lemma_translate_any_free(mem0, vmm0.root(), pmm0.free_count(), v);
    lemma_translate_any_free(mem1, vmm1.root(), pmm1.free_count(), v);
    if r is Ok {
        if space_laws::in_page(v, virt, size) {
            space_laws::law_unmapped_page_is_gone(s0, virt, size, v);
        } else {
            space_laws::law_unmap_keeps_other_pages(s0, virt, size, v);
        }
        lemma_reclaim_frees(
            s0.without_page(space::path_of(virt).take(space::depth(size))),
            space::path_of(virt),
            space::depth(size) - 1,
        );
        assert(flushes1.take(flushes0.len() as int) =~= flushes0);
    }
}

/// Giving tables back takes no frames.
proof fn lemma_reclaim_frees(s: Space, path: Seq<int>, d: int)
    ensures
        s.reclaim_up(path, d, 0).free >= s.free,
    decreases d,
{
    if d > 0 {
        lemma_reclaim_frees(s.reclaim(path.take(d)), path, d - 1);
    }
}

/// Giving back the empty tables on a path leaves none of them empty.
proof fn lemma_reclaimed(s: Space, path: Seq<int>, d: int)
    requires
        d <= path.len(),
    ensures
        space_laws::trim_path(s.reclaim_up(path, d, 0), path, d + 1),
        forall|p: Seq<int>| #[trigger]
            s.reclaim_up(path, d, 0).tables.contains(p) ==> s.tables.contains(p),
        forall|p: Seq<int>|
            p.len() > d && #[trigger] s.tables.contains(p) ==> s.reclaim_up(
                path,
                d,
                0,
            ).tables.contains(p),
        s.reclaim_up(path, d, 0).leaves == s.leaves,
    decreases d,
{
    if d > 0 {
        let at = path.take(d);
        let s2 = s.reclaim(at);
        let s3 = s2.reclaim_up(path, d - 1, 0);
        assert(at.len() == d);
        lemma_reclaimed(s2, path, d - 1);
        assert forall|p: Seq<int>| p.len() > d && #[trigger] s.tables.contains(p) implies
            s3.tables.contains(p) by {
            assert(s2.tables.contains(p));
        }
        assert forall|k: int| 0 < k < d + 1 && #[trigger] s3.tables.contains(path.take(k)) implies
            !s3.table_empty(path.take(k)) by {
            if k == d {
                assert(s2.tables.contains(at));
                assert(!s.table_empty(at));
                let i = choose|i: int| 0 <= i < 512 && s.has(#[trigger] at.push(i));
                assert(at.push(i).len() == d + 1);
                assert(s3.has(at.push(i)));
            }
        }
    }
}

/// After a page was unmapped, no table on the way to it is empty: each that is
/// left has an entry in use.
pub proof fn law_unmap_leaves_no_empty_table(
    vmm0: &Vmm,
    mem0: Seq<u64>,
    pmm0: &Pmm,
    flushes0: Seq<TlbFlush>,
    virt: u64,
    size: PageSize,
    vmm1: &Vmm,
    mem1: Seq<u64>,
    pmm1: &Pmm,
    flushes1: Seq<TlbFlush>,
)
    requires
        vmm0.wf(mem0, pmm0),
        vmm::unmap_outcome(
            vmm0,
            mem0,
            pmm0,
            flushes0,
            virt,
            size,
            Ok(()),
            vmm1,
            mem1,
            pmm1,
            flushes1,
        ),
    ensures
        ({
            let root = vmm0.root();
            &&& has_table2(mem1, root, virt) ==> exists|i: int|
                0 <= i < 512 && used(
                    #[trigger] mem1[table_of(entry3(mem1, root, virt)) * 512 + i],
                )
            &&& !(size is Huge) && has_table1(mem1, root, virt) ==> exists|i: int|
                0 <= i < 512 && used(
                    #[trigger] mem1[table_of(entry2(mem1, root, virt)) * 512 + i],
                )
            &&& size is Base && has_table0(mem1, root, virt) ==> exists|i: int|
                0 <= i < 512 && used(
                    #[trigger] mem1[table_of(entry1(mem1, root, virt)) * 512 + i],
                )
        }),
{
    let root = vmm0.root();
    let path = space::path_of(virt);
    let n = space::depth(size);
    let s0 = vmm0.space(mem0, pmm0.free_count());
    let s1 = vmm1.space(mem1, pmm1.free_count());
    lemma_reclaimed(s0.without_page(path.take(n)), path, n - 1);
    pmm1.lemma_wf(mem1);
    lemma_entries(mem1, root, pmm1.free_count(), virt);
    if has_table2(mem1, root, virt) {
        assert(s1.tables.contains(path.take(1)));
        assert(!s1.table_empty(path.take(1)));
        lemma_used_entry(mem1, root, pmm1.free_count(), path.take(1));
    }
    if !(size is Huge) && has_table1(mem1, root, virt) {
        assert(s1.tables.contains(path.take(2)));
        assert(!s1.table_empty(path.take(2)));
        lemma_used_entry(mem1, root, pmm1.free_count(), path.take(2));
    }
    if size is Base && has_table0(mem1, root, virt) {
        assert(s1.tables.contains(path.take(3)));
        assert(!s1.table_empty(path.take(3)));
        lemma_used_entry(mem1, root, pmm1.free_count(), path.take(3));
    }
}

/// A table that is not empty has an entry in use.
proof fn lemma_used_entry(mem: Seq<u64>, root: int, free: int, path: Seq<int>)
    requires
        tables::node(mem, root, 3, path) is Some,
        !tables::space_of(mem, root, free).table_empty(path),
    ensures
        exists|i: int|
            0 <= i < 512 && used(
                #[trigger] mem[tables::node(mem, root, 3, path).unwrap() * 512 + i],
            ),
{
    let s = tables::space_of(mem, root, free);
    let t = tables::node(mem, root, 3, path).unwrap();
    let i = choose|i: int| 0 <= i < 512 && s.has(#[trigger] path.push(i));
    tables::lemma_node_push(mem, root, 3, path, i);
    assert(path.push(i).drop_last() =~= path);
    assert(used(mem[t * 512 + i]));
}

/// Once a range is mapped, each of its addresses leads to the corresponding
/// physical address; all others lead where they led before, and all do where the
/// range could not be mapped. The processor is told of each page of the range.
pub proof fn law_map_range_effect(
    vmm0: &Vmm,
    mem0: Seq<u64>,
    pmm0: &Pmm,
    flushes0: Seq<TlbFlush>,
    virt: u64,
    phys: u64,
    pages: int,
    flags: u64,
    size: PageSize,
    r: Result<(), MapError>,
    vmm1: &Vmm,
    mem1: Seq<u64>,
    pmm1: &Pmm,
    flushes1: Seq<TlbFlush>,
    v: u64,
)
    requires
        vmm0.wf(mem0, pmm0),
        pages >= 0,
        flags & 0x8000_0000_0000_0F7F == flags,
        vmm0.space(mem0, pmm0.free_count()).range_fits(virt, phys, pages, flags, size, 0),
        vmm::map_range_outcome(
            vmm0,
            mem0,
            pmm0,
            flushes0,
            virt,
            phys,
            pages,
            flags,
            size,
            r,
            vmm1,
            mem1,
            pmm1,
            flushes1,
        ),
    ensures
        ({
            let bytes: int = match size {
                PageSize::Base => 0x1000,
                PageSize::Large => 0x20_0000,
                PageSize::Huge => 0x4000_0000,
            };
            let found = if size is Base {
                flags | 1
            } else {
                (flags & 0x8000_0000_0000_011E) | 1
            };
            let before = vmm0.space(mem0, 0).translate(v);
            let after = vmm1.space(mem1, 0).translate(v);
            &&& r is Ok && virt <= v < virt + pages * bytes ==> after == Some(
                (phys + (v - virt), found),
            )
            &&& r is Err || !(virt <= v < virt + pages * bytes) ==> after == before
            &&& r is Ok ==> {
                &&& flushes1.len() == flushes0.len() + pages
                &&& flushes1.take(flushes0.len() as int) == flushes0
                &&& forall|i: int|
                    0 <= i < pages ==> #[trigger] flushes1[flushes0.len() + i] == TlbFlush::Page(
                        (virt + i * bytes) as u64,
                    )
            }
            &&& forall|w: int|
                0 <= w < mem0.len() && !tables::is_table(mem0, vmm0.root(), w / 512)
                    && !pmm0.is_free(w / 512) ==> #[trigger] mem1[w] == mem0[w]
        }),
{
    lemma_other_memory(mem0, pmm0, mem1, pmm1, vmm0.root());
    let s0 = vmm0.space(mem0, pmm0.free_count());
    pmm0.lemma_wf(mem0);
    tables::lemma_space_wf(mem0, vmm0.root(), pmm0.free_count());
    lemma_translate_any_free(mem0, vmm0.root(), pmm0.free_count(), v);
    lemma_translate_any_free(mem1, vmm1.root(), pmm1.free_count(), v);
    if r is Ok {
        if virt <= v < virt + pages * space::page_bytes(size) {
            space_laws::law_mapped_range_translates(s0, virt, phys, pages, flags, size, v);
        } else {
            space_laws::law_map_range_keeps_other_pages(s0, virt, phys, pages, flags, size, v);
        }
        lemma_range_flushes(s0, virt, phys, pages, flags, size, 0);
        assert(flushes1.take(flushes0.len() as int) =~= flushes0);
        let more = vmm::map_range_flushes(s0, virt, phys, pages, flags, size, 0);
        assert forall|i: int| 0 <= i < pages implies #[trigger] flushes1[flushes0.len() + i]
            == TlbFlush::Page((virt + i * space::page_bytes(size)) as u64) by {
            assert(flushes1[flushes0.len() + i] == more[i]);
        }
    } else {
        space_laws::law_failed_range_changes_nothing(s0, virt, phys, pages, flags, size);
        assert(s0.translate(v) == s0.translate(v));
    }
}

/// The flushes of a range that is mapped to its end.
proof fn lemma_range_flushes(
    s: Space,
    virt: u64,
    phys: u64,
    pages: int,
    flags: u64,
    size: PageSize,
    i: int,
)
    requires
        0 <= i <= pages,
        s.map_range(virt, phys, pages, flags, size, i).1 is Ok,
    ensures
        ({
            let more = vmm::map_range_flushes(s, virt, phys, pages, flags, size, i);
            &&& more.len() == pages - i
            &&& forall|j: int|
                0 <= j < pages - i ==> #[trigger] more[j] == TlbFlush::Page(
                    (virt + (i + j) * space::page_bytes(size)) as u64,
                )
        }),
    decreases pages - i,
{
    if i < pages {
        let b = space::page_bytes(size);
        let next = s.map((virt + i * b) as u64, (phys + i * b) as u64, flags, size).0;
        lemma_range_flushes(next, virt, phys, pages, flags, size, i + 1);
        let more = vmm::map_range_flushes(s, virt, phys, pages, flags, size, i);
        let rest = vmm::map_range_flushes(next, virt, phys, pages, flags, size, i + 1);
        assert forall|j: int| 0 <= j < pages - i implies #[trigger] more[j] == TlbFlush::Page(
            (virt + (i + j) * b) as u64,
        ) by {
            if j > 0 {
                assert(more[j] == rest[j - 1]);
                assert(i + 1 + (j - 1) == i + j);
            }
        }
    }
}

/// Page `j` of a range is in the way of a page that is to be mapped there.
spec fn in_the_way(s: Space, virt: u64, size: PageSize, j: int) -> bool {
    s.blocked(space::path_of(space_laws::page_at(virt, size, j)), space::depth(size))
}

/// Why a range cannot be mapped from page `i` on, in terms of what was there
/// before the first page of it was mapped.
#[verifier::rlimit(20)]
proof fn lemma_range_answer(
    base: Space,
    s: Space,
    virt: u64,
    phys: u64,
    pages: int,
    flags: u64,
    size: PageSize,
    i: int,
)
    requires
        s.wf(),
        0 <= i <= pages,
        virt + pages * space::page_bytes(size) <= u64::MAX + 1,
        phys + pages * space::page_bytes(size) <= u64::MAX + 1,
        s.free >= base.free - (space::depth(size) - 1) * i,
        forall|j: int|
            i <= j < pages && space::canonical(space_laws::page_at(virt, size, j))
                && #[trigger] in_the_way(s, virt, size, j) ==> in_the_way(base, virt, size, j),
    ensures
        match s.map_range(virt, phys, pages, flags, size, i).1 {
            Ok(_) => true,
            Err(MapError::NonCanonical) => exists|j: int|
                0 <= j < pages && !space::canonical(#[trigger] space_laws::page_at(virt, size, j)),
            Err(MapError::Misaligned) => exists|j: int|
                0 <= j < pages && (#[trigger] space_laws::page_at(virt, size, j) as int
                    % space::page_bytes(size) != 0 || space_laws::page_at(phys, size, j) as int
                    % space::page_bytes(size) != 0),
            Err(MapError::AlreadyMapped) => exists|j: int|
                0 <= j < pages && #[trigger] in_the_way(base, virt, size, j),
            Err(MapError::OutOfMemory) => base.free < (space::depth(size) - 1) * pages,
        },
    decreases pages - i,
{
    if i < pages {
        let b = space::page_bytes(size);
        let n = space::depth(size);
        let v = space_laws::page_at(virt, size, i);
        let f = space_laws::page_at(phys, size, i);
        let path = space::path_of(v);
        let r = s.map(v, f, flags, size);
        lemma_missing_at_most(s, path, n);
        assert((n - 1) * (i + 1) == (n - 1) * i + (n - 1) && (n - 1) * (i + 1) <= (n - 1) * pages)
            by (nonlinear_arith)
            requires
                n >= 1,
                i + 1 <= pages,
        ;
        if r.1 is Ok {
            let s2 = r.0;
            space_laws::law_map_keeps(s, v, f, flags, size);
            assert forall|j: int|
                i + 1 <= j < pages && space::canonical(space_laws::page_at(virt, size, j))
                    && #[trigger] in_the_way(s2, virt, size, j) implies in_the_way(
                base,
                virt,
                size,
                j,
            ) by {
                let pj = space::path_of(space_laws::page_at(virt, size, j));
                assert(pj.take(n) != path.take(n)) by {
                    assert(j * b <= pages * b - b) by (nonlinear_arith)
                        requires
                            j + 1 <= pages,
                            b > 0,
                    ;
                    assert(b >= 0x1000);
                    space_laws::lemma_pages_have_own_entries(virt, size, i, j);
                }
                assert(pj.take(n).len() == n);
                if s2.has(pj.take(n)) {
                    assert(s.has(pj.take(n)));
                } else {
                    let k = choose|k: int|
                        0 < k < n && s2.leaves.contains_key(#[trigger] pj.take(k));
                    assert(pj.take(k).len() == k);
                    assert(path.take(n).len() == n);
                    assert(s.leaves.contains_key(pj.take(k)));
                }
                assert(in_the_way(s, virt, size, j));
            }
            lemma_range_answer(base, s2, virt, phys, pages, flags, size, i + 1);
        } else {
            assert(r.1 == Err::<(), MapError>(MapError::AlreadyMapped) ==> in_the_way(
                s,
                virt,
                size,
                i,
            ));
        }
    }
}

/// No more tables are missing than there are levels above the entry.
pub proof fn lemma_missing_at_most(s: Space, path: Seq<int>, n: int)
    requires
        n >= 1,
    ensures
        0 <= s.missing(path, n) <= n - 1,
    decreases n,
{
    if n > 1 {
        lemma_missing_at_most(s, path, n - 1);
    }
}

/// When a range can be mapped: where all its addresses have bits 47 to 63 alike,
/// both addresses are multiples of the page size, no page of it is taken, and
/// there is a frame for every table that could be missing. The answer names a
/// reason that holds.
pub proof fn law_map_range_answer(
    vmm0: &Vmm,
    mem0: Seq<u64>,
    pmm0: &Pmm,
    flushes0: Seq<TlbFlush>,
    virt: u64,
    phys: u64,
    pages: int,
    flags: u64,
    size: PageSize,
    r: Result<(), MapError>,
    vmm1: &Vmm,
    mem1: Seq<u64>,
    pmm1: &Pmm,
    flushes1: Seq<TlbFlush>,
)
    requires
        vmm0.wf(mem0, pmm0),
        pages >= 0,
        ({
            let bytes: int = match size {
                PageSize::Base => 0x1000,
                PageSize::Large => 0x20_0000,
                PageSize::Huge => 0x4000_0000,
            };
            &&& virt + pages * bytes <= u64::MAX + 1
            &&& phys + pages * bytes <= u64::MAX + 1
        }),
        vmm::map_range_outcome(
            vmm0,
            mem0,
            pmm0,
            flushes0,
            virt,
            phys,
            pages,
            flags,
            size,
            r,
            vmm1,
            mem1,
            pmm1,
            flushes1,
        ),
    ensures
        ({
            let bytes: int = match size {
                PageSize::Base => 0x1000,
                PageSize::Large => 0x20_0000,
                PageSize::Huge => 0x4000_0000,
            };
            let levels: int = match size {
                PageSize::Base => 3,
                PageSize::Large => 2,
                PageSize::Huge => 1,
            };
            match r {
                Ok(_) => forall|j: int|
                    0 <= j < pages ==> {
                        let v = #[trigger] space_laws::page_at(virt, size, j);
                        &&& !(0x8000_0000_0000 <= v < 0xFFFF_8000_0000_0000)
                        &&& v as int % bytes == 0
                        &&& (phys + j * bytes) % bytes == 0
                        &&& !page_taken(mem0, vmm0.root(), v, size)
                    },
                Err(MapError::NonCanonical) => virt < 0xFFFF_8000_0000_0000 && virt + pages * bytes
                    > 0x8000_0000_0000,
                Err(MapError::Misaligned) => virt as int % bytes != 0 || phys as int % bytes != 0,
                Err(MapError::AlreadyMapped) => exists|j: int|
                    0 <= j < pages && page_taken(
                        mem0,
                        vmm0.root(),
                        #[trigger] space_laws::page_at(virt, size, j),
                        size,
                    ),
                Err(MapError::OutOfMemory) => pmm0.free_count() < levels * pages,
            }
        }),
{
    let root = vmm0.root();
    let free = pmm0.free_count();
    let s = vmm0.space(mem0, free);
    let b = space::page_bytes(size);
    let n = space::depth(size);
    pmm0.lemma_wf(mem0);
    tables::lemma_space_wf(mem0, root, free);
    lemma_range_answer(s, s, virt, phys, pages, flags, size, 0);
    match r {
        Err(MapError::NonCanonical) => {
            let j = choose|j: int|
                0 <= j < pages && !space::canonical(#[trigger] space_laws::page_at(virt, size, j));
            assert(0 <= j * b && j * b + b <= pages * b) by (nonlinear_arith)
                requires
                    0 <= j,
                    j + 1 <= pages,
                    b > 0,
            ;
        },
        Err(MapError::Misaligned) => {
            let j = choose|j: int|
                0 <= j < pages && (#[trigger] space_laws::page_at(virt, size, j) as int % b != 0
                    || space_laws::page_at(phys, size, j) as int % b != 0);
            assert(0 <= j * b && j * b + b <= pages * b) by (nonlinear_arith)
                requires
                    0 <= j,
                    j + 1 <= pages,
                    b > 0,
            ;
            vstd::arithmetic::div_mod::lemma_mod_multiples_vanish(j, virt as int, b);
            vstd::arithmetic::div_mod::lemma_mod_multiples_vanish(j, phys as int, b);
            vstd::arithmetic::mul::lemma_mul_is_commutative(j, b);
        },
        Err(MapError::AlreadyMapped) => {
            let j = choose|j: int| 0 <= j < pages && #[trigger] in_the_way(s, virt, size, j);
            lemma_taken(mem0, root, free, space_laws::page_at(virt, size, j), size);
        },
        Ok(_) => {
            lemma_range_was_open(s, virt, phys, pages, flags, size, 0);
            assert forall|j: int| 0 <= j < pages implies {
                let v = #[trigger] space_laws::page_at(virt, size, j);
                &&& !(0x8000_0000_0000 <= v < 0xFFFF_8000_0000_0000)
                &&& v as int % b == 0
                &&& (phys + j * b) % b == 0
                &&& !page_taken(mem0, root, v, size)
            } by {
                assert(can_enter(s, virt, phys, size, j));
                lemma_taken(mem0, root, free, space_laws::page_at(virt, size, j), size);
                assert(0 <= j * b && j * b + b <= pages * b) by (nonlinear_arith)
                    requires
                        0 <= j,
                        j + 1 <= pages,
                        b > 0,
                ;
            }
        },
        _ => {},
    }
}

/// Page `j` of a range can be mapped as far as its addresses and its entry go.
spec fn can_enter(s: Space, virt: u64, phys: u64, size: PageSize, j: int) -> bool {
    &&& space::canonical(space_laws::page_at(virt, size, j))
    &&& space_laws::page_at(virt, size, j) as int % space::page_bytes(size) == 0
    &&& space_laws::page_at(phys, size, j) as int % space::page_bytes(size) == 0
    &&& !in_the_way(s, virt, size, j)
}

/// Where a range is mapped from page `i` on, no page of it was taken.
proof fn lemma_range_was_open(
    s: Space,
    virt: u64,
    phys: u64,
    pages: int,
    flags: u64,
    size: PageSize,
    i: int,
)
    requires
        s.map_range(virt, phys, pages, flags, size, i).1 is Ok,
    ensures
        forall|j: int| i <= j < pages ==> #[trigger] can_enter(s, virt, phys, size, j),
    decreases pages - i,
{
    if i < pages {
        let n = space::depth(size);
        let v = space_laws::page_at(virt, size, i);
        let f = space_laws::page_at(phys, size, i);
        let s2 = s.map(v, f, flags, size).0;
        lemma_range_was_open(s2, virt, phys, pages, flags, size, i + 1);
        assert forall|j: int| i <= j < pages implies #[trigger] can_enter(
            s,
            virt,
            phys,
            size,
            j,
        ) by {
            if j > i {
                assert(can_enter(s2, virt, phys, size, j));
                let pj = space::path_of(space_laws::page_at(virt, size, j));
                if in_the_way(s, virt, size, j) {
                    if s.has(pj.take(n)) {
                        assert(s2.has(pj.take(n)));
                    } else {
                        let k = choose|k: int|
                            0 < k < n && s.leaves.contains_key(#[trigger] pj.take(k));
                        assert(s2.leaves.contains_key(pj.take(k)));
                    }
                    assert(in_the_way(s2, virt, size, j));
                }
            }
        }
    }
}

/// An entry is taken in the memory where it is in the address space.
proof fn lemma_taken(mem: Seq<u64>, root: int, free: int, virt: u64, size: PageSize)
    ensures
        tables::space_of(mem, root, free).blocked(space::path_of(virt), space::depth(size))
            == page_taken(mem, root, virt, size),
{
    lemma_entries(mem, root, free, virt);
    let s = tables::space_of(mem, root, free);
    let path = space::path_of(virt);
    let n = space::depth(size);
    if page_taken(mem, root, virt, size) && !s.has(path.take(n)) {
        if s.leaves.contains_key(path.take(2)) {
            assert(0 < 2 < n);
        } else {
            assert(s.leaves.contains_key(path.take(3)));
            assert(0 < 3 < n);
        }
    }
    if s.blocked(path, n) && !s.has(path.take(n)) {
        let k = choose|k: int| 0 < k < n && s.leaves.contains_key(#[trigger] path.take(k));
        assert(k == 1 || k == 2 || k == 3);
    }
}

/// Once a range is unmapped, none of its addresses leads anywhere; addresses
/// outside it lead where they led before, also where it could not be unmapped to
/// its end.
pub proof fn law_unmap_range_effect(
    vmm0: &Vmm,
    mem0: Seq<u64>,
    pmm0: &Pmm,
    flushes0: Seq<TlbFlush>,
    virt: u64,
    pages: int,
    size: PageSize,
    r: Result<(), UnmapError>,
    vmm1: &Vmm,
    mem1: Seq<u64>,
    pmm1: &Pmm,
    flushes1: Seq<TlbFlush>,
    v: u64,
)
    requires
        vmm0.wf(mem0, pmm0),
        vmm0.space(mem0, pmm0.free_count()).unmap_fits(virt, pages, size, 0),
        vmm::unmap_range_outcome(
            vmm0,
            mem0,
            pmm0,
            flushes0,
            virt,
            pages,
            size,
            r,
            vmm1,
            mem1,
            pmm1,
            flushes1,
        ),
    ensures
        ({
            let bytes: int = match size {
                PageSize::Base => 0x1000,
                PageSize::Large => 0x20_0000,
                PageSize::Huge => 0x4000_0000,
            };
            &&& r is Ok && virt <= v < virt + pages * bytes ==> vmm1.space(mem1, 0).translate(
                v,
            ) is None
            &&& !(virt <= v < virt + pages * bytes) ==> vmm1.space(mem1, 0).translate(v)
                == vmm0.space(mem0, 0).translate(v)
            &&& r is Ok ==> forall|i: int|
                0 <= i < pages ==> flushes1.contains(
                    TlbFlush::Page(#[trigger] space_laws::page_at(virt, size, i)),
                )
            &&& forall|w: int|
                0 <= w < mem0.len() && !tables::is_table(mem0, vmm0.root(), w / 512)
                    && !pmm0.is_free(w / 512) ==> #[trigger] mem1[w] == mem0[w]
        }),
{
    lemma_other_memory(mem0, pmm0, mem1, pmm1, vmm0.root());
    let s0 = vmm0.space(mem0, pmm0.free_count());
    pmm0.lemma_wf(mem0);
    tables::lemma_space_wf(mem0, vmm0.root(), pmm0.free_count());
    lemma_translate_any_free(mem0, vmm0.root(), pmm0.free_count(), v);
    lemma_translate_any_free(mem1, vmm1.root(), pmm1.free_count(), v);
    if r is Ok {
        assert forall|i: int| 0 <= i < pages implies flushes1.contains(
            TlbFlush::Page(#[trigger] space_laws::page_at(virt, size, i)),
        ) by {
            lemma_unmapped_is_flushed(s0, virt, pages, size, 0, i);
            let more = vmm::unmap_range_flushes(s0, virt, pages, size, 0);
            let k = choose|k: int|
                0 <= k < more.len() && more[k] == TlbFlush::Page(
                    space_laws::page_at(virt, size, i),
                );
            assert(flushes1[flushes0.len() + k] == more[k]);
        }
    }
    if virt <= v < virt + pages * space::page_bytes(size) {
        if r is Ok {
            space_laws::law_unmapped_range_is_gone(s0, virt, pages, size, v);
        }
    } else {
        space_laws::law_unmap_range_keeps_other_pages(s0, virt, pages, size, v);
    }
}

/// Each page of a range that is unmapped to its end is flushed.
proof fn lemma_unmapped_is_flushed(s: Space, virt: u64, pages: int, size: PageSize, i: int, j: int)
    requires
        i <= j < pages,
        s.unmap_range(virt, pages, size, i).1 is Ok,
    ensures
        vmm::unmap_range_flushes(s, virt, pages, size, i).contains(
            TlbFlush::Page(space_laws::page_at(virt, size, j)),
        ),
    decreases pages - i,
{
    let v = space_laws::page_at(virt, size, i);
    let next = s.unmap(v, size).0;
    let all = vmm::unmap_range_flushes(s, virt, pages, size, i);
    let front = vmm::unmap_flushes(v, next.free - s.free);
    if j == i {
        assert(all[0] == TlbFlush::Page(v));
    } else {
        lemma_unmapped_is_flushed(next, virt, pages, size, i + 1, j);
        let rest = vmm::unmap_range_flushes(next, virt, pages, size, i + 1);
        let page = TlbFlush::Page(space_laws::page_at(virt, size, j));
        let k = choose|k: int| 0 <= k < rest.len() && rest[k] == page;
        assert(all[front.len() + k] == page);
    }
}

/// Page `j` of a range is mapped and can be unmapped.
spec fn can_leave(s: Space, virt: u64, size: PageSize, j: int) -> bool {
    let v = space_laws::page_at(virt, size, j);
    &&& space::canonical(v)
    &&& v as int % space::page_bytes(size) == 0
    &&& s.leaves.contains_key(space::path_of(v).take(space::depth(size)))
}

/// A range can be unmapped from page `i` on where each page of it can.
proof fn lemma_range_leaves(s: Space, virt: u64, pages: int, size: PageSize, i: int)
    requires
        s.wf(),
        0 <= i,
        virt + pages * space::page_bytes(size) <= u64::MAX + 1,
    ensures
        s.unmap_range(virt, pages, size, i).1 is Ok <==> forall|j: int|
            i <= j < pages ==> #[trigger] can_leave(s, virt, size, j),
    decreases pages - i,
{
    if i < pages {
        let b = space::page_bytes(size);
        let n = space::depth(size);
        let v = space_laws::page_at(virt, size, i);
        let path = space::path_of(v);
        let r = s.unmap(v, size);
        assert(r.1 is Ok <==> can_leave(s, virt, size, i));
        if r.1 is Ok {
            let s2 = r.0;
            space_laws::law_unmap_keeps(s, v, size);
            space::lemma_reclaim_keeps(s.without_page(path.take(n)), path, n - 1, 0, Seq::empty());
            lemma_range_leaves(s2, virt, pages, size, i + 1);
            assert forall|j: int| i + 1 <= j < pages implies #[trigger] can_leave(
                s2,
                virt,
                size,
                j,
            ) == can_leave(s, virt, size, j) by {
                if space::canonical(space_laws::page_at(virt, size, j)) {
                    assert(j * b <= pages * b - b) by (nonlinear_arith)
                        requires
                            j + 1 <= pages,
                            b > 0,
                    ;
                    space_laws::lemma_pages_have_own_entries(virt, size, i, j);
                }
            }
            if forall|j: int| i <= j < pages ==> #[trigger] can_leave(s, virt, size, j) {
                assert forall|j: int| i + 1 <= j < pages implies #[trigger] can_leave(
                    s2,
                    virt,
                    size,
                    j,
                ) by {
                    assert(can_leave(s, virt, size, j));
                }
            }
            if forall|j: int| i + 1 <= j < pages ==> #[trigger] can_leave(s2, virt, size, j) {
                assert forall|j: int| i <= j < pages implies #[trigger] can_leave(
                    s,
                    virt,
                    size,
                    j,
                ) by {
                    if j > i {
                        assert(can_leave(s2, virt, size, j));
                    }
                }
            }
        } else {
            assert(!can_leave(s, virt, size, i));
        }
    }
}

/// A range can be unmapped exactly when there is a page of the size at each of
/// its places, each at an address whose bits 47 to 63 are all alike and that is a
/// multiple of the size.
pub proof fn law_unmap_range_answer(
    vmm0: &Vmm,
    mem0: Seq<u64>,
    pmm0: &Pmm,
    flushes0: Seq<TlbFlush>,
    virt: u64,
    pages: int,
    size: PageSize,
    r: Result<(), UnmapError>,
    vmm1: &Vmm,
    mem1: Seq<u64>,
    pmm1: &Pmm,
    flushes1: Seq<TlbFlush>,
)
    requires
        vmm0.wf(mem0, pmm0),
        ({
            let bytes: int = match size {
                PageSize::Base => 0x1000,
                PageSize::Large => 0x20_0000,
                PageSize::Huge => 0x4000_0000,
            };
            virt + pages * bytes <= u64::MAX + 1
        }),
        vmm::unmap_range_outcome(
            vmm0,
            mem0,
            pmm0,
            flushes0,
            virt,
            pages,
            size,
            r,
            vmm1,
            mem1,
            pmm1,
            flushes1,
        ),
    ensures
        ({
            let bytes: int = match size {
                PageSize::Base => 0x1000,
                PageSize::Large => 0x20_0000,
                PageSize::Huge => 0x4000_0000,
            };
            r is Ok <==> forall|j: int|
                0 <= j < pages ==> {
                    let v = #[trigger] space_laws::page_at(virt, size, j);
                    &&& !(0x8000_0000_0000 <= v < 0xFFFF_8000_0000_0000)
                    &&& v as int % bytes == 0
                    &&& page_there(mem0, vmm0.root(), v, size)
                }
        }),
{
    let root = vmm0.root();
    let free = pmm0.free_count();
    let s = vmm0.space(mem0, free);
    let b = space::page_bytes(size);
    pmm0.lemma_wf(mem0);
    tables::lemma_space_wf(mem0, root, free);
    lemma_range_leaves(s, virt, pages, size, 0);
    assert forall|j: int| #[trigger]
        can_leave(s, virt, size, j) == ({
            let v = space_laws::page_at(virt, size, j);
            &&& !(0x8000_0000_0000 <= v < 0xFFFF_8000_0000_0000)
            &&& v as int % b == 0
            &&& page_there(mem0, root, v, size)
        }) by {
        lemma_entries(mem0, root, free, space_laws::page_at(virt, size, j));
    }
    if r is Ok {
        assert forall|j: int| 0 <= j < pages implies {
            let v = #[trigger] space_laws::page_at(virt, size, j);
            &&& !(0x8000_0000_0000 <= v < 0xFFFF_8000_0000_0000)
            &&& v as int % b == 0
            &&& page_there(mem0, root, v, size)
        } by {
            assert(can_leave(s, virt, size, j));
        }
    } else {
        let j = choose|j: int| 0 <= j < pages && !#[trigger] can_leave(s, virt, size, j);
        let v = space_laws::page_at(virt, size, j);
        assert(!(!(0x8000_0000_0000 <= v < 0xFFFF_8000_0000_0000) && v as int % b == 0
            && page_there(mem0, root, v, size)));
    }
}

/// A page is mapped in the direct map at its physical address plus the offset.
/// Whether that can be done, and what it makes of every address, is as for any
/// other page.
pub proof fn law_direct_map(
    vmm0: &Vmm,
    mem0: Seq<u64>,
    pmm0: &Pmm,
    flushes0: Seq<TlbFlush>,
    hhdm_offset: u64,
    phys: u64,
    flags: u64,
    size: PageSize,
    r: Result<VAddr, MapError>,
    vmm1: &Vmm,
    mem1: Seq<u64>,
    pmm1: &Pmm,
    flushes1: Seq<TlbFlush>,
    v: u64,
)
    requires
        vmm0.wf(mem0, pmm0),
        phys + hhdm_offset <= u64::MAX,
        flags & 0x8000_0000_0000_0F7F == flags,
        r is Ok ==> phys < 0x10_0000_0000_0000,
        vmm::map_hhdm_outcome(
            vmm0,
            mem0,
            pmm0,
            flushes0,
            hhdm_offset,
            phys,
            flags,
            size,
            r,
            vmm1,
            mem1,
            pmm1,
            flushes1,
        ),
    ensures
        ({
            let bytes: int = match size {
                PageSize::Base => 0x1000,
                PageSize::Large => 0x20_0000,
                PageSize::Huge => 0x4000_0000,
            };
            let found = if size is Base {
                flags | 1
            } else {
                (flags & 0x8000_0000_0000_011E) | 1
            };
            let virt = (phys + hhdm_offset) as u64;
            let root = vmm0.root();
            let before = vmm0.space(mem0, 0).translate(v);
            let after = vmm1.space(mem1, 0).translate(v);
            &&& r == (if 0x8000_0000_0000 <= virt < 0xFFFF_8000_0000_0000 {
                Err::<VAddr, MapError>(MapError::NonCanonical)
            } else if virt as int % bytes != 0 || phys as int % bytes != 0 {
                Err(MapError::Misaligned)
            } else if page_taken(mem0, root, virt, size) {
                Err(MapError::AlreadyMapped)
            } else if tables_missing(mem0, root, virt, size) > pmm0.free_count() {
                Err(MapError::OutOfMemory)
            } else {
                Ok(VAddr(virt))
            })
            &&& r is Ok && virt <= v < virt + bytes ==> after == Some((phys + (v - virt), found))
            &&& r is Err || !(virt <= v < virt + bytes) ==> after == before
            &&& r is Ok ==> flushes1 == flushes0.push(TlbFlush::Page(virt))
            &&& r is Err ==> flushes1 == flushes0 && pmm1.lists() == pmm0.lists()
            &&& forall|w: int|
                0 <= w < mem0.len() && !tables::is_table(mem0, vmm0.root(), w / 512)
                    && !pmm0.is_free(w / 512) ==> #[trigger] mem1[w] == mem0[w]
        }),
{
    lemma_other_memory(mem0, pmm0, mem1, pmm1, vmm0.root());
    let virt = (phys + hhdm_offset) as u64;
    let s0 = vmm0.space(mem0, pmm0.free_count());
    pmm0.lemma_wf(mem0);
    tables::lemma_space_wf(mem0, vmm0.root(), pmm0.free_count());
    lemma_translate_any_free(mem0, vmm0.root(), pmm0.free_count(), v);
    lemma_translate_any_free(mem1, vmm1.root(), pmm1.free_count(), v);
    lemma_map_answer(mem0, vmm0.root(), pmm0.free_count(), virt, phys, flags, size);
    if r is Ok {
        if space_laws::in_page(v, virt, size) {
            space_laws::law_mapped_page_translates(s0, virt, phys, flags, size, v);
        } else {
            space_laws::law_map_keeps_other_pages(s0, virt, phys, flags, size, v);
        }
    }
}

/// Device registers are mapped present, writable, uncached, with writes going
/// through, and never executed: bits 0, 1, 3, 4 and 63.
pub proof fn law_device_flags()
    ensures
        vmm::device_flags() == 0x8000_0000_0000_001B,
{
    assert((0x1u64 | 0x2 | 0x8000_0000_0000_0000 | 0x10 | 0x8) & 0x8000_0000_0000_0F7F
        == 0x8000_0000_0000_001B) by (bit_vector);
}

/// The value of CR3 that makes a copy of the tables the current one holds the
/// address of the copy, and all other bits as they were.
pub proof fn law_new_cr3(top: u64, old_cr3: u64, cr3: u64)
    requires
        top % 4096 == 0,
        top < 0x10_0000_0000_0000,
        cr3 == top | (old_cr3 & !entry::ENTRY_ADDR_MASK),
    ensures
        cr3 & 0x000F_FFFF_FFFF_F000 == top,
        cr3 & 0xFFF0_0000_0000_0FFF == old_cr3 & 0xFFF0_0000_0000_0FFF,
{
    assert(cr3 & 0x000F_FFFF_FFFF_F000 == top && cr3 & 0xFFF0_0000_0000_0FFF == old_cr3
        & 0xFFF0_0000_0000_0FFF) by (bit_vector)
        requires
            top % 4096 == 0,
            top < 0x10_0000_0000_0000,
            cr3 == top | (old_cr3 & !0x000F_FFFF_FFFF_F000u64),
    ;
}

/// The tables below the first `i` entries of a table, by their paths.
spec fn paths_below(mem: Seq<u64>, f: int, level: int, i: int) -> Set<Seq<int>> {
    Set::new(
        |p: Seq<int>| p.len() > 0 && p[0] < i && tables::node(mem, f, level, p) is Some,
    )
}

/// The tables below the first `i` entries of a table are counted.
proof fn lemma_tables_counted(mem: Seq<u64>, f: int, level: int, i: int)
    requires
        0 <= i <= 512,
    ensures
        paths_below(mem, f, level, i).finite(),
        paths_below(mem, f, level, i).len() == clone::tables_below(mem, f, level, i),
    decreases level, i,
{
    let all = paths_below(mem, f, level, i);
    if i == 0 {
        assert(all =~= Set::empty()) by {
            assert forall|p: Seq<int>| !all.contains(p) by {}
        }
    } else {
        lemma_tables_counted(mem, f, level, i - 1);
        let before = paths_below(mem, f, level, i - 1);
        let e = mem[f * 512 + (i - 1)];
        if entry::is_dir(e, level) {
            let c = entry::entry_frame(e);
            lemma_tables_counted(mem, c, level - 1, 512);
            let inner = paths_below(mem, c, level - 1, 512).insert(Seq::empty());
            let step = |p: Seq<int>| seq![i - 1] + p;
            let outer = inner.map(step);
            assert(vstd::relations::injective_on(step, inner)) by {
                assert forall|p: Seq<int>, q: Seq<int>|
                    inner.contains(p) && inner.contains(q) && #[trigger] step(p) == #[trigger] step(
                        q,
                    ) implies p == q by {
                    assert(p =~= step(p).drop_first());
                    assert(q =~= step(q).drop_first());
                }
            }
            lemma_map_size(inner, outer, step);
            assert forall|p: Seq<int>| #[trigger] all.contains(p) == (before + outer).contains(
                p,
            ) by {
                if all.contains(p) && p[0] == i - 1 {
                    let q = p.drop_first();
                    assert(step(q) =~= p);
                    if q.len() > 0 {
                        assert(tables::node(mem, c, level - 1, q) is Some);
                        assert(0 <= q[0] < 512);
                    } else {
                        assert(q =~= Seq::empty());
                    }
                    assert(inner.contains(q));
                    assert(outer.contains(step(q)));
                }
                if outer.contains(p) {
                    let q = choose|q: Seq<int>| inner.contains(q) && step(q) == p;
                    assert(p[0] == i - 1);
                    assert(p.drop_first() =~= q);
                    if q.len() == 0 {
                        assert(tables::node(mem, c, level - 1, q) == Some(c));
                    }
                    assert(tables::node(mem, f, level, p) is Some);
                }
            }
            assert(all =~= before + outer);
            assert(before.disjoint(outer)) by {
                assert forall|p: Seq<int>| before.contains(p) implies !outer.contains(p) by {
                    if outer.contains(p) {
                        let q = choose|q: Seq<int>| inner.contains(q) && step(q) == p;
                        assert(p[0] == i - 1);
                    }
                }
            }
            lemma_set_disjoint_lens(before, outer);
            assert(!paths_below(mem, c, level - 1, 512).contains(Seq::empty()));
        } else {
            assert(all =~= before) by {
                assert forall|p: Seq<int>| #[trigger] all.contains(p) == before.contains(p) by {
                    if all.contains(p) && p[0] == i - 1 {
                        assert(tables::node(mem, f, level, p) is None);
                    }
                }
            }
        }
    }
}

/// Copying an address space takes one frame for each of its tables.
pub proof fn law_a_copy_takes_a_frame_per_table(mem: Seq<u64>, root: int)
    ensures
        1 + clone::tables_below(mem, root, 3, 512) == tables::space_of(mem, root, 0).tables.len(),
{
    lemma_tables_counted(mem, root, 3, 512);
    let below = paths_below(mem, root, 3, 512);
    let all = tables::space_of(mem, root, 0).tables;
    assert forall|p: Seq<int>| #[trigger] all.contains(p) == below.insert(Seq::empty()).contains(
        p,
    ) by {
        if p.len() == 0 {
            assert(p =~= Seq::empty());
        }
    }
    assert(all =~= below.insert(Seq::empty()));
}

/// A copy of the page tables leads every address where the tables that it was
/// made of lead it.
pub proof fn law_copied_tables_lead_alike(mem: Seq<u64>, root: int, mem2: Seq<u64>, root2: int, v: u64)
    requires
        tables::space_of(mem2, root2, 0) == tables::space_of(mem, root, 0),
    ensures
        page_there(mem2, root2, v, PageSize::Base) == page_there(mem, root, v, PageSize::Base),
        page_there(mem2, root2, v, PageSize::Large) == page_there(mem, root, v, PageSize::Large),
        page_there(mem2, root2, v, PageSize::Huge) == page_there(mem, root, v, PageSize::Huge),
        page_there(mem, root, v, PageSize::Base) ==> entry0(mem2, root2, v) == entry0(
            mem,
            root,
            v,
        ),
        page_there(mem, root, v, PageSize::Large) ==> entry1(mem2, root2, v) == entry1(
            mem,
            root,
            v,
        ),
        page_there(mem, root, v, PageSize::Huge) ==> entry2(mem2, root2, v) == entry2(
            mem,
            root,
            v,
        ),
{
    lemma_entries(mem, root, 0, v);
    lemma_entries(mem2, root2, 0, v);
}

/// A copy of a table, entry by entry: one that is not in use is zero, one that
/// maps a page is the same, and one that refers to a table has the same bits but
/// for the address, which is that of a copy of the table.
pub proof fn law_copied_entries(
    mem2: Seq<u64>,
    d: int,
    mem: Seq<u64>,
    f: int,
    level: int,
    lists: Seq<Seq<int>>,
    j: int,
)
    requires
        0 <= level <= 3,
        0 <= j < 512,
        clone::copied(mem2, d, mem, f, level, lists),
    ensures
        ({
            let e = mem[f * 512 + j];
            let e2 = mem2[d * 512 + j];
            &&& !used(e) ==> e2 == 0
            &&& used(e) && (level == 0 || (level < 3 && maps_page(e))) ==> e2 == e
            &&& used(e) && (level == 3 || (level > 0 && !maps_page(e))) ==> {
                &&& e2 & 0xFFF0_0000_0000_0FFF == e & 0xFFF0_0000_0000_0FFF
                &&& exists|l: Seq<Seq<int>>| #[trigger]
                    clone::copied(mem2, table_of(e2), mem, table_of(e), level - 1, l)
            }
        }),
{
    let e = clone::slot(mem, f, j);
    let e2 = clone::slot(mem2, d, j);
    if entry::is_dir(e, level) {
        assert(e2 & 0xFFF0_0000_0000_0FFF == e & 0xFFF0_0000_0000_0FFF) by (bit_vector)
            requires
                e2 == (e2 & 0x000F_FFFF_FFFF_F000) | (e & !0x000F_FFFF_FFFF_F000u64),
        ;
        let l = clone::child_lists(lists, mem, f, level, j);
        assert(clone::copied(mem2, table_of(e2), mem, table_of(e), level - 1, l));
    }
}

/// A page of device memory: whether it can be mapped, and where its addresses
/// then lead.
pub proof fn lemma_device_page(
    mem: Seq<u64>,
    root: int,
    free: int,
    virt: u64,
    phys: u64,
    mem2: Seq<u64>,
    free2: int,
    v: u64,
)
    requires
        free >= 0,
        phys < 0x10_0000_0000_0000,
        virt <= v,
        tables::space_of(mem2, root, free2) == tables::space_of(mem, root, free).map(
            virt,
            phys,
            0x8000_0000_0000_001B,
            PageSize::Base,
        ).0,
    ensures
        tables::space_of(mem, root, free).map(
            virt,
            phys,
            0x8000_0000_0000_001B,
            PageSize::Base,
        ).1 is Ok <==> !(0x8000_0000_0000 <= virt < 0xFFFF_8000_0000_0000) && virt % 0x1000 == 0
            && phys % 0x1000 == 0 && !page_taken(mem, root, virt, PageSize::Base)
            && tables_missing(mem, root, virt, PageSize::Base) <= free,
        tables::space_of(mem, root, free).map(
            virt,
            phys,
            0x8000_0000_0000_001B,
            PageSize::Base,
        ).1 is Ok && v < virt + 0x1000 ==> tables::space_of(mem2, root, 0).translate(v) == Some(
            (phys + (v - virt), 0x8000_0000_0000_001Bu64),
        ),
{
    let flags = 0x8000_0000_0000_001Bu64;
    let s = tables::space_of(mem, root, free);
    assert(flags | 1 == flags && flags & 0x8000_0000_0000_0F7F == flags) by (bit_vector)
        requires
            flags == 0x8000_0000_0000_001B,
    ;
    tables::lemma_space_wf(mem, root, free);
    lemma_map_answer(mem, root, free, virt, phys, flags, PageSize::Base);
    lemma_translate_any_free(mem2, root, free2, v);
    if s.map(virt, phys, flags, PageSize::Base).1 is Ok && v < virt + 0x1000 {
        space_laws::law_mapped_page_translates(s, virt, phys, flags, PageSize::Base, v);
    }
}

/// Where the addresses of a range of large pages of device memory lead.
pub proof fn lemma_device_range(
    mem: Seq<u64>,
    root: int,
    free: int,
    virt: u64,
    phys: u64,
    pages: int,
    mem2: Seq<u64>,
    free2: int,
    v: u64,
)
    requires
        free >= 0,
        tables::space_of(mem, root, free).range_fits(
            virt,
            phys,
            pages,
            vmm::device_flags(),
            PageSize::Large,
            0,
        ),
        tables::space_of(mem, root, free).map_range(
            virt,
            phys,
            pages,
            vmm::device_flags(),
            PageSize::Large,
            0,
        ).1 is Ok,
        tables::space_of(mem2, root, free2) == tables::space_of(mem, root, free).map_range(
            virt,
            phys,
            pages,
            vmm::device_flags(),
            PageSize::Large,
            0,
        ).0,
        virt <= v < virt + pages * 0x20_0000,
    ensures
        tables::space_of(mem2, root, 0).translate(v) == Some(
            (phys + (v - virt), 0x8000_0000_0000_001Bu64),
        ),
{
    let flags = vmm::device_flags();
    law_device_flags();
    assert((flags & 0x8000_0000_0000_011E) | 1 == flags && flags & 0x8000_0000_0000_0F7F == flags)
        by (bit_vector)
        requires
            flags == 0x8000_0000_0000_001B,
    ;
    let s = tables::space_of(mem, root, free);
    tables::lemma_space_wf(mem, root, free);
    lemma_translate_any_free(mem2, root, free2, v);
    space_laws::law_mapped_range_translates(s, virt, phys, pages, flags, PageSize::Large, v);
}

} // verus!
