//! Virtual memory: four-level page tables.
use vstd::prelude::*;

use crate::mm::addr::{PAddr, VAddr};
use crate::mm::blocks;
use crate::mm::clone;
use crate::mm::entry;
use crate::mm::free_lists;
use crate::mm::page_laws;
use crate::mm::pmm::Pmm;
use crate::mm::space;
use crate::mm::space::Space;
use crate::mm::tables;
use crate::mm::tree;
use crate::mm::tree::Tree;

verus! {

/// Size of a page.
#[derive(Debug, Copy, Clone, PartialEq, Eq, Structural)]
pub enum PageSize {
    /// 4 KiB.
    Base,
    /// 2 MiB.
    Large,
    /// 1 GiB.
    Huge,
}

/// Why a page could not be mapped.
#[derive(Debug, Copy, Clone, PartialEq, Eq, Structural)]
pub enum MapError {
    /// The address is mapped already.
    AlreadyMapped,
    /// There is no frame for a page table.
    OutOfMemory,
    /// The virtual address is not canonical.
    NonCanonical,
    /// An address is not a multiple of the page size.
    Misaligned,
}

/// Why a page could not be unmapped.
#[derive(Debug, Copy, Clone, PartialEq, Eq, Structural)]
pub enum UnmapError {
    /// No page of that size is mapped there.
    NotMapped,
    /// The virtual address is not canonical.
    NonCanonical,
    /// The address is not a multiple of the page size.
    Misaligned,
}

/// Why the page tables could not be taken over.
#[derive(Debug, Copy, Clone, PartialEq, Eq, Structural)]
pub enum VmmError {
    /// There are too few frames for a copy of the tables.
    OutOfFrames,
}

impl PageSize {
    /// Bytes in a page of this size.
    pub fn bytes(self) -> (r: u64)
        ensures
            r == space::page_bytes(self),
            r == (match self {
                PageSize::Base => 0x1000,
                PageSize::Large => 0x20_0000,
                PageSize::Huge => 0x4000_0000u64,
            }),
    {
        match self {
            PageSize::Base => 0x1000,
            PageSize::Large => 0x20_0000,
            PageSize::Huge => 0x4000_0000,
        }
    }

    /// Level of the table whose entries map pages of this size.
    fn level(self) -> (r: u8)
        ensures
            r == 4 - space::depth(self),
    {
        match self {
            PageSize::Base => 0,
            PageSize::Large => 1,
            PageSize::Huge => 2,
        }
    }
}

/// Flags of a page.
#[derive(Debug, Copy, Clone, PartialEq, Eq, Structural)]
pub struct PTFlags {
    bits: u64,
}

impl PTFlags {
    #[verifier::type_invariant]
    spec fn known(self) -> bool {
        self.bits & entry::PT_FLAGS_ALL == self.bits
    }

    /// The flags as bits of an entry.
    pub closed spec fn view(&self) -> u64 {
        self.bits
    }

    /// The flags among the given bits; other bits are dropped.
    pub fn from_bits_truncate(bits: u64) -> (r: Self)
        ensures
            r@ == bits & entry::PT_FLAGS_ALL,
            r@ == bits & 0x8000_0000_0000_0F7F,
    {
        proof {
            assert((bits & 0x8000_0000_0000_0F7F) & 0x8000_0000_0000_0F7F == bits
                & 0x8000_0000_0000_0F7F) by (bit_vector);
        }
        PTFlags { bits: entry::pt_flags(bits) }
    }

    /// The flags as bits of an entry.
    pub fn bits(self) -> (r: u64)
        ensures
            r == self@,
            r & entry::PT_FLAGS_ALL == r,
            r & 0x8000_0000_0000_0F7F == r,
    {
        proof {
            use_type_invariant(&self);
        }
        self.bits
    }
}

/// A change of the tables that the processor may have cached.
#[derive(Debug, Copy, Clone, PartialEq, Eq, Structural)]
pub enum TlbFlush {
    /// The page that holds this address has changed.
    Page(u64),
    /// Any page may have changed.
    All,
}

/// Flags of pages that device registers are mapped with.
pub open spec fn device_flags() -> u64 {
    (entry::P | entry::RW | entry::XD | entry::PCD | entry::PWT) & entry::PT_FLAGS_ALL
}

/// Flags of pages that device registers are mapped with.
pub fn device_page_flags() -> (flags: PTFlags)
    ensures
        flags@ == device_flags(),
        flags@ == 0x8000_0000_0000_001B,
{
    proof {
        page_laws::law_device_flags();
    }
    PTFlags::from_bits_truncate(entry::P | entry::RW | entry::XD | entry::PCD | entry::PWT)
}

/// The address is sign-extended from bit 47.
fn is_canonical(virt: VAddr) -> (r: bool)
    ensures
        r == space::canonical(virt.0),
{
    let v: u64 = virt.0;
    let hi: u64 = v >> 47;
    proof {
        assert((v >> 47 == 0 <==> v < 0x8000_0000_0000) && (v >> 47 == 0x1_ffff <==> v
            >= 0xFFFF_8000_0000_0000)) by (bit_vector);
    }
    hi == 0 || hi == 0x1_ffff
}

/// Index of an address into the table of the given level.
fn index_at(virt: VAddr, level: u8) -> (r: usize)
    requires
        level <= 3,
    ensures
        r == entry::level_index(virt.0, level as int),
        r == space::path_of(virt.0)[3 - level],
        r < 512,
{
    if level == 3 {
        entry::pml4_index(virt)
    } else if level == 2 {
        entry::pdpt_index(virt)
    } else if level == 1 {
        entry::pd_index(virt)
    } else {
        entry::pt_index(virt)
    }
}

/// Whether an entry of a table of the given level is in use.
fn is_present(e: u64, level: u8) -> (r: bool)
    requires
        level <= 3,
    ensures
        r == entry::present(e),
{
    if level == 3 {
        entry::pml4_entry_is_present(e)
    } else if level == 2 {
        entry::pdpt_entry_is_present(e)
    } else if level == 1 {
        entry::pd_entry_is_present(e)
    } else {
        entry::pt_entry_is_present(e)
    }
}

/// Whether an entry of a table of the given level, above the lowest, maps a
/// page if it is in use.
fn is_page(e: u64, level: u8) -> (r: bool)
    requires
        1 <= level <= 3,
    ensures
        r == (level <= 2 && entry::page_bit(e)),
{
    if level == 3 {
        false
    } else if level == 2 {
        entry::pdpt_entry_is_page(e)
    } else {
        entry::pd_entry_is_page(e)
    }
}

/// Address that an entry of a table of the given level holds.
fn address_of(e: u64, level: u8) -> (r: PAddr)
    requires
        level <= 3,
    ensures
        r.0 == entry::entry_addr(e),
        r.0 % 4096 == 0,
        r.0 < 0x10_0000_0000_0000,
        r.0 as int / 4096 == entry::entry_frame(e),
{
    proof {
        entry::lemma_address_field(e);
    }
    if level == 3 {
        PAddr(entry::pml4_entry_address(e))
    } else if level == 2 {
        PAddr(entry::pdpt_entry_address(e))
    } else if level == 1 {
        PAddr(entry::pd_entry_address(e))
    } else {
        PAddr(entry::pt_entry_address(e))
    }
}

/// Entry of a table of the given level that refers to the table in a frame.
fn table_entry(frame: PAddr, level: u8) -> (e: u64)
    requires
        1 <= level <= 3,
        frame.0 % 4096 == 0,
        frame.0 < 0x10_0000_0000_0000,
    ensures
        e == frame.0 | (entry::P | entry::RW | entry::US),
        entry::is_dir(e, level as int),
        !entry::is_leaf(e, level as int),
        entry::entry_frame(e) == frame.0 as int / 4096,
{
    let flags: u64 = entry::P | entry::RW | entry::US;
    proof {
        assert(flags == 7 && flags & 0x000F_FFFF_FFFF_F000 == 0 && flags & 1 != 0 && flags & 0x80
            == 0 && flags & 0x8000_0000_0000_0E3F == flags && flags & 0x8000_0000_0000_1FFF
            == flags) by (bit_vector)
            requires
                flags == 0x1u64 | 0x2 | 0x4,
        ;
        entry::lemma_address_field(frame.0);
        entry::lemma_entry_parts(frame.0, flags);
    }
    if level == 3 {
        entry::pml4_entry(frame.0, flags)
    } else if level == 2 {
        entry::pdpt_entry(frame.0, flags)
    } else {
        entry::pd_entry(frame.0, flags)
    }
}

/// The flags of the entry that maps a page.
proof fn lemma_page_flags(flags: u64, size: PageSize)
    requires
        flags & entry::PT_FLAGS_ALL == flags,
    ensures
        ({
            let all = space::page_flags(flags, size);
            &&& all & entry::ENTRY_ADDR_MASK == 0
            &&& entry::present(all)
            &&& size is Base ==> all & entry::PT_FLAGS_ALL == all
            &&& size !is Base ==> all & entry::PD_FLAGS_ALL == all && entry::page_bit(all)
        }),
{
    let f = flags;
    if size is Base {
        assert((f | 1) & 0x000F_FFFF_FFFF_F000 == 0 && (f | 1) & 1 != 0 && (f | 1)
            & 0x8000_0000_0000_0F7F == (f | 1)) by (bit_vector)
            requires
                f & 0x8000_0000_0000_0F7F == f,
        ;
    } else {
        let g = (f & 0x8000_0000_0000_011E) | 1 | 0x80;
        assert(g & 0x000F_FFFF_FFFF_F000 == 0 && g & 1 != 0 && g & 0x80 != 0 && g
            & 0x8000_0000_0000_1FFF == g) by (bit_vector)
            requires
                g == (f & 0x8000_0000_0000_011E) | 1 | 0x80,
        ;
    }
}

/// Entry that maps a page.
fn page_entry(phys: PAddr, flags: PTFlags, size: PageSize) -> (e: u64)
    requires
        phys.0 as int % space::page_bytes(size) == 0,
        phys.0 < 0x10_0000_0000_0000,
    ensures
        e == space::page_entry(phys.0, flags@, size),
        entry::is_leaf(e, 4 - space::depth(size)),
{
    let bits: u64 = flags.bits();
    proof {
        lemma_page_flags(bits, size);
        entry::lemma_address_field(phys.0);
        entry::lemma_entry_parts(phys.0, space::page_flags(bits, size));
    }
    match size {
        PageSize::Base => entry::pt_entry(phys.0, bits | entry::P),
        PageSize::Large => entry::pd_entry(
            phys.0,
            (bits & space::LEAF_FLAGS) | entry::P | entry::PS,
        ),
        PageSize::Huge => entry::pdpt_entry(
            phys.0,
            (bits & space::LEAF_FLAGS) | entry::P | entry::PS,
        ),
    }
}

/// Entry of the table in a frame.
pub(crate) fn read_entry(mem: &[u64], table: PAddr, index: usize) -> (e: u64)
    requires
        table.0 as int / 4096 * 512 + 512 <= mem@.len(),
        index < 512,
    ensures
        e == mem@[table.0 as int / 4096 * 512 + index],
{
    let n: usize = mem.len();
    mem[(table.0 / 4096 * 512) as usize + index]
}

/// Writes an entry of the table in a frame.
pub(crate) fn write_entry(mem: &mut [u64], table: PAddr, index: usize, e: u64)
    requires
        table.0 as int / 4096 * 512 + 512 <= old(mem)@.len(),
        index < 512,
    ensures
        final(mem)@ == old(mem)@.update(table.0 as int / 4096 * 512 + index, e),
{
    let n: usize = mem.len();
    mem[(table.0 / 4096 * 512) as usize + index] = e;
}

/// Clears all entries of the table in a frame.
pub(crate) fn zero_frame(mem: &mut [u64], frame: PAddr)
    requires
        frame.0 as int / 4096 * 512 + 512 <= old(mem)@.len(),
    ensures
        final(mem)@.len() == old(mem)@.len(),
        forall|w: int|
            0 <= w < old(mem)@.len() ==> #[trigger] final(mem)@[w] == (if w / 512
                == frame.0 as int / 4096 {
                0
            } else {
                old(mem)@[w]
            }),
{
    let n: usize = mem.len();
    let first: usize = (frame.0 / 4096 * 512) as usize;
    let mut i: usize = 0;
    while i < 512
        invariant
            i <= 512,
            first == frame.0 as int / 4096 * 512,
            first + 512 <= mem@.len(),
            mem@.len() == n,
            mem@.len() == old(mem)@.len(),
            forall|w: int|
                0 <= w < old(mem)@.len() ==> #[trigger] mem@[w] == (if first <= w < first + i {
                    0
                } else {
                    old(mem)@[w]
                }),
        decreases 512 - i,
    {
        mem[first + i] = 0;
        i = i + 1;
    }
    assert forall|w: int| 0 <= w < old(mem)@.len() implies #[trigger] mem@[w] == (if w / 512
        == frame.0 as int / 4096 {
        0
    } else {
        old(mem)@[w]
    }) by {
        assert(w / 512 == frame.0 as int / 4096 <==> first <= w < first + 512);
    }
}

/// Whether no entry of the table in a frame is in use.
fn is_empty(mem: &[u64], table: PAddr) -> (r: bool)
    requires
        table.0 as int / 4096 * 512 + 512 <= mem@.len(),
    ensures
        r == tables::unused(mem@, table.0 as int / 4096),
{
    let ghost t = table.0 as int / 4096;
    let mut i: usize = 0;
    while i < 512
        invariant
            i <= 512,
            t == table.0 as int / 4096,
            t * 512 + 512 <= mem@.len(),
            forall|j: int| 0 <= j < i ==> !entry::present(#[trigger] mem@[t * 512 + j]),
        decreases 512 - i,
    {
        let e: u64 = read_entry(mem, table, i);
        if e & 1 != 0 {
            assert(entry::present(mem@[t * 512 + i]));
            return false;
        }
        i = i + 1;
    }
    true
}

/// What the allocator holds after it has given out `n` single frames.
pub open spec fn alloc_frames(lists: Seq<Seq<int>>, n: int) -> Seq<Seq<int>>
    decreases n,
{
    if n <= 0 {
        lists
    } else {
        alloc_frames(free_lists::alloc_lists(lists, 0), n - 1)
    }
}

/// The `need` tables on the way to the entry at depth `n` of a path are in the
/// frames that the allocator gives out next, and freeing each of them undoes
/// that.
pub open spec fn tables_from(
    lists: Seq<Seq<int>>,
    mem: Seq<u64>,
    root: int,
    path: Seq<int>,
    n: int,
    need: int,
) -> bool {
    forall|j: int|
        #![trigger tables::node(mem, root, 3, path.take(n - need + j))]
        0 <= j < need ==> {
            let frame = free_lists::alloc_frame_of(alloc_frames(lists, j), 0);
            &&& tables::node(mem, root, 3, path.take(n - need + j)) == Some(frame)
            &&& free_lists::free_lists_of(alloc_frames(lists, j + 1), frame, 0) == alloc_frames(
                lists,
                j,
            )
        }
}

/// The memory, the allocator and the tables below a root fit together.
pub open spec fn consistent(mem: Seq<u64>, pmm: &Pmm, root: int) -> bool {
    &&& pmm.wf(mem)
    &&& pmm.total() <= 0x100_0000_0000
    &&& tables::tables_ok(mem, root, pmm.lists())
    &&& pmm.hhdm() == 0 ==> !tables::is_table(mem, root, 0)
}

/// The frame is a table or free.
pub open spec fn managed(mem: Seq<u64>, lists: Seq<Seq<int>>, root: int, frame: int) -> bool {
    tables::is_table(mem, root, frame) || free_lists::covers(lists, frame)
}

/// Frames move between tables and free frames only, and all others are left
/// alone.
pub open spec fn confined(
    before: Seq<u64>,
    lists: Seq<Seq<int>>,
    after: Seq<u64>,
    lists2: Seq<Seq<int>>,
    root: int,
) -> bool {
    &&& after.len() == before.len()
    &&& forall|f: int| #[trigger] managed(after, lists2, root, f) == managed(before, lists, root, f)
    &&& forall|w: int|
        0 <= w < before.len() && !managed(before, lists, root, w / 512) ==> #[trigger] after[w]
            == before[w]
}

/// Two changes that keep within the managed frames make one that does.
pub proof fn lemma_confined(
    m0: Seq<u64>,
    l0: Seq<Seq<int>>,
    m1: Seq<u64>,
    l1: Seq<Seq<int>>,
    m2: Seq<u64>,
    l2: Seq<Seq<int>>,
    root: int,
)
    requires
        confined(m0, l0, m1, l1, root),
        confined(m1, l1, m2, l2, root),
    ensures
        confined(m0, l0, m2, l2, root),
{
    assert forall|f: int| #[trigger] managed(m2, l2, root, f) == managed(m0, l0, root, f) by {
        assert(managed(m1, l1, root, f) == managed(m0, l0, root, f));
    }
    assert forall|w: int| 0 <= w < m0.len() && !managed(m0, l0, root, w / 512) implies #[trigger] m2[w]
        == m0[w] by {
        assert(!managed(m1, l1, root, w / 512));
        assert(m1[w] == m0[w]);
    }
}

/// Entry that refers to the table in a frame.
pub open spec fn frame_entry(frame: int) -> u64 {
    (frame * 4096) as u64 | (entry::P | entry::RW | entry::US)
}

/// The entry at a path that refers to a table after a page was entered at depth
/// `n` of `path`, where `need` tables were missing and `e` is the entry before.
pub open spec fn dir_after_map(
    lists: Seq<Seq<int>>,
    path: Seq<int>,
    n: int,
    need: int,
    p: Seq<int>,
    e: Option<u64>,
) -> Option<u64> {
    if n - need <= p.len() < n && p == path.take(p.len() as int) {
        Some(frame_entry(free_lists::alloc_frame_of(alloc_frames(lists, p.len() - (n - need)), 0)))
    } else {
        e
    }
}

/// Tables stay in their frames.
pub open spec fn tables_stay(before: Seq<u64>, after: Seq<u64>, root: int) -> bool {
    forall|p: Seq<int>|
        #![trigger tables::node(after, root, 3, p)]
        tables::node(before, root, 3, p) is Some ==> tables::node(after, root, 3, p)
            == tables::node(before, root, 3, p)
}

/// Makes a table that an unused entry then refers to.
fn make_table(
    mem: &mut [u64],
    pmm: &mut Pmm,
    Ghost(root): Ghost<int>,
    Ghost(at): Ghost<Seq<int>>,
    table: PAddr,
    index: usize,
    level: u8,
) -> (r: Option<PAddr>)
    requires
        consistent(old(mem)@, old(pmm), root),
        tables::node(old(mem)@, root, 3, at) == Some(table.0 as int / 4096),
        index < 512,
        1 <= level == 3 - at.len(),
        !entry::present(old(mem)@[table.0 as int / 4096 * 512 + index]),
    ensures
        consistent(final(mem)@, final(pmm), root),
        final(pmm).total() == old(pmm).total(),
        final(pmm).hhdm() == old(pmm).hhdm(),
        r is None <==> old(pmm).free_count() == 0,
        r is None ==> final(mem)@ == old(mem)@ && final(pmm).lists() == old(pmm).lists()
            && final(pmm).free_count() == old(pmm).free_count(),
        r matches Some(frame) ==> {
            let g = frame.0 as int / 4096;
            let here = at.push(index as int);
            let s = tables::space_of(old(mem)@, root, old(pmm).free_count());
            &&& frame.0 % 4096 == 0
            &&& g == free_lists::alloc_frame_of(old(pmm).lists(), 0)
            &&& final(pmm).lists() == free_lists::alloc_lists(old(pmm).lists(), 0)
            &&& free_lists::free_lists_of(final(pmm).lists(), g, 0) == old(pmm).lists()
            &&& final(pmm).free_count() == old(pmm).free_count() - 1
            &&& forall|f: int| final(pmm).is_free(f) <==> old(pmm).is_free(f) && f != g
            &&& old(pmm).is_free(g)
            &&& tables::unused(final(mem)@, g)
            &&& !s.has(here)
            &&& tables::space_of(final(mem)@, root, final(pmm).free_count()) == (Space {
                tables: s.tables.insert(here),
                free: s.free - 1,
                ..s
            })
            &&& forall|p: Seq<int>| #[trigger]
                tables::node(final(mem)@, root, 3, p) == (if p == here {
                    Some(g)
                } else {
                    tables::node(old(mem)@, root, 3, p)
                })
            &&& forall|p: Seq<int>| #[trigger]
                tables::dir_at(final(mem)@, root, 3, p) == (if p == here {
                    Some(frame_entry(g))
                } else {
                    tables::dir_at(old(mem)@, root, 3, p)
                })
            &&& forall|f: int| #[trigger]
                tables::is_table(final(mem)@, root, f) == (f == g || tables::is_table(
                    old(mem)@,
                    root,
                    f,
                ))
            &&& confined(old(mem)@, old(pmm).lists(), final(mem)@, final(pmm).lists(), root)
        },
{
    let ghost mem0 = mem@;
    let ghost l0 = pmm.lists();
    let ghost free0 = pmm.free_count();
    let ghost t = table.0 as int / 4096;
    let ghost total = pmm.total();
    proof {
        pmm.lemma_wf(mem0);
        blocks::lemma_single();
    }
    let frame: PAddr = match pmm.alloc_pages(mem, 0) {
        Some(f) => f,
        None => {
            return None;
        },
    };
    let ghost g = frame.0 as int / 4096;
    let ghost l1 = pmm.lists();
    let ghost free1 = pmm.free_count();
    let ghost mem1 = mem@;
    proof {
        assert(old(pmm).is_free(g));
        pmm.lemma_wf(mem1);
        free_lists::law_free_undoes_alloc(l0, 0);
        assert forall|w: int| 0 <= w < mem0.len() && tables::is_table(mem0, root, w / 512) implies #[trigger] mem1[w]
            == mem0[w] by {
            assert(!old(pmm).is_free(w / 512));
            assert(!pmm.is_free(w / 512));
        }
        tables::lemma_tables_untouched(mem0, mem1, root, l0, free1);
    }
    zero_frame(mem, frame);
    let ghost mem2 = mem@;
    proof {
        assert(!tables::is_table(mem0, root, g));
        tables::lemma_tables_untouched(mem1, mem2, root, l0, free1);
        assert forall|p: Seq<int>|
            #![trigger tables::node(mem2, root, 3, p)]
            tables::node(mem2, root, 3, p) matches Some(u) ==> !free_lists::covers(l1, u) by {
            if let Some(u) = tables::node(mem2, root, 3, p) {
                assert(!old(pmm).is_free(u));
                assert(!pmm.is_free(u));
            }
        }
        entry::lemma_zero_entry();
        assert forall|j: int| 0 <= j < 512 implies !entry::present(
            #[trigger] mem2[g * 512 + j],
        ) by {
            assert((g * 512 + j) / 512 == g);
        }
        assert(tables::unused(mem2, g));
        assert(!pmm.is_free(g));
        assert(mem2[t * 512 + index] == mem0[t * 512 + index]) by {
            assert((t * 512 + index) / 512 == t);
            assert(tables::is_table(mem0, root, t));
        }
    }
    let new: u64 = table_entry(frame, level);
    write_entry(mem, table, index, new);
    proof {
        let mem3 = mem@;
        tables::lemma_add_table(mem2, root, l1, free1, at, index as int, new);
        assert(tables::is_table(mem0, root, t));
        assert(!pmm.is_free(t));
        assert forall|w: int| 0 <= w < mem1.len() && pmm.is_free(w / 512) implies #[trigger] mem3[w]
            == mem1[w] by {
            assert(mem2[w] == mem1[w]);
        }
        pmm.lemma_wf_other_memory(mem1, mem3);
        assert(tables::unused(mem3, g)) by {
            assert forall|j: int| 0 <= j < 512 implies !entry::present(
                #[trigger] mem3[g * 512 + j],
            ) by {
                assert(mem3[g * 512 + j] == mem2[g * 512 + j]);
            }
        }
        assert forall|w: int|
            0 <= w < mem0.len() && !managed(mem0, l0, root, w / 512) implies #[trigger] mem3[w] == mem0[w] by {
            assert(!old(pmm).is_free(w / 512));
            assert(!pmm.is_free(w / 512));
            assert(mem1[w] == mem0[w]);
            assert(mem2[w] == mem1[w]);
        }
        assert forall|f: int| #[trigger]
            managed(mem3, l1, root, f) == managed(mem0, l0, root, f) by {
            assert(pmm.is_free(f) <==> old(pmm).is_free(f) && f != g);
        }
    }
    Some(frame)
}

/// Clears the entry of a table that holds nothing, and frees its frame.
fn drop_table(
    mem: &mut [u64],
    pmm: &mut Pmm,
    Ghost(root): Ghost<int>,
    Ghost(at): Ghost<Seq<int>>,
    table: PAddr,
    index: usize,
    child: PAddr,
)
    requires
        consistent(old(mem)@, old(pmm), root),
        tables::node(old(mem)@, root, 3, at) == Some(table.0 as int / 4096),
        index < 512,
        tables::node(old(mem)@, root, 3, at.push(index as int)) == Some(child.0 as int / 4096),
        child.0 % 4096 == 0,
        tables::unused(old(mem)@, child.0 as int / 4096),
    ensures
        consistent(final(mem)@, final(pmm), root),
        final(pmm).total() == old(pmm).total(),
        final(pmm).hhdm() == old(pmm).hhdm(),
        final(pmm).lists() == free_lists::free_lists_of(
            old(pmm).lists(),
            child.0 as int / 4096,
            0,
        ),
        final(pmm).free_count() == old(pmm).free_count() + 1,
        ({
            let g = child.0 as int / 4096;
            let here = at.push(index as int);
            let s = tables::space_of(old(mem)@, root, old(pmm).free_count());
            &&& tables::space_of(final(mem)@, root, final(pmm).free_count()) == (Space {
                tables: s.tables.remove(here),
                free: s.free + 1,
                ..s
            })
            &&& forall|p: Seq<int>| #[trigger]
                tables::node(final(mem)@, root, 3, p) == (if p == here {
                    None
                } else {
                    tables::node(old(mem)@, root, 3, p)
                })
            &&& forall|p: Seq<int>| #[trigger]
                tables::dir_at(final(mem)@, root, 3, p) == (if p == here {
                    None
                } else {
                    tables::dir_at(old(mem)@, root, 3, p)
                })
            &&& forall|f: int| #[trigger]
                tables::is_table(final(mem)@, root, f) == (f != g && tables::is_table(
                    old(mem)@,
                    root,
                    f,
                ))
            &&& forall|f: int| final(pmm).is_free(f) <==> old(pmm).is_free(f) || f == g
            &&& confined(old(mem)@, old(pmm).lists(), final(mem)@, final(pmm).lists(), root)
        }),
{
    let ghost mem0 = mem@;
    let ghost l0 = pmm.lists();
    let ghost g = child.0 as int / 4096;
    let ghost t = table.0 as int / 4096;
    let ghost free1 = pmm.free_count() + 1;
    let ghost here = at.push(index as int);
    proof {
        pmm.lemma_wf(mem0);
        blocks::lemma_single();
        assert(tables::is_table(mem0, root, g));
        assert(tables::is_table(mem0, root, t));
        assert(!pmm.is_free(g));
        assert(!pmm.is_free(t));
        tables::lemma_remove_table(mem0, root, l0, free1, at, index as int);
    }
    write_entry(mem, table, index, 0);
    let ghost mem1 = mem@;
    proof {
        assert forall|w: int| 0 <= w < mem0.len() && pmm.is_free(w / 512) implies #[trigger] mem1[w]
            == mem0[w] by {}
        pmm.lemma_wf_other_memory(mem0, mem1);
    }
    pmm.free_pages(mem, child, 0);
    proof {
        let mem2 = mem@;
        assert forall|w: int| 0 <= w < mem1.len() && tables::is_table(mem1, root, w / 512) implies #[trigger] mem2[w]
            == mem1[w] by {
            assert(tables::is_table(mem0, root, w / 512));
            assert(!old(pmm).is_free(w / 512));
            assert(!pmm.is_free(w / 512));
        }
        tables::lemma_tables_untouched(mem1, mem2, root, l0, free1);
        assert forall|p: Seq<int>|
            #![trigger tables::node(mem2, root, 3, p)]
            tables::node(mem2, root, 3, p) matches Some(u) ==> !free_lists::covers(
                pmm.lists(),
                u,
            ) by {
            if let Some(u) = tables::node(mem2, root, 3, p) {
                assert(tables::node(mem0, root, 3, p) == Some(u));
                assert(!old(pmm).is_free(u));
                assert(!pmm.is_free(u));
            }
        }
        assert forall|w: int|
            0 <= w < mem0.len() && !managed(mem0, l0, root, w / 512) implies #[trigger] mem2[w] == mem0[w] by {
            assert(!old(pmm).is_free(w / 512));
            assert(!pmm.is_free(w / 512));
            assert(mem1[w] == mem0[w]);
        }
        assert forall|f: int| #[trigger]
            managed(mem2, pmm.lists(), root, f) == managed(mem0, l0, root, f) by {
            assert(pmm.is_free(f) <==> old(pmm).is_free(f) || f == g);
        }
    }
}

/// A write to an entry of a table touches nothing that is free.
proof fn lemma_table_write(
    mem: Seq<u64>,
    pmm: &Pmm,
    root: int,
    at: Seq<int>,
    i: int,
    e: u64,
)
    requires
        consistent(mem, pmm, root),
        tables::node(mem, root, 3, at) is Some,
        0 <= i < 512,
    ensures
        ({
            let mem2 = mem.update(tables::node(mem, root, 3, at).unwrap() * 512 + i, e);
            &&& pmm.wf(mem2)
            &&& forall|w: int|
                0 <= w < mem.len() && !managed(mem, pmm.lists(), root, w / 512)
                    ==> #[trigger] mem2[w] == mem[w]
        }),
{
    let t = tables::node(mem, root, 3, at).unwrap();
    let mem2 = mem.update(t * 512 + i, e);
    assert(tables::is_table(mem, root, t));
    assert(!free_lists::covers(pmm.lists(), t));
    pmm.lemma_wf_other_memory(mem, mem2);
}

/// Enters a page into the tables, from the table at the given level down.
///
/// Tables that are missing are made. Where that fails, those that were made
/// are given back.
#[verifier::rlimit(40)]
fn map_at(
    mem: &mut [u64],
    pmm: &mut Pmm,
    Ghost(root): Ghost<int>,
    table: PAddr,
    level: u8,
    virt: VAddr,
    phys: PAddr,
    flags: PTFlags,
    size: PageSize,
) -> (r: Result<(), MapError>)
    requires
        consistent(old(mem)@, old(pmm), root),
        4 - space::depth(size) <= level <= 3,
        tables::node(old(mem)@, root, 3, space::path_of(virt.0).take(3 - level)) == Some(
            table.0 as int / 4096,
        ),
        phys.0 as int % space::page_bytes(size) == 0,
        tables::space_of(old(mem)@, root, old(pmm).free_count()).place(
            space::path_of(virt.0),
            space::depth(size),
            space::page_entry(phys.0, flags@, size),
        ).1 is Ok ==> phys.0 < 0x10_0000_0000_0000,
    ensures
        consistent(final(mem)@, final(pmm), root),
        final(pmm).total() == old(pmm).total(),
        final(pmm).hhdm() == old(pmm).hhdm(),
        (tables::space_of(final(mem)@, root, final(pmm).free_count()), r) == tables::space_of(
            old(mem)@,
            root,
            old(pmm).free_count(),
        ).place(
            space::path_of(virt.0),
            space::depth(size),
            space::page_entry(phys.0, flags@, size),
        ),
        confined(old(mem)@, old(pmm).lists(), final(mem)@, final(pmm).lists(), root),
        tables_stay(old(mem)@, final(mem)@, root),
        ({
            let n = space::depth(size);
            let need = tables::space_of(old(mem)@, root, old(pmm).free_count()).missing(
                space::path_of(virt.0),
                n,
            );
            &&& final(pmm).lists() == if r is Ok {
                alloc_frames(old(pmm).lists(), need)
            } else {
                old(pmm).lists()
            }
            &&& r is Ok ==> tables_from(
                old(pmm).lists(),
                final(mem)@,
                root,
                space::path_of(virt.0),
                n,
                need,
            )
            &&& forall|p: Seq<int>| #[trigger]
                tables::dir_at(final(mem)@, root, 3, p) == (if r is Ok {
                    dir_after_map(
                        old(pmm).lists(),
                        space::path_of(virt.0),
                        n,
                        need,
                        p,
                        tables::dir_at(old(mem)@, root, 3, p),
                    )
                } else {
                    tables::dir_at(old(mem)@, root, 3, p)
                })
        }),
    decreases level,
{
    let ghost path = space::path_of(virt.0);
    let ghost n = space::depth(size);
    let ghost k = 3 - level;
    let ghost at = path.take(k);
    let ghost t = table.0 as int / 4096;
    let ghost e_new = space::page_entry(phys.0, flags@, size);
    let ghost mem0 = mem@;
    let ghost l0 = pmm.lists();
    let ghost free0 = pmm.free_count();
    let ghost s0 = tables::space_of(mem0, root, free0);
    let index: usize = index_at(virt, level);
    let ghost here = path.take(k + 1);
    proof {
        assert(here =~= at.push(index as int));
        assert(at.push(index as int).drop_last() =~= at);
        pmm.lemma_wf(mem0);
        tables::lemma_space_wf(mem0, root, free0);
        tables::lemma_node_push(mem0, root, 3, at, index as int);
    }
    let e: u64 = read_entry(mem, table, index);
    if level == size.level() {
        proof {
            space::lemma_place_last(s0, path, n, e_new);
        }
        if is_present(e, level) {
            return Err(MapError::AlreadyMapped);
        }
        let new: u64 = page_entry(phys, flags, size);
        write_entry(mem, table, index, new);
        proof {
            tables::lemma_write_page(mem0, root, l0, free0, at, index as int, new);
            lemma_table_write(mem0, pmm, root, at, index as int, new);
        }
        return Ok(());
    }
    if is_present(e, level) {
        if is_page(e, level) {
            return Err(MapError::AlreadyMapped);
        }
        return map_at(
            mem,
            pmm,
            Ghost(root),
            address_of(e, level),
            level - 1,
            virt,
            phys,
            flags,
            size,
        );
    }
    let made = make_table(mem, pmm, Ghost(root), Ghost(at), table, index, level);
    let frame: PAddr = match made {
        Some(f) => f,
        None => {
            proof {
                space::lemma_place_no_room(s0, path, k, n, e_new);
            }
            return Err(MapError::OutOfMemory);
        },
    };
    let ghost g = frame.0 as int / 4096;
    let ghost l1 = pmm.lists();
    let ghost mem1 = mem@;
    let ghost s1 = tables::space_of(mem1, root, pmm.free_count());
    proof {
        space::lemma_place_step(s0, path, k, n, e_new);
    }
    let r = map_at(mem, pmm, Ghost(root), frame, level - 1, virt, phys, flags, size);
    let ghost mem2 = mem@;
    let ghost l2 = pmm.lists();
    proof {
        lemma_confined(mem0, l0, mem1, l1, mem2, l2, root);
    }
    if r.is_ok() {
        proof {
            space::lemma_missing_exact(s0, path, k, n);
            let need = s0.missing(path, n);
            assert forall|j: int|
                #![trigger tables::node(mem2, root, 3, path.take(n - need + j))]
                0 <= j < need implies {
                let frame = free_lists::alloc_frame_of(alloc_frames(l0, j), 0);
                &&& tables::node(mem2, root, 3, path.take(n - need + j)) == Some(frame)
                &&& free_lists::free_lists_of(alloc_frames(l0, j + 1), frame, 0)
                    == alloc_frames(l0, j)
            } by {
                assert(alloc_frames(l0, j + 1) == alloc_frames(l1, j));
                if j == 0 {
                    assert(tables::node(mem2, root, 3, here) == Some(g));
                    assert(alloc_frames(l1, 0) == l1);
                } else {
                    assert(n - need + j == n - (need - 1) + (j - 1));
                    assert(alloc_frames(l0, j) == alloc_frames(l1, j - 1));
                    let _ = tables::node(
                        mem2,
                        root,
                        3,
                        path.take(n - (need - 1) + (j - 1)),
                    );
                }
            }
            assert forall|p: Seq<int>| #[trigger]
                tables::dir_at(mem2, root, 3, p) == dir_after_map(
                    l0,
                    path,
                    n,
                    need,
                    p,
                    tables::dir_at(mem0, root, 3, p),
                ) by {
                let j = p.len() - (n - need);
                assert(alloc_frames(l0, 0) == l0);
                if p != here && 0 < j < need {
                    assert(alloc_frames(l0, j) == alloc_frames(l1, j - 1));
                }
            }
        }
        return r;
    }
    proof {
        tables::lemma_table_empty(mem1, root, s1.free, here);
        tables::lemma_table_empty(mem2, root, s1.free, here);
    }
    drop_table(mem, pmm, Ghost(root), Ghost(at), table, index, frame);
    proof {
        lemma_confined(mem0, l0, mem2, l2, mem@, pmm.lists(), root);
        assert(s0.tables.insert(here).remove(here) =~= s0.tables);
    }
    r
}

/// What the allocator holds after the frames of `c` tables on a path were
/// freed, from the one at depth `d` up.
pub open spec fn release_tables(
    lists: Seq<Seq<int>>,
    mem: Seq<u64>,
    root: int,
    path: Seq<int>,
    d: int,
    c: int,
) -> Seq<Seq<int>>
    decreases c,
{
    if c <= 0 {
        lists
    } else {
        release_tables(
            free_lists::free_lists_of(
                lists,
                tables::node(mem, root, 3, path.take(d)).unwrap(),
                0,
            ),
            mem,
            root,
            path,
            d - 1,
            c - 1,
        )
    }
}

proof fn lemma_release_last(
    lists: Seq<Seq<int>>,
    mem: Seq<u64>,
    root: int,
    path: Seq<int>,
    d: int,
    c: int,
)
    requires
        0 <= c,
    ensures
        release_tables(lists, mem, root, path, d, c + 1) == free_lists::free_lists_of(
            release_tables(lists, mem, root, path, d, c),
            tables::node(mem, root, 3, path.take(d - c)).unwrap(),
            0,
        ),
    decreases c,
{
    let first = free_lists::free_lists_of(
        lists,
        tables::node(mem, root, 3, path.take(d)).unwrap(),
        0,
    );
    if c > 0 {
        lemma_release_last(first, mem, root, path, d - 1, c - 1);
    } else {
        assert(release_tables(first, mem, root, path, d - 1, 0) == first);
    }
}

/// Freeing the tables that mapping a page has made, deepest first, restores the
/// allocator exactly, the order within its lists included.
pub proof fn law_release_undoes_map(
    lists: Seq<Seq<int>>,
    mem: Seq<u64>,
    root: int,
    path: Seq<int>,
    n: int,
    need: int,
)
    requires
        0 <= need,
        tables_from(lists, mem, root, path, n, need),
    ensures
        release_tables(alloc_frames(lists, need), mem, root, path, n - 1, need) == lists,
{
    lemma_release_undoes(lists, mem, root, path, n, need, need);
}

proof fn lemma_release_undoes(
    lists: Seq<Seq<int>>,
    mem: Seq<u64>,
    root: int,
    path: Seq<int>,
    n: int,
    need: int,
    c: int,
)
    requires
        0 <= c <= need,
        tables_from(lists, mem, root, path, n, need),
    ensures
        release_tables(alloc_frames(lists, c), mem, root, path, n - 1 - (need - c), c) == lists,
    decreases c,
{
    if c > 0 {
        let _ = tables::node(mem, root, 3, path.take(n - need + (c - 1)));
        assert(n - 1 - (need - c) == n - need + (c - 1));
        lemma_release_undoes(lists, mem, root, path, n, need, c - 1);
    } else {
        assert(alloc_frames(lists, 0) == lists);
    }
}

/// The flushes after a page was unmapped and `c` tables were given back.
pub open spec fn unmap_flushes(virt: u64, c: int) -> Seq<TlbFlush> {
    seq![TlbFlush::Page(virt)] + Seq::new(c as nat, |i: int| TlbFlush::All)
}

/// The tables that are left were there before, in the same frames.
pub open spec fn no_new_tables(before: Seq<u64>, after: Seq<u64>, root: int) -> bool {
    forall|p: Seq<int>|
        #![trigger tables::node(after, root, 3, p)]
        tables::node(after, root, 3, p) is Some ==> tables::node(after, root, 3, p)
            == tables::node(before, root, 3, p)
}

/// The entries of the tables that are left are as they were.
pub open spec fn no_new_dirs(before: Seq<u64>, after: Seq<u64>, root: int) -> bool {
    forall|p: Seq<int>|
        #![trigger tables::dir_at(after, root, 3, p)]
        tables::dir_at(after, root, 3, p) is Some ==> tables::dir_at(after, root, 3, p)
            == tables::dir_at(before, root, 3, p)
}

/// Takes a page out of the tables, from the table at the given level down, and
/// gives back the tables below that one that are then empty.
#[verifier::rlimit(40)]
fn unmap_at(
    mem: &mut [u64],
    pmm: &mut Pmm,
    flushes: &mut Vec<TlbFlush>,
    Ghost(root): Ghost<int>,
    table: PAddr,
    level: u8,
    virt: VAddr,
    size: PageSize,
) -> (r: Result<(), UnmapError>)
    requires
        consistent(old(mem)@, old(pmm), root),
        4 - space::depth(size) <= level <= 3,
        tables::node(old(mem)@, root, 3, space::path_of(virt.0).take(3 - level)) == Some(
            table.0 as int / 4096,
        ),
    ensures
        consistent(final(mem)@, final(pmm), root),
        final(pmm).total() == old(pmm).total(),
        final(pmm).hhdm() == old(pmm).hhdm(),
        confined(old(mem)@, old(pmm).lists(), final(mem)@, final(pmm).lists(), root),
        no_new_tables(old(mem)@, final(mem)@, root),
        no_new_dirs(old(mem)@, final(mem)@, root),
        ({
            let path = space::path_of(virt.0);
            let n = space::depth(size);
            let k = 3 - level;
            let s = tables::space_of(old(mem)@, root, old(pmm).free_count());
            let s2 = tables::space_of(final(mem)@, root, final(pmm).free_count());
            let c = s2.free - s.free;
            &&& r == (if s.leaves.contains_key(path.take(n)) {
                Ok::<(), UnmapError>(())
            } else {
                Err::<(), UnmapError>(UnmapError::NotMapped)
            })
            &&& r is Err ==> {
                &&& final(mem)@ == old(mem)@
                &&& final(pmm).lists() == old(pmm).lists()
                &&& final(pmm).free_count() == old(pmm).free_count()
                &&& final(flushes)@ == old(flushes)@
            }
            &&& r is Ok ==> {
                &&& s2 == s.without_page(path.take(n)).reclaim_up(path, n - 1, k)
                &&& 0 <= c <= n - 1 - k
                &&& forall|d: int|
                    k < d < n ==> (s2.tables.contains(#[trigger] path.take(d)) <==> d < n - c)
                &&& final(pmm).lists() == release_tables(
                    old(pmm).lists(),
                    old(mem)@,
                    root,
                    path,
                    n - 1,
                    c,
                )
                &&& final(flushes)@ == old(flushes)@ + unmap_flushes(virt.0, c)
            }
        }),
    decreases level,
{
    let ghost path = space::path_of(virt.0);
    let ghost n = space::depth(size);
    let ghost k = 3 - level;
    let ghost at = path.take(k);
    let ghost mem0 = mem@;
    let ghost l0 = pmm.lists();
    let ghost free0 = pmm.free_count();
    let ghost s0 = tables::space_of(mem0, root, free0);
    let index: usize = index_at(virt, level);
    let ghost here = path.take(k + 1);
    proof {
        assert(here =~= at.push(index as int));
        assert(at.push(index as int).drop_last() =~= at);
        pmm.lemma_wf(mem0);
        tables::lemma_space_wf(mem0, root, free0);
        tables::lemma_node_push(mem0, root, 3, at, index as int);
    }
    let e: u64 = read_entry(mem, table, index);
    if level == size.level() {
        if !is_present(e, level) || (level > 0 && !is_page(e, level)) {
            return Err(UnmapError::NotMapped);
        }
        write_entry(mem, table, index, 0);
        flushes.push(TlbFlush::Page(virt.0));
        proof {
            entry::lemma_zero_entry();
            tables::lemma_write_page(mem0, root, l0, free0, at, index as int, 0);
            lemma_table_write(mem0, pmm, root, at, index as int, 0);
            assert(s0.without_page(here).reclaim_up(path, n - 1, k) == s0.without_page(here));
            assert(unmap_flushes(virt.0, 0) =~= seq![TlbFlush::Page(virt.0)]);
            assert(release_tables(l0, mem0, root, path, n - 1, 0) == l0);
        }
        return Ok(());
    }
    if !is_present(e, level) || is_page(e, level) {
        proof {
            space::lemma_absent(s0, path, k + 1, n);
        }
        return Err(UnmapError::NotMapped);
    }
    let child: PAddr = address_of(e, level);
    let r = unmap_at(mem, pmm, flushes, Ghost(root), child, level - 1, virt, size);
    if r.is_err() {
        return r;
    }
    let ghost mem1 = mem@;
    let ghost l1 = pmm.lists();
    let ghost s1 = tables::space_of(mem1, root, pmm.free_count());
    let ghost c1 = s1.free - s0.free;
    proof {
        pmm.lemma_wf(mem1);
        space::lemma_reclaim_keeps(s0.without_page(path.take(n)), path, n - 1, k + 1, at);
        space::lemma_reclaim_keeps(s0.without_page(path.take(n)), path, n - 1, k + 1, here);
        space::lemma_reclaim_last(s0.without_page(path.take(n)), path, n - 1, k);
        tables::lemma_table_empty(mem1, root, s1.free, here);
        assert(s1.tables.contains(at));
        assert(s1.tables.contains(here));
        tables::lemma_space_wf(mem1, root, s1.free);
        assert(path.take(k + 2) =~= here.push(path[k + 1]));
        if s1.table_empty(here) {
            assert(!s1.has(here.push(path[k + 1])));
            if k + 2 < n {
                assert(!s1.tables.contains(path.take(k + 2)));
            }
            assert(c1 == n - 2 - k);
        } else {
            assert forall|d: int| k < d < n implies (s1.tables.contains(#[trigger] path.take(d))
                <==> d < n - c1) by {
                if d == k + 1 {
                    assert(path.take(d) == here);
                }
            }
        }
    }
    if is_empty(mem, child) {
        drop_table(mem, pmm, Ghost(root), Ghost(at), table, index, child);
        flushes.push(TlbFlush::All);
        proof {
            lemma_release_last(l0, mem0, root, path, n - 1, c1);
            assert(unmap_flushes(virt.0, c1 + 1) =~= unmap_flushes(virt.0, c1).push(
                TlbFlush::All,
            ));
            let mem2 = mem@;
            lemma_confined(mem0, l0, mem1, l1, mem2, pmm.lists(), root);
            let s2 = tables::space_of(mem2, root, s1.free + 1);
            assert forall|d: int| k < d < n implies (s2.tables.contains(#[trigger] path.take(d))
                <==> d < n - (c1 + 1)) by {
                if d > k + 1 {
                    assert(path.take(d).len() != here.len());
                }
            }
        }
    }
    r
}

/// The flushes while the pages of a range are unmapped again.
pub open spec fn roll_back_flushes(
    s: Space,
    virt: u64,
    size: PageSize,
    i: int,
    end: int,
) -> Seq<TlbFlush>
    decreases end - i,
{
    if i >= end {
        Seq::empty()
    } else {
        let v = (virt + i * space::page_bytes(size)) as u64;
        let next = s.unmap(v, size);
        (if next.1 is Ok {
            unmap_flushes(v, next.0.free - s.free)
        } else {
            Seq::empty()
        }) + roll_back_flushes(next.0, virt, size, i + 1, end)
    }
}

/// The flushes while a range is mapped.
pub open spec fn map_range_flushes(
    s: Space,
    virt: u64,
    phys: u64,
    pages: int,
    flags: u64,
    size: PageSize,
    i: int,
) -> Seq<TlbFlush>
    decreases pages - i,
{
    if i >= pages {
        Seq::empty()
    } else {
        let step = i * space::page_bytes(size);
        let next = s.map((virt + step) as u64, (phys + step) as u64, flags, size);
        if next.1 is Ok {
            seq![TlbFlush::Page((virt + step) as u64)] + map_range_flushes(
                next.0,
                virt,
                phys,
                pages,
                flags,
                size,
                i + 1,
            )
        } else {
            roll_back_flushes(next.0, virt, size, 0, i)
        }
    }
}

/// The flushes while a range is unmapped.
pub open spec fn unmap_range_flushes(
    s: Space,
    virt: u64,
    pages: int,
    size: PageSize,
    i: int,
) -> Seq<TlbFlush>
    decreases pages - i,
{
    if i >= pages {
        Seq::empty()
    } else {
        let v = (virt + i * space::page_bytes(size)) as u64;
        let next = s.unmap(v, size);
        if next.1 is Ok {
            unmap_flushes(v, next.0.free - s.free) + unmap_range_flushes(
                next.0,
                virt,
                pages,
                size,
                i + 1,
            )
        } else {
            Seq::empty()
        }
    }
}

/// Tables that were there before and after are in the same frames.
pub open spec fn tables_agree(before: Seq<u64>, after: Seq<u64>, root: int) -> bool {
    forall|p: Seq<int>|
        #![trigger tables::node(after, root, 3, p)]
        tables::node(before, root, 3, p) is Some && tables::node(after, root, 3, p) is Some
            ==> tables::node(after, root, 3, p) == tables::node(before, root, 3, p)
}

/// Frames taken in two steps are frames taken in one.
pub proof fn lemma_alloc_frames_add(lists: Seq<Seq<int>>, a: int, b: int)
    requires
        0 <= a,
        0 <= b,
    ensures
        alloc_frames(alloc_frames(lists, a), b) == alloc_frames(lists, a + b),
    decreases a,
{
    if a > 0 {
        lemma_alloc_frames_add(free_lists::alloc_lists(lists, 0), a - 1, b);
    }
}

/// What `map` leads to: `r` is returned, and the state before (`0`) turns into
/// the state after (`1`).
pub open spec fn map_outcome(
    vmm0: &Vmm,
    mem0: Seq<u64>,
    pmm0: &Pmm,
    flushes0: Seq<TlbFlush>,
    virt: u64,
    phys: u64,
    flags: u64,
    size: PageSize,
    r: Result<(), MapError>,
    vmm1: &Vmm,
    mem1: Seq<u64>,
    pmm1: &Pmm,
    flushes1: Seq<TlbFlush>,
) -> bool {
    &&& vmm1.wf(mem1, pmm1)
    &&& vmm1.root() == vmm0.root()
    &&& pmm1.total() == pmm0.total()
    &&& pmm1.hhdm() == pmm0.hhdm()
    &&& (vmm1.space(mem1, pmm1.free_count()), r) == vmm0.space(
        mem0,
        pmm0.free_count(),
    ).map(virt, phys, flags, size)
    &&& (vmm1.tree(mem1, pmm1), r) == vmm0.tree(mem0, pmm0).map(virt, phys, flags, size)
    &&& confined(
        mem0,
        pmm0.lists(),
        mem1,
        pmm1.lists(),
        vmm0.root(),
    )
    &&& tables_stay(mem0, mem1, vmm0.root())
    &&& flushes1 == (if r is Ok {
        flushes0.push(TlbFlush::Page(virt))
    } else {
        flushes0
    })
    &&& {
        let path = space::path_of(virt);
        let n = space::depth(size);
        let need = vmm0.space(mem0, pmm0.free_count()).missing(path, n);
        &&& pmm1.lists() == if r is Ok {
            alloc_frames(pmm0.lists(), need)
        } else {
            pmm0.lists()
        }
        &&& r is Ok ==> tables_from(
            pmm0.lists(),
            mem1,
            vmm0.root(),
            path,
            n,
            need,
        )
    }
}

/// What `unmap` leads to: `r` is returned, and the state before (`0`) turns into
/// the state after (`1`).
pub open spec fn unmap_outcome(
    vmm0: &Vmm,
    mem0: Seq<u64>,
    pmm0: &Pmm,
    flushes0: Seq<TlbFlush>,
    virt: u64,
    size: PageSize,
    r: Result<(), UnmapError>,
    vmm1: &Vmm,
    mem1: Seq<u64>,
    pmm1: &Pmm,
    flushes1: Seq<TlbFlush>,
) -> bool {
    &&& vmm1.wf(mem1, pmm1)
    &&& vmm1.root() == vmm0.root()
    &&& pmm1.total() == pmm0.total()
    &&& pmm1.hhdm() == pmm0.hhdm()
    &&& (vmm1.space(mem1, pmm1.free_count()), r) == vmm0.space(
        mem0,
        pmm0.free_count(),
    ).unmap(virt, size)
    &&& (vmm1.tree(mem1, pmm1), r) == vmm0.tree(mem0, pmm0).unmap(virt, size)
    &&& confined(
        mem0,
        pmm0.lists(),
        mem1,
        pmm1.lists(),
        vmm0.root(),
    )
    &&& no_new_tables(mem0, mem1, vmm0.root())
    &&& r is Err ==> mem1 == mem0 && pmm1.lists() == pmm0.lists()
        && flushes1 == flushes0
    &&& r is Ok ==> {
        let c = pmm1.free_count() - pmm0.free_count();
        &&& flushes1 == flushes0 + unmap_flushes(virt, c)
        &&& pmm1.lists() == release_tables(
            pmm0.lists(),
            mem0,
            vmm0.root(),
            space::path_of(virt),
            space::depth(size) - 1,
            c,
        )
    }
}

/// What `map_range` leads to: `r` is returned, and the state before (`0`) turns into
/// the state after (`1`).
pub open spec fn map_range_outcome(
    vmm0: &Vmm,
    mem0: Seq<u64>,
    pmm0: &Pmm,
    flushes0: Seq<TlbFlush>,
    virt: u64,
    phys: u64,
    pages: int,
    flags: u64,
    size: PageSize,
    r: Result<(), MapError>,
    vmm1: &Vmm,
    mem1: Seq<u64>,
    pmm1: &Pmm,
    flushes1: Seq<TlbFlush>,
) -> bool {
    &&& vmm1.wf(mem1, pmm1)
    &&& vmm1.root() == vmm0.root()
    &&& pmm1.total() == pmm0.total()
    &&& pmm1.hhdm() == pmm0.hhdm()
    &&& (vmm1.space(mem1, pmm1.free_count()), r) == vmm0.space(
        mem0,
        pmm0.free_count(),
    ).map_range(virt, phys, pages, flags, size, 0)
    &&& (vmm1.tree(mem1, pmm1), r) == vmm0.tree(mem0, pmm0).map_range(
        virt,
        phys,
        pages,
        flags,
        size,
        0,
    )
    &&& confined(
        mem0,
        pmm0.lists(),
        mem1,
        pmm1.lists(),
        vmm0.root(),
    )
    &&& tables_agree(mem0, mem1, vmm0.root())
    &&& flushes1 == flushes0 + map_range_flushes(
        vmm0.space(mem0, pmm0.free_count()),
        virt,
        phys,
        pages,
        flags,
        size,
        0,
    )
    &&& r is Ok ==> pmm1.lists() == alloc_frames(
        pmm0.lists(),
        pmm0.free_count() - pmm1.free_count(),
    )
}

/// What `unmap_range` leads to: `r` is returned, and the state before (`0`) turns into
/// the state after (`1`).
pub open spec fn unmap_range_outcome(
    vmm0: &Vmm,
    mem0: Seq<u64>,
    pmm0: &Pmm,
    flushes0: Seq<TlbFlush>,
    virt: u64,
    pages: int,
    size: PageSize,
    r: Result<(), UnmapError>,
    vmm1: &Vmm,
    mem1: Seq<u64>,
    pmm1: &Pmm,
    flushes1: Seq<TlbFlush>,
) -> bool {
    &&& vmm1.wf(mem1, pmm1)
    &&& vmm1.root() == vmm0.root()
    &&& pmm1.total() == pmm0.total()
    &&& pmm1.hhdm() == pmm0.hhdm()
    &&& (vmm1.space(mem1, pmm1.free_count()), r) == vmm0.space(
        mem0,
        pmm0.free_count(),
    ).unmap_range(virt, pages, size, 0)
    &&& (vmm1.tree(mem1, pmm1), r) == vmm0.tree(mem0, pmm0).unmap_range(virt, pages, size, 0)
    &&& confined(
        mem0,
        pmm0.lists(),
        mem1,
        pmm1.lists(),
        vmm0.root(),
    )
    &&& no_new_tables(mem0, mem1, vmm0.root())
    &&& flushes1 == flushes0 + unmap_range_flushes(
        vmm0.space(mem0, pmm0.free_count()),
        virt,
        pages,
        size,
        0,
    )
}

/// What `map_hhdm` leads to: `r` is returned, and the state before (`0`) turns into
/// the state after (`1`).
pub open spec fn map_hhdm_outcome(
    vmm0: &Vmm,
    mem0: Seq<u64>,
    pmm0: &Pmm,
    flushes0: Seq<TlbFlush>,
    hhdm_offset: u64,
    phys: u64,
    flags: u64,
    size: PageSize,
    r: Result<VAddr, MapError>,
    vmm1: &Vmm,
    mem1: Seq<u64>,
    pmm1: &Pmm,
    flushes1: Seq<TlbFlush>,
) -> bool {
    &&& vmm1.wf(mem1, pmm1)
    &&& vmm1.root() == vmm0.root()
    &&& pmm1.total() == pmm0.total()
    &&& pmm1.hhdm() == pmm0.hhdm()
    &&& {
        let virt = (phys + hhdm_offset) as u64;
        let s = vmm0.space(mem0, pmm0.free_count());
        let expected = s.map(virt, phys, flags, size);
        &&& vmm1.space(mem1, pmm1.free_count()) == expected.0
        &&& vmm1.tree(mem1, pmm1) == vmm0.tree(mem0, pmm0).map(virt, phys, flags, size).0
        &&& match expected.1 {
            Ok(_) => r == Ok::<VAddr, MapError>(VAddr(virt)),
            Err(e) => r == Err::<VAddr, MapError>(e),
        }
        &&& flushes1 == (if r is Ok {
            flushes0.push(TlbFlush::Page(virt))
        } else {
            flushes0
        })
        &&& pmm1.lists() == if r is Ok {
            alloc_frames(pmm0.lists(), s.free - pmm1.free_count())
        } else {
            pmm0.lists()
        }
    }
    &&& confined(
        mem0,
        pmm0.lists(),
        mem1,
        pmm1.lists(),
        vmm0.root(),
    )
    &&& tables_stay(mem0, mem1, vmm0.root())
}

/// An address space: the page tables below a top-level table.
pub struct Vmm {
    top_level: PAddr,
}

impl Vmm {
    /// Frame of the top-level table.
    pub closed spec fn root(&self) -> int {
        self.top_level.0 as int / 4096
    }

    /// Tables and pages, where `free` frames are left.
    pub open spec fn space(&self, mem: Seq<u64>, free: int) -> Space {
        tables::space_of(mem, self.root(), free)
    }

    /// The page tables and the free frames.
    pub open spec fn tree(&self, mem: Seq<u64>, pmm: &Pmm) -> Tree {
        Tree::of(mem, self.root(), pmm.lists(), pmm.free_count())
    }

    /// The address space, the allocator and the memory that holds both are
    /// well-formed.
    pub open spec fn wf(&self, mem: Seq<u64>, pmm: &Pmm) -> bool {
        consistent(mem, pmm, self.root())
    }

    /// The address space below the top-level table at a physical address.
    pub fn new(top_level: PAddr) -> (vmm: Self)
        ensures
            vmm.root() == top_level.0 as int / 4096,
    {
        Vmm { top_level }
    }

    /// Looks up where an address leads.
    pub fn translate(&self, mem: &[u64], virt: VAddr) -> (r: Option<(PAddr, PTFlags)>)
        requires
            tables::in_memory(mem@, self.root()),
        ensures
            match r {
                Some((phys, flags)) => self.space(mem@, 0).translate(virt.0) == Some(
                    (phys.0 as int, flags@),
                ),
                None => self.space(mem@, 0).translate(virt.0) is None,
            },
    {
        if !is_canonical(virt) {
            return None;
        }
        let ghost path = space::path_of(virt.0);
        let ghost s = self.space(mem@, 0);
        let ghost root = self.root();
        let mut table: PAddr = self.top_level;
        let mut level: u8 = 3;
        proof {
            assert(path.take(0) =~= Seq::empty());
            tables::lemma_space_wf(mem@, root, 0);
        }
        loop
            invariant
                level <= 3,
                path == space::path_of(virt.0),
                space::canonical(virt.0),
                s == tables::space_of(mem@, root, 0),
                s == self.space(mem@, 0),
                s.wf(),
                tables::in_memory(mem@, root),
                tables::node(mem@, root, 3, path.take(3 - level)) == Some(table.0 as int / 4096),
            decreases level,
        {
            let ghost k = 3 - level;
            let ghost at = path.take(k);
            let ghost here = path.take(k + 1);
            let index: usize = index_at(virt, level);
            let e: u64 = read_entry(mem, table, index);
            proof {
                assert(here =~= at.push(index as int));
                assert(here.drop_last() =~= at);
                tables::lemma_node_push(mem@, root, 3, at, index as int);
                assert(s.tables.contains(at));
                assert forall|j: int| 0 <= j <= k implies !s.leaves.contains_key(
                    #[trigger] path.take(j),
                ) by {
                    assert(at.take(j) =~= path.take(j));
                }
                if !s.tables.contains(here) {
                    assert forall|j: int| k + 1 < j <= 4 implies !s.leaves.contains_key(
                        #[trigger] path.take(j),
                    ) by {
                        space::lemma_absent(s, path, k + 1, j);
                    }
                }
            }
            if !is_present(e, level) {
                return None;
            }
            if level == 0 || is_page(e, level) {
                let start: PAddr = address_of(e, level);
                let offset: u64 = if level == 0 {
                    virt.0 % 0x1000
                } else if level == 1 {
                    virt.0 % 0x20_0000
                } else {
                    virt.0 % 0x4000_0000
                };
                return Some((PAddr(start.0 + offset), PTFlags::from_bits_truncate(e)));
            }
            table = address_of(e, level);
            level = level - 1;
        }
    }

    /// Maps a page.
    ///
    /// Page tables that are missing are made; where there is no room for one of
    /// them, nothing changes.
    pub fn map(
        &mut self,
        mem: &mut [u64],
        pmm: &mut Pmm,
        flushes: &mut Vec<TlbFlush>,
        virt: VAddr,
        phys: PAddr,
        flags: PTFlags,
        size: PageSize,
    ) -> (r: Result<(), MapError>)
        requires
            old(self).wf(old(mem)@, old(pmm)),
            old(self).space(old(mem)@, old(pmm).free_count()).map(
                virt.0,
                phys.0,
                flags@,
                size,
            ).1 is Ok ==> phys.0 < 0x10_0000_0000_0000,
        ensures
            map_outcome(
                old(self),
                old(mem)@,
                old(pmm),
                old(flushes)@,
                virt.0,
                phys.0,
                flags@,
                size,
                r,
                final(self),
                final(mem)@,
                final(pmm),
                final(flushes)@,
            ),
    {
        if !is_canonical(virt) {
            return Err(MapError::NonCanonical);
        }
        let align: u64 = size.bytes();
        if virt.0 % align != 0 || phys.0 % align != 0 {
            return Err(MapError::Misaligned);
        }
        proof {
            assert(space::path_of(virt.0).take(0) =~= Seq::empty());
        }
        let ghost root = self.root();
        let r = map_at(mem, pmm, Ghost(root), self.top_level, 3, virt, phys, flags, size);
        proof {
            old(pmm).lemma_wf(old(mem)@);
            tree::lemma_map(
                old(mem)@,
                old(pmm).lists(),
                old(pmm).free_count(),
                mem@,
                pmm.lists(),
                pmm.free_count(),
                root,
                virt.0,
                phys.0,
                flags@,
                size,
                r,
            );
        }
        if r.is_ok() {
            flushes.push(TlbFlush::Page(virt.0));
        }
        r
    }

    /// Unmaps a page, and frees the page tables that are then empty.
    pub fn unmap(
        &mut self,
        mem: &mut [u64],
        pmm: &mut Pmm,
        flushes: &mut Vec<TlbFlush>,
        virt: VAddr,
        size: PageSize,
    ) -> (r: Result<(), UnmapError>)
        requires
            old(self).wf(old(mem)@, old(pmm)),
        ensures
            unmap_outcome(
                old(self),
                old(mem)@,
                old(pmm),
                old(flushes)@,
                virt.0,
                size,
                r,
                final(self),
                final(mem)@,
                final(pmm),
                final(flushes)@,
            ),
    {
        if !is_canonical(virt) {
            return Err(UnmapError::NonCanonical);
        }
        if virt.0 % size.bytes() != 0 {
            return Err(UnmapError::Misaligned);
        }
        proof {
            assert(space::path_of(virt.0).take(0) =~= Seq::empty());
        }
        let ghost root = self.root();
        let r = unmap_at(mem, pmm, flushes, Ghost(root), self.top_level, 3, virt, size);
        proof {
            old(pmm).lemma_wf(old(mem)@);
            tree::lemma_unmap(
                old(mem)@,
                old(pmm).lists(),
                old(pmm).free_count(),
                mem@,
                pmm.lists(),
                pmm.free_count(),
                root,
                virt.0,
                size,
                r,
            );
        }
        r
    }

    /// Unmaps the first pages of a range, as far as they are mapped.
    fn roll_back(
        &mut self,
        mem: &mut [u64],
        pmm: &mut Pmm,
        flushes: &mut Vec<TlbFlush>,
        virt: VAddr,
        size: PageSize,
        end: u64,
    )
        requires
            old(self).wf(old(mem)@, old(pmm)),
            virt.0 + end * space::page_bytes(size) <= u64::MAX,
        ensures
            final(self).wf(final(mem)@, final(pmm)),
            final(self).root() == old(self).root(),
            final(pmm).total() == old(pmm).total(),
            final(pmm).hhdm() == old(pmm).hhdm(),
            final(self).space(final(mem)@, final(pmm).free_count()) == old(self).space(
                old(mem)@,
                old(pmm).free_count(),
            ).roll_back(virt.0, size, 0, end as int),
            final(self).tree(final(mem)@, final(pmm)) == old(self).tree(
                old(mem)@,
                old(pmm),
            ).roll_back(virt.0, size, 0, end as int),
            confined(
                old(mem)@,
                old(pmm).lists(),
                final(mem)@,
                final(pmm).lists(),
                old(self).root(),
            ),
            no_new_tables(old(mem)@, final(mem)@, old(self).root()),
            final(flushes)@ == old(flushes)@ + roll_back_flushes(
                old(self).space(old(mem)@, old(pmm).free_count()),
                virt.0,
                size,
                0,
                end as int,
            ),
    {
        let stride: u64 = size.bytes();
        let ghost root = self.root();
        let ghost mem0 = mem@;
        let ghost l0 = pmm.lists();
        let ghost s0 = self.space(mem@, pmm.free_count());
        let ghost tree0 = self.tree(mem@, pmm);
        let mut j: u64 = 0;
        while j < end
            invariant
                j <= end,
                stride == space::page_bytes(size),
                virt.0 + end * stride <= u64::MAX,
                root == self.root(),
                self.root() == old(self).root(),
                self.wf(mem@, pmm),
                pmm.total() == old(pmm).total(),
                pmm.hhdm() == old(pmm).hhdm(),
                self.space(mem@, pmm.free_count()).roll_back(virt.0, size, j as int, end as int)
                    == s0.roll_back(virt.0, size, 0, end as int),
                self.tree(mem@, pmm).roll_back(virt.0, size, j as int, end as int)
                    == tree0.roll_back(virt.0, size, 0, end as int),
                confined(mem0, l0, mem@, pmm.lists(), root),
                no_new_tables(mem0, mem@, root),
                flushes@ + roll_back_flushes(
                    self.space(mem@, pmm.free_count()),
                    virt.0,
                    size,
                    j as int,
                    end as int,
                ) == old(flushes)@ + roll_back_flushes(s0, virt.0, size, 0, end as int),
            decreases end - j,
        {
            let ghost mem1 = mem@;
            let ghost l1 = pmm.lists();
            let ghost free1 = pmm.free_count();
            let ghost fl1 = flushes@;
            proof {
                assert(0 <= j * stride <= end * stride) by (nonlinear_arith)
                    requires
                        j <= end,
                ;
            }
            let back: u64 = j * stride;
            let undone = self.unmap(mem, pmm, flushes, VAddr(virt.0 + back), size);
            proof {
                lemma_confined(mem0, l0, mem1, l1, mem@, pmm.lists(), root);
                let part = if undone is Ok {
                    unmap_flushes((virt.0 + back) as u64, pmm.free_count() - free1)
                } else {
                    Seq::empty()
                };
                let rest = roll_back_flushes(
                    self.space(mem@, pmm.free_count()),
                    virt.0,
                    size,
                    j + 1,
                    end as int,
                );
                assert(flushes@ =~= fl1 + part);
                assert(fl1 + (part + rest) =~= flushes@ + rest);
            }
            j = j + 1;
        }
        proof {
            assert(flushes@ + Seq::<TlbFlush>::empty() =~= flushes@);
        }
    }

    /// Maps a range of pages of one size, all or none of them.
    pub fn map_range(
        &mut self,
        mem: &mut [u64],
        pmm: &mut Pmm,
        flushes: &mut Vec<TlbFlush>,
        virt: VAddr,
        phys: PAddr,
        pages: u64,
        flags: PTFlags,
        size: PageSize,
    ) -> (r: Result<(), MapError>)
        requires
            old(self).wf(old(mem)@, old(pmm)),
            old(self).space(old(mem)@, old(pmm).free_count()).range_fits(
                virt.0,
                phys.0,
                pages as int,
                flags@,
                size,
                0,
            ),
        ensures
            map_range_outcome(
                old(self),
                old(mem)@,
                old(pmm),
                old(flushes)@,
                virt.0,
                phys.0,
                pages as int,
                flags@,
                size,
                r,
                final(self),
                final(mem)@,
                final(pmm),
                final(flushes)@,
            ),
    {
        let stride: u64 = size.bytes();
        let ghost root = self.root();
        let ghost mem0 = mem@;
        let ghost l0 = pmm.lists();
        let ghost s0 = self.space(mem@, pmm.free_count());
        let ghost tree0 = self.tree(mem@, pmm);
        let mut i: u64 = 0;
        assert(alloc_frames(l0, 0) == l0);
        while i < pages
            invariant
                i <= pages,
                stride == space::page_bytes(size),
                root == self.root(),
                self.root() == old(self).root(),
                self.wf(mem@, pmm),
                pmm.total() == old(pmm).total(),
                pmm.hhdm() == old(pmm).hhdm(),
                mem0 == old(mem)@,
                l0 == old(pmm).lists(),
                s0 == old(self).space(mem0, old(pmm).free_count()),
                self.space(mem@, pmm.free_count()).range_fits(
                    virt.0,
                    phys.0,
                    pages as int,
                    flags@,
                    size,
                    i as int,
                ),
                self.space(mem@, pmm.free_count()).map_range(
                    virt.0,
                    phys.0,
                    pages as int,
                    flags@,
                    size,
                    i as int,
                ) == s0.map_range(virt.0, phys.0, pages as int, flags@, size, 0),
                tree0 == old(self).tree(mem0, old(pmm)),
                self.tree(mem@, pmm).map_range(
                    virt.0,
                    phys.0,
                    pages as int,
                    flags@,
                    size,
                    i as int,
                ) == tree0.map_range(virt.0, phys.0, pages as int, flags@, size, 0),
                confined(mem0, l0, mem@, pmm.lists(), root),
                tables_stay(mem0, mem@, root),
                flushes@ + map_range_flushes(
                    self.space(mem@, pmm.free_count()),
                    virt.0,
                    phys.0,
                    pages as int,
                    flags@,
                    size,
                    i as int,
                ) == old(flushes)@ + map_range_flushes(
                    s0,
                    virt.0,
                    phys.0,
                    pages as int,
                    flags@,
                    size,
                    0,
                ),
                pmm.free_count() <= s0.free,
                pmm.lists() == alloc_frames(l0, s0.free - pmm.free_count()),
            decreases pages - i,
        {
            let ghost mem1 = mem@;
            let ghost l1 = pmm.lists();
            let ghost free1 = pmm.free_count();
            let ghost s1 = self.space(mem1, free1);
            let ghost fl1 = flushes@;
            proof {
                assert(0 <= i * stride) by (nonlinear_arith);
            }
            let step: u64 = i * stride;
            let ghost v = (virt.0 + step) as u64;
            let next = self.map(
                mem,
                pmm,
                flushes,
                VAddr(virt.0 + step),
                PAddr(phys.0 + step),
                flags,
                size,
            );
            proof {
                lemma_confined(mem0, l0, mem1, l1, mem@, pmm.lists(), root);
                space::lemma_map_free(s1, v, (phys.0 + step) as u64, flags@, size);
            }
            match next {
                Ok(()) => {
                    proof {
                        lemma_alloc_frames_add(l0, s0.free - free1, free1 - pmm.free_count());
                        assert(flushes@ =~= fl1 + seq![TlbFlush::Page(v)]);
                        assert(fl1 + (seq![TlbFlush::Page(v)] + map_range_flushes(
                            self.space(mem@, pmm.free_count()),
                            virt.0,
                            phys.0,
                            pages as int,
                            flags@,
                            size,
                            i + 1,
                        )) =~= flushes@ + map_range_flushes(
                            self.space(mem@, pmm.free_count()),
                            virt.0,
                            phys.0,
                            pages as int,
                            flags@,
                            size,
                            i + 1,
                        ));
                    }
                    i = i + 1;
                },
                Err(e) => {
                    let ghost mem2 = mem@;
                    let ghost l2 = pmm.lists();
                    self.roll_back(mem, pmm, flushes, virt, size, i);
                    proof {
                        lemma_confined(mem0, l0, mem2, l2, mem@, pmm.lists(), root);
                    }
                    return Err(e);
                },
            }
        }
        proof {
            assert(flushes@ + Seq::<TlbFlush>::empty() =~= flushes@);
        }
        Ok(())
    }

    /// Unmaps a range of pages of one size, up to the first that is not
    /// mapped.
    pub fn unmap_range(
        &mut self,
        mem: &mut [u64],
        pmm: &mut Pmm,
        flushes: &mut Vec<TlbFlush>,
        virt: VAddr,
        pages: u64,
        size: PageSize,
    ) -> (r: Result<(), UnmapError>)
        requires
            old(self).wf(old(mem)@, old(pmm)),
            old(self).space(old(mem)@, old(pmm).free_count()).unmap_fits(
                virt.0,
                pages as int,
                size,
                0,
            ),
        ensures
            unmap_range_outcome(
                old(self),
                old(mem)@,
                old(pmm),
                old(flushes)@,
                virt.0,
                pages as int,
                size,
                r,
                final(self),
                final(mem)@,
                final(pmm),
                final(flushes)@,
            ),
    {
        let stride: u64 = size.bytes();
        let ghost root = self.root();
        let ghost mem0 = mem@;
        let ghost l0 = pmm.lists();
        let ghost s0 = self.space(mem@, pmm.free_count());
        let ghost tree0 = self.tree(mem@, pmm);
        let mut i: u64 = 0;
        while i < pages
            invariant
                i <= pages,
                stride == space::page_bytes(size),
                root == self.root(),
                self.root() == old(self).root(),
                self.wf(mem@, pmm),
                pmm.total() == old(pmm).total(),
                pmm.hhdm() == old(pmm).hhdm(),
                mem0 == old(mem)@,
                l0 == old(pmm).lists(),
                s0 == old(self).space(mem0, old(pmm).free_count()),
                self.space(mem@, pmm.free_count()).unmap_fits(
                    virt.0,
                    pages as int,
                    size,
                    i as int,
                ),
                self.space(mem@, pmm.free_count()).unmap_range(
                    virt.0,
                    pages as int,
                    size,
                    i as int,
                ) == s0.unmap_range(virt.0, pages as int, size, 0),
                tree0 == old(self).tree(mem0, old(pmm)),
                self.tree(mem@, pmm).unmap_range(virt.0, pages as int, size, i as int)
                    == tree0.unmap_range(virt.0, pages as int, size, 0),
                confined(mem0, l0, mem@, pmm.lists(), root),
                no_new_tables(mem0, mem@, root),
                flushes@ + unmap_range_flushes(
                    self.space(mem@, pmm.free_count()),
                    virt.0,
                    pages as int,
                    size,
                    i as int,
                ) == old(flushes)@ + unmap_range_flushes(s0, virt.0, pages as int, size, 0),
            decreases pages - i,
        {
            let ghost mem1 = mem@;
            let ghost l1 = pmm.lists();
            let ghost free1 = pmm.free_count();
            let ghost fl1 = flushes@;
            proof {
                assert(0 <= i * stride) by (nonlinear_arith);
            }
            let step: u64 = i * stride;
            let next = self.unmap(mem, pmm, flushes, VAddr(virt.0 + step), size);
            proof {
                lemma_confined(mem0, l0, mem1, l1, mem@, pmm.lists(), root);
            }
            match next {
                Ok(()) => {
                    proof {
                        let part = unmap_flushes(
                            (virt.0 + step) as u64,
                            pmm.free_count() - free1,
                        );
                        let rest = unmap_range_flushes(
                            self.space(mem@, pmm.free_count()),
                            virt.0,
                            pages as int,
                            size,
                            i + 1,
                        );
                        assert(fl1 + (part + rest) =~= flushes@ + rest);
                    }
                    i = i + 1;
                },
                Err(e) => {
                    proof {
                        assert(flushes@ + Seq::<TlbFlush>::empty() =~= flushes@);
                    }
                    return Err(e);
                },
            }
        }
        proof {
            assert(flushes@ + Seq::<TlbFlush>::empty() =~= flushes@);
        }
        Ok(())
    }

    /// Maps a page at its place in the direct map, and tells where that is.
    pub fn map_hhdm(
        &mut self,
        mem: &mut [u64],
        pmm: &mut Pmm,
        flushes: &mut Vec<TlbFlush>,
        hhdm_offset: u64,
        phys: PAddr,
        flags: PTFlags,
        size: PageSize,
    ) -> (r: Result<VAddr, MapError>)
        requires
            old(self).wf(old(mem)@, old(pmm)),
            phys.0 + hhdm_offset <= u64::MAX,
            old(self).space(old(mem)@, old(pmm).free_count()).map(
                (phys.0 + hhdm_offset) as u64,
                phys.0,
                flags@,
                size,
            ).1 is Ok ==> phys.0 < 0x10_0000_0000_0000,
        ensures
            map_hhdm_outcome(
                old(self),
                old(mem)@,
                old(pmm),
                old(flushes)@,
                hhdm_offset,
                phys.0,
                flags@,
                size,
                r,
                final(self),
                final(mem)@,
                final(pmm),
                final(flushes)@,
            ),
    {
        let virt: VAddr = VAddr(phys.0 + hhdm_offset);
        proof {
            space::lemma_map_free(
                self.space(mem@, pmm.free_count()),
                virt.0,
                phys.0,
                flags@,
                size,
            );
        }
        match self.map(mem, pmm, flushes, virt, phys, flags, size) {
            Ok(()) => Ok(virt),
            Err(e) => Err(e),
        }
    }
}

/// Where a virtual address leads, and with which flags.
pub fn translate(slot: &Option<Vmm>, mem: &[u64], virt: VAddr) -> (r: Option<(PAddr, PTFlags)>)
    requires
        *slot is Some,
        tables::in_memory(mem@, slot.unwrap().root()),
    ensures
        match r {
            Some((phys, flags)) => slot.unwrap().space(mem@, 0).translate(virt.0) == Some(
                (phys.0 as int, flags@),
            ),
            None => slot.unwrap().space(mem@, 0).translate(virt.0) is None,
        },
{
    slot.as_ref().unwrap().translate(mem, virt)
}

/// Maps a page.
///
/// Page tables that are missing are made; where there is no room for one of
/// them, nothing changes.
pub fn map(
    slot: &mut Option<Vmm>,
    mem: &mut [u64],
    pmm: &mut Pmm,
    flushes: &mut Vec<TlbFlush>,
    virt: VAddr,
    phys: PAddr,
    flags: PTFlags,
    size: PageSize,
) -> (r: Result<(), MapError>)
    requires
        *old(slot) is Some,
        old(slot).unwrap().wf(old(mem)@, old(pmm)),
        old(slot).unwrap().space(old(mem)@, old(pmm).free_count()).map(
            virt.0,
            phys.0,
            flags@,
            size,
        ).1 is Ok ==> phys.0 < 0x10_0000_0000_0000,
    ensures
        *final(slot) is Some,
        map_outcome(
            &old(slot).unwrap(),
            old(mem)@,
            old(pmm),
            old(flushes)@,
            virt.0,
            phys.0,
            flags@,
            size,
            r,
            &final(slot).unwrap(),
            final(mem)@,
            final(pmm),
            final(flushes)@,
        ),
{
    slot.as_mut().unwrap().map(mem, pmm, flushes, virt, phys, flags, size)
}

/// Unmaps a page, and frees the page tables that are then empty.
pub fn unmap(
    slot: &mut Option<Vmm>,
    mem: &mut [u64],
    pmm: &mut Pmm,
    flushes: &mut Vec<TlbFlush>,
    virt: VAddr,
    size: PageSize,
) -> (r: Result<(), UnmapError>)
    requires
        *old(slot) is Some,
        old(slot).unwrap().wf(old(mem)@, old(pmm)),
    ensures
        *final(slot) is Some,
        unmap_outcome(
            &old(slot).unwrap(),
            old(mem)@,
            old(pmm),
            old(flushes)@,
            virt.0,
            size,
            r,
            &final(slot).unwrap(),
            final(mem)@,
            final(pmm),
            final(flushes)@,
        ),
{
    slot.as_mut().unwrap().unmap(mem, pmm, flushes, virt, size)
}

/// Maps a range of pages of one size, all or none of them.
pub fn map_range(
    slot: &mut Option<Vmm>,
    mem: &mut [u64],
    pmm: &mut Pmm,
    flushes: &mut Vec<TlbFlush>,
    virt: VAddr,
    phys: PAddr,
    pages: u64,
    flags: PTFlags,
    size: PageSize,
) -> (r: Result<(), MapError>)
    requires
        *old(slot) is Some,
        old(slot).unwrap().wf(old(mem)@, old(pmm)),
        old(slot).unwrap().space(old(mem)@, old(pmm).free_count()).range_fits(
            virt.0,
            phys.0,
            pages as int,
            flags@,
            size,
            0,
        ),
    ensures
        *final(slot) is Some,
        map_range_outcome(
            &old(slot).unwrap(),
            old(mem)@,
            old(pmm),
            old(flushes)@,
            virt.0,
            phys.0,
            pages as int,
            flags@,
            size,
            r,
            &final(slot).unwrap(),
            final(mem)@,
            final(pmm),
            final(flushes)@,
        ),
{
    slot.as_mut().unwrap().map_range(mem, pmm, flushes, virt, phys, pages, flags, size)
}

/// Unmaps a range of pages of one size, up to the first that is not
/// mapped.
pub fn unmap_range(
    slot: &mut Option<Vmm>,
    mem: &mut [u64],
    pmm: &mut Pmm,
    flushes: &mut Vec<TlbFlush>,
    virt: VAddr,
    pages: u64,
    size: PageSize,
) -> (r: Result<(), UnmapError>)
    requires
        *old(slot) is Some,
        old(slot).unwrap().wf(old(mem)@, old(pmm)),
        old(slot).unwrap().space(old(mem)@, old(pmm).free_count()).unmap_fits(
            virt.0,
            pages as int,
            size,
            0,
        ),
    ensures
        *final(slot) is Some,
        unmap_range_outcome(
            &old(slot).unwrap(),
            old(mem)@,
            old(pmm),
            old(flushes)@,
            virt.0,
            pages as int,
            size,
            r,
            &final(slot).unwrap(),
            final(mem)@,
            final(pmm),
            final(flushes)@,
        ),
{
    slot.as_mut().unwrap().unmap_range(mem, pmm, flushes, virt, pages, size)
}

/// Maps a page at its place in the direct map, and tells where that is.
pub fn map_hhdm(
    slot: &mut Option<Vmm>,
    mem: &mut [u64],
    pmm: &mut Pmm,
    flushes: &mut Vec<TlbFlush>,
    hhdm_offset: u64,
    phys: PAddr,
    flags: PTFlags,
    size: PageSize,
) -> (r: Result<VAddr, MapError>)
    requires
        *old(slot) is Some,
        old(slot).unwrap().wf(old(mem)@, old(pmm)),
        phys.0 + hhdm_offset <= u64::MAX,
        old(slot).unwrap().space(old(mem)@, old(pmm).free_count()).map(
            (phys.0 + hhdm_offset) as u64,
            phys.0,
            flags@,
            size,
        ).1 is Ok ==> phys.0 < 0x10_0000_0000_0000,
    ensures
        *final(slot) is Some,
        map_hhdm_outcome(
            &old(slot).unwrap(),
            old(mem)@,
            old(pmm),
            old(flushes)@,
            hhdm_offset,
            phys.0,
            flags@,
            size,
            r,
            &final(slot).unwrap(),
            final(mem)@,
            final(pmm),
            final(flushes)@,
        ),
{
    slot.as_mut().unwrap().map_hhdm(mem, pmm, flushes, hhdm_offset, phys, flags, size)
}

/// Copies the page tables that a value of CR3 refers to.
///
/// Returns the new top-level table, and the value of CR3 that makes the copy
/// the current one: the new address with the other bits as they were.
pub fn take_ownership(mem: &mut [u64], pmm: &mut Pmm, old_cr3: u64) -> (r: Result<
    (PAddr, u64),
    VmmError,
>)
    requires
        old(pmm).wf(old(mem)@),
        old(pmm).total() <= 0x100_0000_0000,
        clone::subtree_ok(old(mem)@, entry::entry_frame(old_cr3), 3, old(pmm).lists()),
    ensures
        final(pmm).wf(final(mem)@),
        final(pmm).total() == old(pmm).total(),
        final(pmm).hhdm() == old(pmm).hhdm(),
        final(mem)@.len() == old(mem)@.len(),
        forall|w: int|
            0 <= w < old(mem)@.len() && !old(pmm).is_free(w / 512) ==> #[trigger] final(mem)@[w]
                == old(mem)@[w],
        ({
            let from = entry::entry_frame(old_cr3);
            let count = 1 + clone::tables_below(old(mem)@, from, 3, 512);
            &&& r is Ok <==> old(pmm).free_count() >= count
            &&& r is Err ==> {
                &&& final(pmm).free_count() == old(pmm).free_count()
                &&& final(pmm).lists() == clone::free_all(
                    alloc_frames(old(pmm).lists(), old(pmm).free_count()),
                    clone::given_back(
                        old(mem)@,
                        from,
                        3,
                        old(pmm).lists(),
                        old(pmm).free_count(),
                    ),
                )
                &&& forall|x: int| #[trigger]
                    free_lists::covers(final(pmm).lists(), x) == free_lists::covers(
                        old(pmm).lists(),
                        x,
                    )
            }
            &&& r matches Ok((top, cr3)) ==> {
                let root = top.0 as int / 4096;
                &&& top.0 % 4096 == 0
                &&& root == free_lists::alloc_frame_of(old(pmm).lists(), 0)
                &&& cr3 == top.0 | (old_cr3 & !entry::ENTRY_ADDR_MASK)
                &&& cr3 & 0x000F_FFFF_FFFF_F000 == top.0
                &&& cr3 & 0xFFF0_0000_0000_0FFF == old_cr3 & 0xFFF0_0000_0000_0FFF
                &&& consistent(final(mem)@, final(pmm), root)
                &&& clone::copied(final(mem)@, root, old(mem)@, from, 3, old(pmm).lists())
                &&& tables::space_of(final(mem)@, root, 0) == tables::space_of(old(mem)@, from, 0)
                &&& final(pmm).lists() == alloc_frames(old(pmm).lists(), count)
                &&& final(pmm).free_count() == old(pmm).free_count() - count
                &&& forall|x: int| #[trigger]
                    tables::is_table(final(mem)@, root, x) ==> free_lists::covers(
                        old(pmm).lists(),
                        x,
                    )
                &&& forall|x: int| #[trigger]
                    free_lists::covers(final(pmm).lists(), x) <==> free_lists::covers(
                        old(pmm).lists(),
                        x,
                    ) && !tables::is_table(final(mem)@, root, x)
            }
        }),
{
    let old_pml4: PAddr = PAddr(old_cr3 & entry::ENTRY_ADDR_MASK);
    let ghost mem0 = mem@;
    let ghost from = entry::entry_frame(old_cr3);
    proof {
        entry::lemma_address_field(old_cr3);
        pmm.lemma_wf(mem0);
    }
    match clone::clone_table(mem, pmm, old_pml4, 3) {
        None => Err(VmmError::OutOfFrames),
        Some(new_pml4) => {
            let ghost root = new_pml4.0 as int / 4096;
            proof {
                pmm.lemma_wf(mem@);
                assert(tables::node(mem@, root, 3, Seq::empty()) == Some(root));
                assert(clone::in_subtree(mem@, root, 3, root));
                entry::lemma_address_field(new_pml4.0);
                assert forall|p: Seq<int>| #[trigger]
                    tables::node(mem@, root, 3, p) is Some <==> tables::node(
                        mem0,
                        from,
                        3,
                        p,
                    ) is Some by {
                    clone::lemma_copied_paths(mem@, root, mem0, from, 3, old(pmm).lists(), p);
                }
                assert forall|p: Seq<int>| #[trigger]
                    tables::leaf_at(mem@, root, 3, p) == tables::leaf_at(mem0, from, 3, p) by {
                    clone::lemma_copied_paths(mem@, root, mem0, from, 3, old(pmm).lists(), p);
                }
                assert(tables::space_of(mem@, root, 0) =~= tables::space_of(mem0, from, 0));
                assert forall|x: int| #[trigger] tables::is_table(mem@, root, x)
                    == clone::in_subtree(mem@, root, 3, x) by {}
            }
            let new_cr3: u64 = (new_pml4.0 & entry::ENTRY_ADDR_MASK) | (old_cr3
                & !entry::ENTRY_ADDR_MASK);
            proof {
                page_laws::law_new_cr3(new_pml4.0, old_cr3, new_cr3);
            }
            Ok((new_pml4, new_cr3))
        },
    }
}

} // verus!
