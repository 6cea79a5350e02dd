//! What uACPI asks of the kernel.
use vstd::prelude::*;

use crate::idt;
use crate::idt::Handlers;
use crate::mm;
use crate::mm::addr::{PAddr, VAddr};
use crate::mm::entry;
use crate::mm::heap::Layout;
use crate::mm::page_laws;
use crate::mm::pmm::Pmm;
use crate::mm::space;
use crate::mm::space::Space;
use crate::mm::space_laws;
use crate::mm::tree::Tree;
use crate::mm::vmm;
use crate::mm::vmm::{MapError, PageSize, TlbFlush, Vmm};

verus! {

/// What is answered to uACPI.
#[derive(Debug, Clone, Copy, PartialEq, Eq, Structural)]
pub enum Status {
    /// Done.
    Done,
    /// An argument makes no sense.
    InvalidArgument,
    /// There is no such thing.
    NotFound,
    /// There is one already.
    AlreadyExists,
    /// It took too long.
    Timeout,
}

/// Revision of the boot protocol that hands over physical addresses.
pub const PHYSICAL_REVISION: u64 = 3;

/// Physical address of the root table.
///
/// The bootloader hands over its physical address in revision 3, and its place
/// in the direct map in all others. There may be no place to put the answer,
/// and no table.
pub fn get_rsdp(
    has_place: bool,
    response: Option<u64>,
    revision: Option<u64>,
    hhdm_offset: u64,
) -> (r: Result<PAddr, Status>)
    ensures
        r == rsdp_of(has_place, response, revision, hhdm_offset),
        r == Err::<PAddr, Status>(Status::InvalidArgument) <==> !has_place,
        r == Err::<PAddr, Status>(Status::NotFound) <==> has_place && response is None,
        r is Ok <==> has_place && response is Some,
        r matches Ok(phys) ==> if revision == Some(3u64) {
            phys.0 == response.unwrap()
        } else {
            (phys.0 + hhdm_offset) % 0x1_0000_0000_0000_0000 == response.unwrap()
        },
{
    if !has_place {
        return Err(Status::InvalidArgument);
    }
    match response {
        None => Err(Status::NotFound),
        Some(address) => {
            let physical: bool = match revision {
                Some(r) => r == PHYSICAL_REVISION,
                None => false,
            };
            if physical {
                Ok(PAddr(address))
            } else {
                Ok(PAddr(address.wrapping_sub(hhdm_offset)))
            }
        },
    }
}

/// Physical address of the root table.
pub open spec fn rsdp_of(
    has_place: bool,
    response: Option<u64>,
    revision: Option<u64>,
    hhdm_offset: u64,
) -> Result<PAddr, Status> {
    if !has_place {
        Err(Status::InvalidArgument)
    } else {
        match response {
            None => Err(Status::NotFound),
            Some(address) => if revision == Some(PHYSICAL_REVISION) {
                Ok(PAddr(address))
            } else if address >= hhdm_offset {
                Ok(PAddr((address - hhdm_offset) as u64))
            } else {
                Ok(PAddr((address - hhdm_offset + 0x1_0000_0000_0000_0000) as u64))
            },
        }
    }
}

/// The pages that hold a range of memory: the start of the first, and the end
/// of the last.
pub fn page_range(addr: PAddr, len: usize) -> (r: (u64, u64))
    requires
        addr.0 + len + 4096 <= u64::MAX,
    ensures
        r.0 == addr.0 as int / 4096 * 4096,
        r.1 == (addr.0 + len + 4095) / 4096 * 4096,
        r.0 % 4096 == 0,
        r.1 % 4096 == 0,
        r.0 <= addr.0 < r.0 + 4096,
        r.1 - 4096 < addr.0 + len <= r.1,
{
    proof {
        vstd::arithmetic::power2::lemma2_to64();
        assert(vstd::arithmetic::power2::pow2(12) == 4096);
    }
    let start: u64 = mm::align_down(addr.0, 4096);
    let end: u64 = mm::align_up(addr.0 + len as u64, 4096);
    (start, end)
}

/// Maps the pages from `phys` to `end` at their place in the direct map, up to
/// the first that cannot be mapped. Pages that are mapped already do not count
/// as such. Says whether all are mapped.
pub open spec fn map_pages(s: Space, phys: int, end: int, hhdm: int) -> (Space, bool)
    decreases end - phys + 4096,
{
    if phys >= end {
        (s, true)
    } else {
        let r = s.map((phys + hhdm) as u64, phys as u64, vmm::device_flags(), PageSize::Base);
        if r.1 is Ok || r.1 == Err::<(), MapError>(MapError::AlreadyMapped) {
            map_pages(r.0, phys + 4096, end, hhdm)
        } else {
            (r.0, false)
        }
    }
}

/// The page tables after the pages from `phys` to `end` were mapped.
pub open spec fn tree_pages(t: Tree, phys: int, end: int, hhdm: int) -> Tree
    decreases end - phys + 4096,
{
    if phys >= end {
        t
    } else {
        let r = t.map((phys + hhdm) as u64, phys as u64, vmm::device_flags(), PageSize::Base);
        if r.1 is Ok || r.1 == Err::<(), MapError>(MapError::AlreadyMapped) {
            tree_pages(r.0, phys + 4096, end, hhdm)
        } else {
            r.0
        }
    }
}

/// No address overflows while the pages are mapped, and every page that is
/// mapped lies within the physical address space.
pub open spec fn pages_fit(s: Space, phys: int, end: int, hhdm: int) -> bool
    decreases end - phys + 4096,
{
    phys >= end || {
        let r = s.map((phys + hhdm) as u64, phys as u64, vmm::device_flags(), PageSize::Base);
        &&& phys + hhdm <= u64::MAX
        &&& r.1 is Ok ==> phys < 0x10_0000_0000_0000
        &&& r.1 is Ok || r.1 == Err::<(), MapError>(MapError::AlreadyMapped) ==> pages_fit(
            r.0,
            phys + 4096,
            end,
            hhdm,
        )
    }
}

/// The flushes while the pages are mapped.
pub open spec fn map_flushes(s: Space, phys: int, end: int, hhdm: int) -> Seq<TlbFlush>
    decreases end - phys + 4096,
{
    if phys >= end {
        Seq::empty()
    } else {
        let r = s.map((phys + hhdm) as u64, phys as u64, vmm::device_flags(), PageSize::Base);
        let rest = map_flushes(r.0, phys + 4096, end, hhdm);
        if r.1 is Ok {
            seq![TlbFlush::Page((phys + hhdm) as u64)] + rest
        } else if r.1 == Err::<(), MapError>(MapError::AlreadyMapped) {
            rest
        } else {
            Seq::empty()
        }
    }
}

/// Maps a page at its place in the direct map, unless it is mapped already.
/// Says whether it now is.
fn map_page(
    vmm: &mut Vmm,
    mem: &mut [u64],
    pmm: &mut Pmm,
    flushes: &mut Vec<TlbFlush>,
    hhdm_offset: u64,
    phys: u64,
) -> (mapped: bool)
    requires
        old(vmm).wf(old(mem)@, old(pmm)),
        phys + hhdm_offset <= u64::MAX,
        old(vmm).space(old(mem)@, old(pmm).free_count()).map(
            (phys + hhdm_offset) as u64,
            phys,
            vmm::device_flags(),
            PageSize::Base,
        ).1 is Ok ==> phys < 0x10_0000_0000_0000,
    ensures
        final(vmm).wf(final(mem)@, final(pmm)),
        final(vmm).root() == old(vmm).root(),
        final(pmm).total() == old(pmm).total(),
        final(pmm).hhdm() == old(pmm).hhdm(),
        vmm::confined(
            old(mem)@,
            old(pmm).lists(),
            final(mem)@,
            final(pmm).lists(),
            old(vmm).root(),
        ),
        ({
            let virt = (phys + hhdm_offset) as u64;
            let expected = old(vmm).space(old(mem)@, old(pmm).free_count()).map(
                virt,
                phys,
                vmm::device_flags(),
                PageSize::Base,
            );
            &&& final(vmm).space(final(mem)@, final(pmm).free_count()) == expected.0
            &&& final(vmm).tree(final(mem)@, final(pmm)) == old(vmm).tree(
                old(mem)@,
                old(pmm),
            ).map(virt, phys, vmm::device_flags(), PageSize::Base).0
            &&& mapped == (expected.1 is Ok || expected.1 == Err::<(), MapError>(
                MapError::AlreadyMapped,
            ))
            &&& final(flushes)@ == old(flushes)@ + (if expected.1 is Ok {
                seq![TlbFlush::Page(virt)]
            } else {
                Seq::empty()
            })
        }),
{
    let ghost fl = flushes@;
    let r = vmm.map(
        mem,
        pmm,
        flushes,
        VAddr(phys + hhdm_offset),
        PAddr(phys),
        vmm::device_page_flags(),
        PageSize::Base,
    );
    proof {
        let virt = (phys + hhdm_offset) as u64;
        assert(fl.push(TlbFlush::Page(virt)) =~= fl + seq![TlbFlush::Page(virt)]);
        assert(fl + Seq::<TlbFlush>::empty() =~= fl);
    }
    match r {
        Ok(()) => true,
        Err(MapError::AlreadyMapped) => true,
        Err(_) => false,
    }
}

proof fn lemma_flush_step(before: Seq<TlbFlush>, s: Space, phys: int, end: int, hhdm: int)
    requires
        phys < end,
    ensures
        ({
            let r = s.map((phys + hhdm) as u64, phys as u64, vmm::device_flags(), PageSize::Base);
            let part = if r.1 is Ok {
                seq![TlbFlush::Page((phys + hhdm) as u64)]
            } else {
                Seq::empty()
            };
            r.1 is Ok || r.1 == Err::<(), MapError>(MapError::AlreadyMapped) ==> before
                + map_flushes(s, phys, end, hhdm) == (before + part) + map_flushes(
                r.0,
                phys + 4096,
                end,
                hhdm,
            )
        }),
{
    let r = s.map((phys + hhdm) as u64, phys as u64, vmm::device_flags(), PageSize::Base);
    let rest = map_flushes(r.0, phys + 4096, end, hhdm);
    let one = seq![TlbFlush::Page((phys + hhdm) as u64)];
    assert(before + (one + rest) =~= (before + one) + rest);
    assert((before + Seq::<TlbFlush>::empty()) + rest =~= before + rest);
}

/// Maps a range of physical memory, which need not be aligned, at its place in
/// the direct map. Returns the address of its start there, or nothing where a
/// page of it could not be mapped.
#[verifier::rlimit(40)]
pub fn kernel_map(
    vmm: &mut Vmm,
    mem: &mut [u64],
    pmm: &mut Pmm,
    flushes: &mut Vec<TlbFlush>,
    hhdm_offset: u64,
    addr: PAddr,
    len: usize,
) -> (r: Option<VAddr>)
    requires
        old(vmm).wf(old(mem)@, old(pmm)),
        addr.0 + len + 4096 <= u64::MAX,
        addr.0 + hhdm_offset <= u64::MAX,
        pages_fit(
            old(vmm).space(old(mem)@, old(pmm).free_count()),
            addr.0 as int / 4096 * 4096,
            (addr.0 + len + 4095) / 4096 * 4096,
            hhdm_offset as int,
        ),
    ensures
        final(vmm).wf(final(mem)@, final(pmm)),
        final(vmm).root() == old(vmm).root(),
        final(pmm).total() == old(pmm).total(),
        final(pmm).hhdm() == old(pmm).hhdm(),
        vmm::confined(
            old(mem)@,
            old(pmm).lists(),
            final(mem)@,
            final(pmm).lists(),
            old(vmm).root(),
        ),
        ({
            let start = addr.0 as int / 4096 * 4096;
            let end = (addr.0 + len + 4095) / 4096 * 4096;
            let s = old(vmm).space(old(mem)@, old(pmm).free_count());
            let expected = map_pages(s, start, end, hhdm_offset as int);
            &&& final(vmm).space(final(mem)@, final(pmm).free_count()) == expected.0
            &&& final(vmm).tree(final(mem)@, final(pmm)) == tree_pages(
                old(vmm).tree(old(mem)@, old(pmm)),
                start,
                end,
                hhdm_offset as int,
            )
            &&& r == if expected.1 {
                Some(VAddr((addr.0 + hhdm_offset) as u64))
            } else {
                None
            }
            &&& final(flushes)@ == old(flushes)@ + map_flushes(
                s,
                start,
                end,
                hhdm_offset as int,
            )
        }),
{
    let (start, end): (u64, u64) = page_range(addr, len);
    let ghost root = vmm.root();
    let ghost mem0 = mem@;
    let ghost l0 = pmm.lists();
    let ghost s0 = vmm.space(mem@, pmm.free_count());
    let ghost tree0 = vmm.tree(mem@, pmm);
    let ghost hh = hhdm_offset as int;
    let mut phys: u64 = start;
    while phys < end
        invariant
            start <= phys,
            phys % 4096 == 0,
            end % 4096 == 0,
            hh == hhdm_offset,
            start == addr.0 as int / 4096 * 4096,
            end == (addr.0 + len + 4095) / 4096 * 4096,
            mem0 == old(mem)@,
            l0 == old(pmm).lists(),
            s0 == old(vmm).space(mem0, old(pmm).free_count()),
            root == vmm.root(),
            vmm.root() == old(vmm).root(),
            vmm.wf(mem@, pmm),
            pmm.total() == old(pmm).total(),
            pmm.hhdm() == old(pmm).hhdm(),
            vmm::confined(mem0, l0, mem@, pmm.lists(), root),
            pages_fit(vmm.space(mem@, pmm.free_count()), phys as int, end as int, hh),
            map_pages(vmm.space(mem@, pmm.free_count()), phys as int, end as int, hh)
                == map_pages(s0, start as int, end as int, hh),
            tree0 == old(vmm).tree(mem0, old(pmm)),
            tree_pages(vmm.tree(mem@, pmm), phys as int, end as int, hh) == tree_pages(
                tree0,
                start as int,
                end as int,
                hh,
            ),
            flushes@ + map_flushes(
                vmm.space(mem@, pmm.free_count()),
                phys as int,
                end as int,
                hh,
            ) == old(flushes)@ + map_flushes(s0, start as int, end as int, hh),
        decreases end - phys,
    {
        let ghost mem1 = mem@;
        let ghost l1 = pmm.lists();
        let ghost s1 = vmm.space(mem@, pmm.free_count());
        let ghost fl1 = flushes@;
        let mapped: bool = map_page(vmm, mem, pmm, flushes, hhdm_offset, phys);
        proof {
            vmm::lemma_confined(mem0, l0, mem1, l1, mem@, pmm.lists(), root);
            lemma_flush_step(fl1, s1, phys as int, end as int, hh);
        }
        if !mapped {
            proof {
                assert(flushes@ =~= fl1);
                assert(fl1 + Seq::<TlbFlush>::empty() =~= fl1);
            }
            return None;
        }
        assert(phys + 4096 <= end);
        assert((phys + 4096) % 4096 == 0) by (nonlinear_arith)
            requires
                phys % 4096 == 0,
        ;
        phys = phys + 4096;
    }
    proof {
        assert(flushes@ + Seq::<TlbFlush>::empty() =~= flushes@);
    }
    Some(VAddr(addr.0 + hhdm_offset))
}

/// The flags for device registers are flags of a page.
proof fn lemma_device_flags()
    ensures
        vmm::device_flags() & entry::PT_FLAGS_ALL == vmm::device_flags(),
{
    let f = entry::P | entry::RW | entry::XD | entry::PCD | entry::PWT;
    assert((f & 0x8000_0000_0000_0F7F) & 0x8000_0000_0000_0F7F == f & 0x8000_0000_0000_0F7F)
        by (bit_vector);
}

/// Mapping pages takes nothing away.
proof fn lemma_map_pages_keep(s: Space, phys: int, end: int, hhdm: int, v: u64)
    requires
        s.wf(),
        0 <= phys,
        0 <= hhdm,
        pages_fit(s, phys, end, hhdm),
        s.translate(v) is Some,
    ensures
        map_pages(s, phys, end, hhdm).0.translate(v) is Some,
    decreases end - phys + 4096,
{
    if phys < end {
        let virt = (phys + hhdm) as u64;
        let flags = vmm::device_flags();
        let r = s.map(virt, phys as u64, flags, PageSize::Base);
        lemma_device_flags();
        space_laws::law_map_keeps(s, virt, phys as u64, flags, PageSize::Base);
        if r.1 is Ok {
            if space_laws::in_page(v, virt, PageSize::Base) {
                space_laws::law_mapped_page_translates(
                    s,
                    virt,
                    phys as u64,
                    flags,
                    PageSize::Base,
                    v,
                );
            } else {
                space_laws::law_map_keeps_other_pages(
                    s,
                    virt,
                    phys as u64,
                    flags,
                    PageSize::Base,
                    v,
                );
            }
        }
        if r.1 is Ok || r.1 == Err::<(), MapError>(MapError::AlreadyMapped) {
            lemma_map_pages_keep(r.0, phys + 4096, end, hhdm, v);
        }
    }
}

/// An address of a page that is mapped already leads somewhere.
proof fn lemma_already_mapped(s: Space, virt: u64, phys: u64, flags: u64, v: u64)
    requires
        s.wf(),
        s.map(virt, phys, flags, PageSize::Base).1 == Err::<(), MapError>(
            MapError::AlreadyMapped,
        ),
        space_laws::in_page(v, virt, PageSize::Base),
    ensures
        s.translate(v) is Some,
{
    let path = space::path_of(virt);
    space_laws::lemma_in_page(v, virt, PageSize::Base);
    assert(space::path_of(v).take(4) =~= space::path_of(v));
    assert(path.take(4) =~= path);
    assert(path.take(4).len() == 4);
    if !s.has(path.take(4)) {
        let k = choose|k: int| 0 < k < 4 && s.leaves.contains_key(#[trigger] path.take(k));
        assert(path.take(k).len() == k);
        assert(k == 2 || k == 3);
    }
}

/// All addresses of the pages that were mapped lead somewhere.
proof fn lemma_map_pages_cover(s: Space, phys: int, end: int, hhdm: int, v: u64)
    requires
        s.wf(),
        0 <= phys,
        phys % 4096 == 0,
        end % 4096 == 0,
        0 <= hhdm,
        phys + hhdm <= v < end + hhdm,
        pages_fit(s, phys, end, hhdm),
        map_pages(s, phys, end, hhdm).1,
    ensures
        map_pages(s, phys, end, hhdm).0.translate(v) is Some,
    decreases end - phys + 4096,
{
    let virt = (phys + hhdm) as u64;
    let flags = vmm::device_flags();
    let r = s.map(virt, phys as u64, flags, PageSize::Base);
    lemma_device_flags();
    space_laws::law_map_keeps(s, virt, phys as u64, flags, PageSize::Base);
    if space_laws::in_page(v, virt, PageSize::Base) {
        if r.1 is Ok {
            space_laws::law_mapped_page_translates(
                s,
                virt,
                phys as u64,
                flags,
                PageSize::Base,
                v,
            );
        } else {
            lemma_already_mapped(s, virt, phys as u64, flags, v);
        }
        lemma_map_pages_keep(r.0, phys + 4096, end, hhdm, v);
    } else {
        lemma_map_pages_cover(r.0, phys + 4096, end, hhdm, v);
    }
}

/// A page that can be mapped is one whose addresses lead nowhere.
proof fn lemma_not_mapped(s: Space, virt: u64, phys: u64, flags: u64, v: u64)
    requires
        s.wf(),
        s.map(virt, phys, flags, PageSize::Base).1 is Ok,
        space_laws::in_page(v, virt, PageSize::Base),
    ensures
        s.translate(v) is None,
{
    let path = space::path_of(virt);
    let pv = space::path_of(v);
    space_laws::lemma_in_page(v, virt, PageSize::Base);
    assert(pv.take(4) =~= pv && path.take(4) =~= path);
    assert(pv.take(2) == path.take(2) && pv.take(3) == path.take(3));
}

/// What mapping one page as device memory makes of an address.
proof fn lemma_one_device_page(s: Space, virt: u64, phys: u64, v: u64)
    requires
        s.wf(),
        s.map(virt, phys, vmm::device_flags(), PageSize::Base).1 is Ok ==> phys
            < 0x10_0000_0000_0000,
    ensures
        ({
            let r = s.map(virt, phys, vmm::device_flags(), PageSize::Base);
            let here = virt <= v < virt + 4096;
            &&& r.0.wf()
            &&& s.translate(v) is Some || !here ==> r.0.translate(v) == s.translate(v)
            &&& r.1 is Ok && here ==> s.translate(v) is None && r.0.translate(v) == Some(
                (phys + (v - virt), 0x8000_0000_0000_001Bu64),
            )
            &&& r.1 == Err::<(), MapError>(MapError::AlreadyMapped) && here ==> s.translate(
                v,
            ) is Some
        }),
{
    let flags = vmm::device_flags();
    let r = s.map(virt, phys, flags, PageSize::Base);
    lemma_device_flags();
    page_laws::law_device_flags();
    assert(0x8000_0000_0000_001Bu64 | 1 == 0x8000_0000_0000_001B) by (bit_vector);
    space_laws::law_map_keeps(s, virt, phys, flags, PageSize::Base);
    if space_laws::in_page(v, virt, PageSize::Base) {
        if r.1 is Ok {
            lemma_not_mapped(s, virt, phys, flags, v);
            space_laws::law_mapped_page_translates(s, virt, phys, flags, PageSize::Base, v);
        } else if r.1 == Err::<(), MapError>(MapError::AlreadyMapped) {
            lemma_already_mapped(s, virt, phys, flags, v);
        }
    } else {
        space_laws::law_map_keeps_other_pages(s, virt, phys, flags, PageSize::Base, v);
    }
}

/// What mapping a range makes of an address: one that led somewhere still leads
/// there, and one outside the range leads where it led. All others of the range
/// lead to the physical address that they stand for, with the flags of device
/// memory: bits 0, 1, 3, 4 and 63.
pub proof fn law_device_memory_leads_to_itself(s: Space, phys: int, end: int, hhdm: int, v: u64)
    requires
        s.wf(),
        0 <= phys,
        phys % 4096 == 0,
        end % 4096 == 0,
        0 <= hhdm,
        pages_fit(s, phys, end, hhdm),
    ensures
        s.translate(v) is Some || !(phys + hhdm <= v < end + hhdm) ==> map_pages(
            s,
            phys,
            end,
            hhdm,
        ).0.translate(v) == s.translate(v),
        map_pages(s, phys, end, hhdm).1 && s.translate(v) is None && phys + hhdm <= v < end + hhdm
            ==> map_pages(s, phys, end, hhdm).0.translate(v) == Some(
            (v - hhdm, 0x8000_0000_0000_001Bu64),
        ),
    decreases end - phys + 4096,
{
    if phys < end {
        let virt = (phys + hhdm) as u64;
        let r = s.map(virt, phys as u64, vmm::device_flags(), PageSize::Base);
        lemma_one_device_page(s, virt, phys as u64, v);
        if r.1 is Ok || r.1 == Err::<(), MapError>(MapError::AlreadyMapped) {
            law_device_memory_leads_to_itself(r.0, phys + 4096, end, hhdm, v);
        }
    }
}

/// The processor is told of every page of a range that was not mapped before.
pub proof fn law_new_device_pages_are_flushed(s: Space, phys: int, end: int, hhdm: int, p: int)
    requires
        s.wf(),
        0 <= phys <= p < end,
        phys % 4096 == 0,
        p % 4096 == 0,
        end % 4096 == 0,
        0 <= hhdm,
        p + hhdm <= u64::MAX,
        pages_fit(s, phys, end, hhdm),
        map_pages(s, phys, end, hhdm).1,
        s.translate((p + hhdm) as u64) is None,
    ensures
        map_flushes(s, phys, end, hhdm).contains(TlbFlush::Page((p + hhdm) as u64)),
    decreases end - phys + 4096,
{
    let virt = (phys + hhdm) as u64;
    let v = (p + hhdm) as u64;
    let flags = vmm::device_flags();
    let r = s.map(virt, phys as u64, flags, PageSize::Base);
    let all = map_flushes(s, phys, end, hhdm);
    space_laws::law_map_keeps(s, virt, phys as u64, flags, PageSize::Base);
    if p == phys {
        if r.1 == Err::<(), MapError>(MapError::AlreadyMapped) {
            lemma_already_mapped(s, virt, phys as u64, flags, v);
        }
        assert(all[0] == TlbFlush::Page(v));
    } else {
        assert(p >= phys + 4096);
        space_laws::law_map_keeps_other_pages(s, virt, phys as u64, flags, PageSize::Base, v);
        law_new_device_pages_are_flushed(r.0, phys + 4096, end, hhdm, p);
        let rest = map_flushes(r.0, phys + 4096, end, hhdm);
        let i = choose|i: int| 0 <= i < rest.len() && rest[i] == TlbFlush::Page(v);
        if r.1 is Ok {
            assert(all[i + 1] == TlbFlush::Page(v));
        } else {
            assert(all[i] == TlbFlush::Page(v));
        }
    }
}

/// A range can be mapped where its addresses in the direct map have bits 47 to
/// 63 all alike, and there are three frames for each of its pages; what is
/// mapped already is no obstacle.
pub proof fn law_device_memory_can_be_mapped(s: Space, phys: int, end: int, hhdm: int)
    requires
        s.wf(),
        0 <= phys,
        phys % 4096 == 0,
        end % 4096 == 0,
        0 <= hhdm,
        hhdm % 4096 == 0,
        end + hhdm <= 0x8000_0000_0000 || (phys + hhdm >= 0xFFFF_8000_0000_0000 && end + hhdm
            <= u64::MAX + 1),
        phys < end ==> end <= u64::MAX + 1,
        s.free >= 3 * ((end - phys) / 4096),
    ensures
        map_pages(s, phys, end, hhdm).1,
    decreases end - phys + 4096,
{
    if phys < end {
        let virt = (phys + hhdm) as u64;
        let flags = vmm::device_flags();
        let r = s.map(virt, phys as u64, flags, PageSize::Base);
        assert(virt as int % 4096 == 0);
        assert((phys as u64) as int % 4096 == 0);
        assert((end - phys) / 4096 >= 1);
        assert((end - (phys + 4096)) / 4096 == (end - phys) / 4096 - 1);
        page_laws::lemma_missing_at_most(s, space::path_of(virt), 4);
        space_laws::law_map_keeps(s, virt, phys as u64, flags, PageSize::Base);
        space::lemma_map_free(s, virt, phys as u64, flags, PageSize::Base);
        law_device_memory_can_be_mapped(r.0, phys + 4096, end, hhdm);
    }
}

/// Where mapping a range succeeds, at least its bytes are mapped from the
/// address that is returned on, however the range is aligned.
pub proof fn law_mapped_range_is_accessible(
    s: Space,
    addr: u64,
    len: int,
    hhdm: int,
    i: int,
)
    requires
        s.wf(),
        0 <= i < len,
        0 <= hhdm,
        addr + i + hhdm <= u64::MAX,
        pages_fit(s, addr as int / 4096 * 4096, (addr + len + 4095) / 4096 * 4096, hhdm),
        map_pages(s, addr as int / 4096 * 4096, (addr + len + 4095) / 4096 * 4096, hhdm).1,
    ensures
        map_pages(
            s,
            addr as int / 4096 * 4096,
            (addr + len + 4095) / 4096 * 4096,
            hhdm,
        ).0.translate((addr + hhdm + i) as u64) is Some,
{
    lemma_map_pages_cover(
        s,
        addr as int / 4096 * 4096,
        (addr + len + 4095) / 4096 * 4096,
        hhdm,
        (addr + hhdm + i) as u64,
    );
}

/// How important a message is.
#[derive(Debug, Clone, Copy, PartialEq, Eq, Structural)]
pub enum LogLevel {
    /// For developers.
    Debug,
    /// For developers, in detail.
    Trace,
    /// For users.
    Info,
    /// Something may go wrong.
    Warn,
    /// Something went wrong.
    Error,
    /// A number that stands for no level.
    Unknown(u32),
}

/// The numbers that stand for the levels.
#[derive(Debug, Clone, Copy, PartialEq, Eq, Structural)]
pub struct LogNumbers {
    /// Number of `LogLevel::Debug`.
    pub debug: u32,
    /// Number of `LogLevel::Trace`.
    pub trace: u32,
    /// Number of `LogLevel::Info`.
    pub info: u32,
    /// Number of `LogLevel::Warn`.
    pub warn: u32,
    /// Number of `LogLevel::Error`.
    pub error: u32,
}

/// The level that a number stands for.
pub open spec fn level_of(numbers: LogNumbers, number: u32) -> LogLevel {
    if number == numbers.debug {
        LogLevel::Debug
    } else if number == numbers.trace {
        LogLevel::Trace
    } else if number == numbers.info {
        LogLevel::Info
    } else if number == numbers.warn {
        LogLevel::Warn
    } else if number == numbers.error {
        LogLevel::Error
    } else {
        LogLevel::Unknown(number)
    }
}

/// The level that a number stands for.
pub fn log_level(numbers: &LogNumbers, number: u32) -> (level: LogLevel)
    ensures
        level == level_of(*numbers, number),
        level == LogLevel::Debug <==> number == numbers.debug,
        number == numbers.trace ==> level == LogLevel::Debug || level == LogLevel::Trace,
        number == numbers.info && number != numbers.debug && number != numbers.trace ==> level
            == LogLevel::Info,
        number == numbers.warn && number != numbers.debug && number != numbers.trace && number
            != numbers.info ==> level == LogLevel::Warn,
        number == numbers.error && number != numbers.debug && number != numbers.trace && number
            != numbers.info && number != numbers.warn ==> level == LogLevel::Error,
        level is Unknown <==> number != numbers.debug && number != numbers.trace && number
            != numbers.info && number != numbers.warn && number != numbers.error,
        level matches LogLevel::Unknown(n) ==> n == number,
{
    if number == numbers.debug {
        LogLevel::Debug
    } else if number == numbers.trace {
        LogLevel::Trace
    } else if number == numbers.info {
        LogLevel::Info
    } else if number == numbers.warn {
        LogLevel::Warn
    } else if number == numbers.error {
        LogLevel::Error
    } else {
        LogLevel::Unknown(number)
    }
}

/// Most bytes of what a message starts with.
pub const LOG_PREFIX_MAX: usize = 31;

/// The bytes of a text in which every character is one byte.
pub open spec fn bytes_of(text: Seq<char>) -> Seq<u8> {
    Seq::new(text.len(), |i: int| text[i] as u8)
}

/// The digits of a number.
pub open spec fn decimal(n: nat) -> Seq<u8>
    decreases n,
{
    if n < 10 {
        seq![(48 + n) as u8]
    } else {
        decimal(n / 10).push((48 + n % 10) as u8)
    }
}

/// The number that digits stand for.
pub open spec fn value_of(digits: Seq<u8>) -> int
    decreases digits.len(),
{
    if digits.len() == 0 {
        0
    } else {
        value_of(digits.drop_last()) * 10 + (digits.last() - 48)
    }
}

/// The digits of a number are decimal digits, they stand for the number, and
/// none is there that could be left out.
pub proof fn law_decimal_digits(n: nat)
    ensures
        decimal(n).len() > 0,
        forall|i: int| 0 <= i < decimal(n).len() ==> 48 <= #[trigger] decimal(n)[i] <= 57,
        value_of(decimal(n)) == n,
        decimal(n).len() > 1 ==> decimal(n)[0] != 48,
    decreases n,
{
    if n >= 10 {
        law_decimal_digits(n / 10);
        let front = decimal(n / 10);
        assert(decimal(n).drop_last() =~= front);
        assert forall|i: int| 0 <= i < decimal(n).len() implies 48 <= #[trigger] decimal(n)[i]
            <= 57 by {
            if i < front.len() {
                assert(decimal(n)[i] == front[i]);
            }
        }
        assert(decimal(n)[0] == front[0]);
        assert(decimal(n).last() == 48 + n % 10);
        if front.len() == 1 {
            assert(value_of(front.drop_last()) == 0);
            assert(value_of(front) == front[0] - 48);
        }
    } else {
        assert(decimal(n).drop_last().len() == 0);
        assert(value_of(decimal(n).drop_last()) == 0);
        assert(decimal(n).last() == 48 + n);
    }
}

/// What messages start with in the log, letter by letter.
pub proof fn law_prefixes(number: u32, i: int)
    ensures
        prefix_of(LogLevel::Debug) == prefix_of(LogLevel::Trace),
        prefix_of(LogLevel::Debug).len() == "[debug] "@.len(),
        0 <= i < "[debug] "@.len() ==> prefix_of(LogLevel::Debug)[i] == "[debug] "@[i] as u8,
        prefix_of(LogLevel::Info).len() == "[info] "@.len(),
        0 <= i < "[info] "@.len() ==> prefix_of(LogLevel::Info)[i] == "[info] "@[i] as u8,
        prefix_of(LogLevel::Warn).len() == "[warning] "@.len(),
        0 <= i < "[warning] "@.len() ==> prefix_of(LogLevel::Warn)[i] == "[warning] "@[i] as u8,
        prefix_of(LogLevel::Error).len() == "[error] "@.len(),
        0 <= i < "[error] "@.len() ==> prefix_of(LogLevel::Error)[i] == "[error] "@[i] as u8,
        ({
            let all = prefix_of(LogLevel::Unknown(number));
            let front = "[unknown log level "@;
            let digits = decimal(number as nat);
            &&& all.len() == front.len() + digits.len() + "] "@.len()
            &&& 0 <= i < front.len() ==> all[i] == front[i] as u8
            &&& 0 <= i < digits.len() ==> all[front.len() + i] == digits[i]
            &&& 0 <= i < "] "@.len() ==> all[front.len() + digits.len() + i] == "] "@[i] as u8
        }),
{
}

/// What a message starts with in the log.
pub open spec fn prefix_of(level: LogLevel) -> Seq<u8> {
    match level {
        LogLevel::Debug => bytes_of("[debug] "@),
        LogLevel::Trace => bytes_of("[debug] "@),
        LogLevel::Info => bytes_of("[info] "@),
        LogLevel::Warn => bytes_of("[warning] "@),
        LogLevel::Error => bytes_of("[error] "@),
        LogLevel::Unknown(number) => bytes_of("[unknown log level "@) + decimal(number as nat)
            + bytes_of("] "@),
    }
}

/// `out` with some bytes written over it from a place on.
pub open spec fn written(out: Seq<u8>, at: int, bytes: Seq<u8>) -> Seq<u8> {
    out.take(at) + bytes + out.skip(at + bytes.len())
}

/// Writes a text of one-byte characters into a buffer and returns where it
/// ends.
fn put_text(out: &mut [u8], at: usize, text: &str) -> (end: usize)
    requires
        text.is_ascii(),
        at + text@.len() <= old(out)@.len(),
    ensures
        end == at + text@.len(),
        final(out)@ == written(old(out)@, at as int, bytes_of(text@)),
{
    let size: usize = out.len();
    let len: usize = text.unicode_len();
    let mut i: usize = 0;
    while i < len
        invariant
            text.is_ascii(),
            len == text@.len(),
            i <= len,
            at + len <= size,
            size == old(out)@.len(),
            out@.len() == old(out)@.len(),
            forall|j: int|
                0 <= j < out@.len() ==> #[trigger] out@[j] == (if at <= j < at + i {
                    text@[j - at] as u8
                } else {
                    old(out)@[j]
                }),
        decreases len - i,
    {
        out[at + i] = text.get_ascii(i);
        i = i + 1;
    }
    assert(out@ =~= written(old(out)@, at as int, bytes_of(text@)));
    at + len
}

/// A number below a power of ten has no more digits than the exponent says.
proof fn lemma_decimal_len(n: nat, digits: nat)
    requires
        digits > 0,
        n < vstd::arithmetic::power::pow(10, digits),
    ensures
        1 <= decimal(n).len() <= digits,
    decreases n,
{
    if n >= 10 {
        vstd::arithmetic::power::lemma_pow1(10);
        if digits > 1 {
            reveal(vstd::arithmetic::power::pow);
            lemma_decimal_len(n / 10, (digits - 1) as nat);
        }
    }
}

/// Writes a number into a buffer and returns where it ends.
fn put_decimal(out: &mut [u8], at: usize, n: u32) -> (end: usize)
    requires
        at + decimal(n as nat).len() <= old(out)@.len(),
    ensures
        end == at + decimal(n as nat).len(),
        final(out)@ == written(old(out)@, at as int, decimal(n as nat)),
    decreases n,
{
    if n < 10 {
        out[at] = 48 + n as u8;
        assert(out@ =~= written(old(out)@, at as int, decimal(n as nat)));
        at + 1
    } else {
        let end: usize = put_decimal(out, at, n / 10);
        out[end] = 48 + (n % 10) as u8;
        assert(out@ =~= written(old(out)@, at as int, decimal(n as nat)));
        end + 1
    }
}

/// Writes what a message of a level starts with into a buffer and returns its
/// length.
pub fn log_prefix(level: LogLevel, out: &mut [u8]) -> (len: usize)
    requires
        old(out)@.len() >= LOG_PREFIX_MAX,
    ensures
        len == prefix_of(level).len(),
        len <= LOG_PREFIX_MAX,
        final(out)@ == written(old(out)@, 0, prefix_of(level)),
{
    proof {
        reveal_strlit("[debug] ");
        reveal_strlit("[info] ");
        reveal_strlit("[warning] ");
        reveal_strlit("[error] ");
        reveal_strlit("[unknown log level ");
        reveal_strlit("] ");
    }
    match level {
        LogLevel::Debug => put_text(out, 0, "[debug] "),
        LogLevel::Trace => put_text(out, 0, "[debug] "),
        LogLevel::Info => put_text(out, 0, "[info] "),
        LogLevel::Warn => put_text(out, 0, "[warning] "),
        LogLevel::Error => put_text(out, 0, "[error] "),
        LogLevel::Unknown(number) => {
            proof {
                reveal_with_fuel(vstd::arithmetic::power::pow, 11);
                lemma_decimal_len(number as nat, 10);
            }
            let at: usize = put_text(out, 0, "[unknown log level ");
            let end: usize = put_decimal(out, at, number);
            let len: usize = put_text(out, end, "] ");
            assert(out@ =~= written(old(out)@, 0, prefix_of(level)));
            len
        },
    }
}

/// Port of a register in a range of ports.
pub fn io_port(base: u16, offset: u16) -> (port: u16)
    requires
        base + offset <= u16::MAX,
    ensures
        port == base + offset,
{
    base + offset
}

/// Layout of an allocation: at least one byte, aligned to 16. There is none
/// for a size that does not fit a signed number once it is rounded up.
pub fn alloc_layout(size: usize) -> (r: Option<Layout>)
    ensures
        r == layout_of(size),
        r is None <==> size > isize::MAX - 15,
        r matches Some(layout) ==> layout.align == 16 && layout.size == (if size == 0 {
            1
        } else {
            size
        }),
{
    let bytes: usize = if size == 0 {
        1
    } else {
        size
    };
    if bytes > isize::MAX as usize - 15 {
        None
    } else {
        Some(Layout { size: bytes, align: 16 })
    }
}

/// Layout of an allocation.
pub open spec fn layout_of(size: usize) -> Option<Layout> {
    let bytes: usize = if size == 0 {
        1
    } else {
        size
    };
    if bytes > isize::MAX - 15 {
        None
    } else {
        Some(Layout { size: bytes, align: 16 })
    }
}

/// Time at which to stop spinning for a number of microseconds.
pub fn stall_end(start: u64, usec: u8) -> (end: u64)
    requires
        start + usec * 1000 <= u64::MAX,
    ensures
        end == start + usec * 1000,
{
    start + usec as u64 * 1000
}

/// Time at which to stop sleeping for a number of milliseconds.
pub fn sleep_end(start: u64, msec: u64) -> (end: u64)
    requires
        start + msec * 1_000_000 <= u64::MAX,
    ensures
        end == start + msec * 1_000_000,
{
    start + msec * 1_000_000
}

/// Whether a wait goes on: until its end is reached.
pub fn goes_on(now: u64, end: u64) -> (r: bool)
    ensures
        r == (now < end),
{
    now < end
}

/// Whether a wait until `end` reads these times of the clock: it goes on after
/// each of them but the last.
pub open spec fn waits(readings: Seq<u64>, end: int) -> bool {
    &&& readings.len() > 0
    &&& forall|i: int| 0 <= i < readings.len() - 1 ==> #[trigger] readings[i] < end
    &&& readings.last() >= end
}

/// A stall lasts for as long as was asked for, and stops at the first reading
/// of the clock that shows it.
pub proof fn law_stall_lasts(start: u64, usec: u8, readings: Seq<u64>)
    requires
        waits(readings, start + usec * 1000),
    ensures
        readings.last() - start >= usec * 1000,
        forall|i: int|
            0 <= i < readings.len() - 1 ==> #[trigger] readings[i] - start < usec * 1000,
{
}

/// A sleep lasts for as long as was asked for, and stops at the first reading
/// of the clock that shows it.
pub proof fn law_sleep_lasts(start: u64, msec: u64, readings: Seq<u64>)
    requires
        waits(readings, start + msec * 1_000_000),
    ensures
        readings.last() - start >= msec * 1_000_000,
        forall|i: int|
            0 <= i < readings.len() - 1 ==> #[trigger] readings[i] - start < msec * 1_000_000,
{
}

/// An event that counts how often it was signalled.
#[derive(Debug, Clone, Copy, PartialEq, Eq, Structural)]
pub struct SimpleEvent {
    counter: usize,
}

impl SimpleEvent {
    /// How often the event was signalled and not waited for.
    pub closed spec fn view(&self) -> usize {
        self.counter
    }

    /// An event that was not signalled.
    pub fn new() -> (e: Self)
        ensures
            e@ == 0,
    {
        SimpleEvent { counter: 0 }
    }

    /// An event with a counter.
    pub fn with_counter(counter: usize) -> (e: Self)
        ensures
            e@ == counter,
    {
        SimpleEvent { counter }
    }

    /// The counter.
    pub fn counter(&self) -> (c: usize)
        ensures
            c == self@,
    {
        self.counter
    }

    /// Takes one signal away, if there is one.
    pub fn decrement(&mut self) -> (taken: bool)
        ensures
            taken == (old(self)@ > 0),
            final(self)@ == (if taken {
                (old(self)@ - 1) as usize
            } else {
                old(self)@
            }),
    {
        if self.counter == 0 {
            return false;
        }
        self.counter = self.counter - 1;
        true
    }

    /// Signals the event. The counter starts over after its greatest value.
    pub fn signal(&mut self)
        ensures
            final(self)@ == (if old(self)@ == usize::MAX {
                0
            } else {
                (old(self)@ + 1) as usize
            }),
    {
        self.counter = self.counter.wrapping_add(1);
    }

    /// Forgets all signals.
    pub fn reset(&mut self)
        ensures
            final(self)@ == 0,
    {
        self.counter = 0;
    }
}

/// How far waiting for a mutex has come.
#[derive(Debug, Clone, Copy, PartialEq, Eq, Structural)]
pub enum MutexWait {
    /// Wait as long as it takes.
    Forever,
    /// Try once.
    Once,
    /// Find out when to give up: after this many milliseconds.
    Begin(u16),
    /// Find out whether it is time to give up.
    Check(u64),
    /// Try; the time to give up is noted.
    Try(u64),
    /// Pause for a millisecond; the time to give up is noted.
    Pause(u64),
    /// Over: the mutex was taken, or not.
    Over(bool),
}

/// What to do next about a mutex.
#[derive(Debug, Clone, Copy, PartialEq, Eq, Structural)]
pub enum MutexAction {
    /// Take it, however long that takes.
    Lock,
    /// Try to take it.
    TryLock,
    /// Read the time in nanoseconds.
    ReadTime,
    /// Sleep for a millisecond.
    Sleep,
    /// Answer with this status.
    Answer(Status),
}

/// What came of it.
#[derive(Debug, Clone, Copy, PartialEq, Eq, Structural)]
pub enum MutexEvent {
    /// The mutex was taken.
    Locked,
    /// The mutex was tried.
    Tried(bool),
    /// The time.
    Time(u64),
    /// The sleep is over.
    Slept,
}

/// Nanoseconds of a timeout.
pub open spec fn timeout_ns(timeout: u16) -> int {
    timeout * 1_000_000
}

impl MutexWait {
    /// What to do next.
    pub open spec fn next_action(self) -> MutexAction {
        match self {
            MutexWait::Forever => MutexAction::Lock,
            MutexWait::Once => MutexAction::TryLock,
            MutexWait::Begin(_) => MutexAction::ReadTime,
            MutexWait::Check(_) => MutexAction::ReadTime,
            MutexWait::Try(_) => MutexAction::TryLock,
            MutexWait::Pause(_) => MutexAction::Sleep,
            MutexWait::Over(taken) => if taken {
                MutexAction::Answer(Status::Done)
            } else {
                MutexAction::Answer(Status::Timeout)
            },
        }
    }

    /// The event is one that can come of what is done next.
    pub open spec fn expects(self, event: MutexEvent) -> bool {
        match self.next_action() {
            MutexAction::Lock => event is Locked,
            MutexAction::TryLock => event is Tried,
            MutexAction::ReadTime => event is Time,
            MutexAction::Sleep => event is Slept,
            MutexAction::Answer(_) => false,
        }
    }

    /// What follows from an event.
    pub open spec fn after(self, event: MutexEvent) -> MutexWait {
        match (self, event) {
            (MutexWait::Forever, MutexEvent::Locked) => MutexWait::Over(true),
            (MutexWait::Once, MutexEvent::Tried(taken)) => MutexWait::Over(taken),
            (MutexWait::Begin(timeout), MutexEvent::Time(now)) => MutexWait::Check(
                (now + timeout_ns(timeout)) as u64,
            ),
            (MutexWait::Check(deadline), MutexEvent::Time(now)) => if now < deadline {
                MutexWait::Try(deadline)
            } else {
                MutexWait::Over(false)
            },
            (MutexWait::Try(deadline), MutexEvent::Tried(taken)) => if taken {
                MutexWait::Over(true)
            } else {
                MutexWait::Pause(deadline)
            },
            (MutexWait::Pause(deadline), MutexEvent::Slept) => MutexWait::Check(deadline),
            _ => self,
        }
    }
}

/// How waiting for a mutex with a timeout in milliseconds starts: 0 means to
/// try once, 0xFFFF to wait as long as it takes.
pub open spec fn wait_start(timeout: u16) -> MutexWait {
    if timeout == 0xFFFF {
        MutexWait::Forever
    } else if timeout == 0 {
        MutexWait::Once
    } else {
        MutexWait::Begin(timeout)
    }
}

/// Starts waiting for a mutex.
pub fn acquire_mutex(timeout: u16) -> (w: MutexWait)
    ensures
        w == wait_start(timeout),
{
    match timeout {
        0xFFFF => MutexWait::Forever,
        0x0000 => MutexWait::Once,
        _ => MutexWait::Begin(timeout),
    }
}

impl MutexWait {
    /// What to do next.
    pub fn action(&self) -> (a: MutexAction)
        ensures
            a == self.next_action(),
    {
        match *self {
            MutexWait::Forever => MutexAction::Lock,
            MutexWait::Once => MutexAction::TryLock,
            MutexWait::Begin(_) => MutexAction::ReadTime,
            MutexWait::Check(_) => MutexAction::ReadTime,
            MutexWait::Try(_) => MutexAction::TryLock,
            MutexWait::Pause(_) => MutexAction::Sleep,
            MutexWait::Over(taken) => {
                if taken {
                    MutexAction::Answer(Status::Done)
                } else {
                    MutexAction::Answer(Status::Timeout)
                }
            },
        }
    }

    /// Goes on with what came of it.
    pub fn proceed(&mut self, event: MutexEvent)
        requires
            old(self).expects(event),
            *old(self) matches MutexWait::Begin(timeout) ==> (event matches MutexEvent::Time(now)
                ==> now + timeout_ns(timeout) <= u64::MAX),
        ensures
            *final(self) == old(self).after(event),
    {
        let next: MutexWait = match (*self, event) {
            (MutexWait::Forever, MutexEvent::Locked) => MutexWait::Over(true),
            (MutexWait::Once, MutexEvent::Tried(taken)) => MutexWait::Over(taken),
            (MutexWait::Begin(timeout), MutexEvent::Time(now)) => MutexWait::Check(
                now + timeout as u64 * 1_000_000,
            ),
            (MutexWait::Check(deadline), MutexEvent::Time(now)) => {
                if now < deadline {
                    MutexWait::Try(deadline)
                } else {
                    MutexWait::Over(false)
                }
            },
            (MutexWait::Try(deadline), MutexEvent::Tried(taken)) => {
                if taken {
                    MutexWait::Over(true)
                } else {
                    MutexWait::Pause(deadline)
                }
            },
            (MutexWait::Pause(deadline), MutexEvent::Slept) => MutexWait::Check(deadline),
            (other, _) => other,
        };
        *self = next;
    }
}

/// The waiting after a sequence of events.
pub open spec fn mutex_run(w: MutexWait, events: Seq<MutexEvent>) -> MutexWait
    decreases events.len(),
{
    if events.len() == 0 {
        w
    } else {
        mutex_run(w, events.drop_last()).after(events.last())
    }
}

/// The events answer what was asked for each time.
pub open spec fn mutex_expected(w: MutexWait, events: Seq<MutexEvent>) -> bool {
    forall|i: int|
        0 <= i < events.len() ==> #[trigger] mutex_run(w, events.take(i)).expects(events[i])
}

/// While waiting with a timeout, the time to give up is the start plus the
/// timeout.
proof fn lemma_deadline(timeout: u16, start: u64, events: Seq<MutexEvent>, n: int)
    requires
        0 < timeout < 0xFFFF,
        0 < n <= events.len(),
        events[0] == MutexEvent::Time(start),
        start + timeout_ns(timeout) <= u64::MAX,
        mutex_expected(wait_start(timeout), events),
    ensures
        ({
            let end = (start + timeout_ns(timeout)) as u64;
            match mutex_run(wait_start(timeout), events.take(n)) {
                MutexWait::Check(d) => d == end,
                MutexWait::Try(d) => d == end,
                MutexWait::Pause(d) => d == end,
                MutexWait::Over(taken) => !taken ==> (events[n - 1] matches MutexEvent::Time(now)
                    && now >= end),
                _ => false,
            }
        }),
    decreases n,
{
    let w = wait_start(timeout);
    let t = events.take(n);
    assert(t.drop_last() =~= events.take(n - 1));
    assert(t.last() == events[n - 1]);
    assert(mutex_run(w, events.take(n - 1)).expects(events[n - 1]));
    if n == 1 {
        assert(events.take(0) =~= Seq::empty());
    } else {
        lemma_deadline(timeout, start, events, n - 1);
    }
}

/// Waiting for a mutex with a timeout is given up only once the timeout has
/// passed since the first reading of the time.
pub proof fn law_mutex_timeout_is_not_early(
    timeout: u16,
    start: u64,
    events: Seq<MutexEvent>,
)
    requires
        0 < timeout < 0xFFFF,
        events.len() > 0,
        events[0] == MutexEvent::Time(start),
        start + timeout_ns(timeout) <= u64::MAX,
        mutex_expected(wait_start(timeout), events),
        mutex_run(wait_start(timeout), events) == MutexWait::Over(false),
    ensures
        events.last() matches MutexEvent::Time(now) && now >= start + timeout_ns(timeout),
{
    lemma_deadline(timeout, start, events, events.len() as int);
    assert(events.take(events.len() as int) =~= events);
}

/// Waiting for a mutex ends with success if and only if the mutex was taken in
/// its last step.
pub proof fn law_mutex_answer_tells_what_happened(
    timeout: u16,
    events: Seq<MutexEvent>,
    taken: bool,
)
    requires
        mutex_expected(wait_start(timeout), events),
        mutex_run(wait_start(timeout), events) == MutexWait::Over(taken),
    ensures
        events.len() > 0,
        taken <==> (events.last() is Locked || events.last() == MutexEvent::Tried(true)),
{
    if events.len() > 0 {
        let n = events.len() - 1;
        assert(events.take(n) =~= events.drop_last());
        assert(mutex_run(wait_start(timeout), events.take(n)).expects(events[n]));
    }
}

/// A mutex without a timeout is tried exactly once, and a mutex with an endless
/// one is waited for until it is taken.
pub proof fn law_mutex_special_timeouts(taken: bool)
    ensures
        wait_start(0).next_action() == MutexAction::TryLock,
        wait_start(0).after(MutexEvent::Tried(taken)).next_action() == MutexAction::Answer(
            if taken {
                Status::Done
            } else {
                Status::Timeout
            },
        ),
        wait_start(0xFFFF).next_action() == MutexAction::Lock,
        wait_start(0xFFFF).after(MutexEvent::Locked).next_action() == MutexAction::Answer(
            Status::Done,
        ),
{
}

/// Waiting with a timeout, round by round: the time is read, and a reading at or
/// after the time to give up ends the waiting; before it, the mutex is tried,
/// and after an attempt without success there is a pause.
pub proof fn law_mutex_rounds(timeout: u16, start: u64, deadline: u64, now: u64)
    ensures
        0 < timeout < 0xFFFF ==> wait_start(timeout).next_action() == MutexAction::ReadTime,
        0 < timeout < 0xFFFF && start + timeout * 1_000_000 <= u64::MAX ==> wait_start(
            timeout,
        ).after(MutexEvent::Time(start)) == MutexWait::Check(
            (start + timeout * 1_000_000) as u64,
        ),
        MutexWait::Check(deadline).next_action() == MutexAction::ReadTime,
        now < deadline ==> MutexWait::Check(deadline).after(MutexEvent::Time(now))
            == MutexWait::Try(deadline),
        now >= deadline ==> MutexWait::Check(deadline).after(MutexEvent::Time(now))
            == MutexWait::Over(false),
        MutexWait::Try(deadline).next_action() == MutexAction::TryLock,
        MutexWait::Try(deadline).after(MutexEvent::Tried(true)) == MutexWait::Over(true),
        MutexWait::Try(deadline).after(MutexEvent::Tried(false)) == MutexWait::Pause(deadline),
        MutexWait::Pause(deadline).next_action() == MutexAction::Sleep,
        MutexWait::Pause(deadline).after(MutexEvent::Slept) == MutexWait::Check(deadline),
        MutexWait::Over(true).next_action() == MutexAction::Answer(Status::Done),
        MutexWait::Over(false).next_action() == MutexAction::Answer(Status::Timeout),
{
}

/// Waiting for a mutex is given up at the first reading of the time at which the
/// timeout has passed, a millisecond being a million nanoseconds, and at no
/// earlier one.
pub proof fn law_mutex_timeout_is_exact(
    timeout: u16,
    start: u64,
    events: Seq<MutexEvent>,
    now: u64,
)
    requires
        0 < timeout < 0xFFFF,
        events.len() > 1,
        events[0] == MutexEvent::Time(start),
        events.last() == MutexEvent::Time(now),
        start + timeout * 1_000_000 <= u64::MAX,
        mutex_expected(wait_start(timeout), events),
    ensures
        mutex_run(wait_start(timeout), events) == MutexWait::Over(false) <==> now >= start + timeout
            * 1_000_000,
{
    let n = events.len() - 1;
    lemma_deadline(timeout, start, events, n);
    assert(events.take(n) =~= events.drop_last());
    assert(mutex_run(wait_start(timeout), events.take(n)).expects(events[n]));
}

/// How far waiting for an event has come.
#[derive(Debug, Clone, Copy, PartialEq, Eq, Structural)]
pub enum EventWait {
    /// Try, as often as it takes.
    TryForever,
    /// Pause, then try again.
    PauseForever,
    /// Try; so many milliseconds are left.
    Try(i64),
    /// Pause; so many milliseconds are left.
    Pause(i64),
    /// Over: the event came, or not.
    Over(bool),
}

/// What to do next about an event.
#[derive(Debug, Clone, Copy, PartialEq, Eq, Structural)]
pub enum EventAction {
    /// Take a signal away, if there is one.
    Decrement,
    /// Sleep for ten milliseconds.
    Sleep,
    /// Answer.
    Answer(bool),
}

impl EventWait {
    /// What to do next.
    pub open spec fn next_action(self) -> EventAction {
        match self {
            EventWait::TryForever => EventAction::Decrement,
            EventWait::PauseForever => EventAction::Sleep,
            EventWait::Try(_) => EventAction::Decrement,
            EventWait::Pause(_) => EventAction::Sleep,
            EventWait::Over(came) => EventAction::Answer(came),
        }
    }

    /// What follows an attempt to take a signal away.
    pub open spec fn after_try(self, taken: bool) -> EventWait {
        match self {
            EventWait::TryForever => if taken {
                EventWait::Over(true)
            } else {
                EventWait::PauseForever
            },
            EventWait::Try(remaining) => if taken {
                EventWait::Over(true)
            } else if remaining <= 0 {
                EventWait::Over(false)
            } else {
                EventWait::Pause(remaining)
            },
            _ => self,
        }
    }

    /// What follows a pause.
    pub open spec fn after_pause(self) -> EventWait {
        match self {
            EventWait::PauseForever => EventWait::TryForever,
            EventWait::Pause(remaining) => EventWait::Try((remaining - 10) as i64),
            _ => self,
        }
    }

    /// What to do next.
    pub fn action(&self) -> (a: EventAction)
        ensures
            a == self.next_action(),
    {
        match *self {
            EventWait::TryForever => EventAction::Decrement,
            EventWait::PauseForever => EventAction::Sleep,
            EventWait::Try(_) => EventAction::Decrement,
            EventWait::Pause(_) => EventAction::Sleep,
            EventWait::Over(came) => EventAction::Answer(came),
        }
    }

    /// Goes on after an attempt to take a signal away.
    pub fn tried(&mut self, taken: bool)
        requires
            old(self).next_action() == EventAction::Decrement,
        ensures
            *final(self) == old(self).after_try(taken),
    {
        let next: EventWait = match *self {
            EventWait::TryForever => {
                if taken {
                    EventWait::Over(true)
                } else {
                    EventWait::PauseForever
                }
            },
            EventWait::Try(remaining) => {
                if taken {
                    EventWait::Over(true)
                } else if remaining <= 0 {
                    EventWait::Over(false)
                } else {
                    EventWait::Pause(remaining)
                }
            },
            other => other,
        };
        *self = next;
    }

    /// Goes on after a pause.
    pub fn slept(&mut self)
        requires
            old(self).next_action() == EventAction::Sleep,
            *old(self) matches EventWait::Pause(remaining) ==> remaining > 0,
        ensures
            *final(self) == old(self).after_pause(),
    {
        let next: EventWait = match *self {
            EventWait::PauseForever => EventWait::TryForever,
            EventWait::Pause(remaining) => EventWait::Try(remaining - 10),
            other => other,
        };
        *self = next;
    }
}

/// How waiting for an event with a timeout in milliseconds starts: 0xFFFF means
/// to wait as long as it takes.
pub open spec fn event_start(timeout: u16) -> EventWait {
    if timeout == 0xFFFF {
        EventWait::TryForever
    } else {
        EventWait::Try(timeout as i64)
    }
}

/// Starts waiting for an event.
pub fn wait_for_event(timeout: u16) -> (w: EventWait)
    ensures
        w == event_start(timeout),
{
    if timeout == 0xFFFF {
        EventWait::TryForever
    } else {
        EventWait::Try(timeout as i64)
    }
}

/// The waiting after `k` attempts without success and as many pauses.
pub open spec fn after_rounds(w: EventWait, k: nat) -> EventWait
    decreases k,
{
    if k == 0 {
        w
    } else {
        after_rounds(w, (k - 1) as nat).after_try(false).after_pause()
    }
}

/// An event that does not come is waited for until the pauses add up to the
/// timeout, and no longer than that takes.
pub proof fn law_event_timeout(timeout: u16, k: nat)
    requires
        timeout < 0xFFFF,
        k > 0 ==> 10 * (k - 1) < timeout,
    ensures
        after_rounds(event_start(timeout), k) == EventWait::Try((timeout - 10 * k) as i64),
        10 * k >= timeout ==> after_rounds(event_start(timeout), k).after_try(false)
            == EventWait::Over(false),
        10 * k < timeout ==> after_rounds(event_start(timeout), k).after_try(false) is Pause,
    decreases k,
{
    if k > 0 {
        law_event_timeout(timeout, (k - 1) as nat);
    }
}

/// A signal that is taken away ends the waiting with success at every attempt,
/// and an event with an endless timeout is waited for without end.
pub proof fn law_event_attempts(timeout: u16, remaining: i64, k: nat)
    ensures
        event_start(timeout).next_action() == EventAction::Decrement,
        event_start(timeout).after_try(true) == EventWait::Over(true),
        EventWait::Try(remaining).next_action() == EventAction::Decrement,
        EventWait::Try(remaining).after_try(true) == EventWait::Over(true),
        EventWait::Pause(remaining).next_action() == EventAction::Sleep,
        EventWait::TryForever.next_action() == EventAction::Decrement,
        EventWait::TryForever.after_try(true) == EventWait::Over(true),
        EventWait::PauseForever.next_action() == EventAction::Sleep,
        EventWait::Over(true).next_action() == EventAction::Answer(true),
        EventWait::Over(false).next_action() == EventAction::Answer(false),
        remaining <= 0 ==> EventWait::Try(remaining).after_try(false) == EventWait::Over(false),
        remaining > 0 ==> EventWait::Try(remaining).after_try(false) == EventWait::Pause(
            remaining,
        ),
        remaining > 0 ==> EventWait::Pause(remaining).after_pause() == EventWait::Try(
            (remaining - 10) as i64,
        ),
        EventWait::TryForever.after_try(false) == EventWait::PauseForever,
        EventWait::PauseForever.after_pause() == EventWait::TryForever,
        after_rounds(event_start(0xFFFF), k).next_action() == EventAction::Decrement,
        after_rounds(event_start(0xFFFF), k) == EventWait::TryForever,
        after_rounds(event_start(0xFFFF), k).after_try(false) == EventWait::PauseForever,
    decreases k,
{
    if k > 0 {
        law_event_attempts(timeout, remaining, (k - 1) as nat);
    }
}

/// Number of the interrupt of an interrupt line in the table of handlers.
pub open spec fn vector_of(irq: u32) -> u8 {
    ((irq + 0x20) % 256) as u8
}

/// Sets the handler of an interrupt line, unless it has one. Returns the number
/// by which the handler is referred to.
pub fn install_interrupt_handler(handlers: &mut Handlers, irq: u32, handler: usize) -> (r: Result<
    u8,
    Status,
>)
    requires
        irq + 0x20 <= u32::MAX,
    ensures
        ({
            let vector = vector_of(irq);
            if old(handlers)@[vector as int] != 0 {
                r == Err::<u8, Status>(Status::AlreadyExists) && final(handlers)@ == old(
                    handlers,
                )@
            } else {
                r == Ok::<u8, Status>(vector) && final(handlers)@ == old(handlers)@.update(
                    vector as int,
                    handler,
                )
            }
        }),
        r matches Ok(vector) ==> vector == (irq + 32) % 256,
        r is Err <==> old(handlers)@[(irq + 32) % 256] != 0,
{
    let wide: u32 = irq + 0x20;
    proof {
        assert(wide as u8 == wide % 256) by (bit_vector);
    }
    let vector: u8 = wide as u8;
    if idt::is_handler_installed(handlers, vector) {
        return Err(Status::AlreadyExists);
    }
    idt::install_handler(handlers, vector, handler);
    Ok(vector)
}

/// Removes a handler by the number that it is referred to by.
pub fn uninstall_interrupt_handler(handlers: &mut Handlers, irq_handle: u64)
    ensures
        final(handlers)@ == old(handlers)@.update((irq_handle % 256) as int, 0),
{
    proof {
        assert(irq_handle as u8 == irq_handle % 256) by (bit_vector);
    }
    idt::clear_handler(handlers, irq_handle as u8);
}

/// A handler can be removed by the number that installing it returned, and then
/// installed again.
pub proof fn law_uninstall_undoes_install(table: Seq<usize>, irq: u32, handler: usize)
    requires
        table.len() == 256,
        irq + 0x20 <= u32::MAX,
        table[vector_of(irq) as int] == 0,
    ensures
        table.update(vector_of(irq) as int, handler).update(vector_of(irq) as int, 0) == table,
{
    let v = vector_of(irq) as int;
    assert(table.update(v, handler).update(v, 0) =~= table);
}

} // verus!
