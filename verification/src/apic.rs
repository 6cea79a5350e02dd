//! Interrupt controllers: what the ACPI table says of them, and the keyboard
//! interrupt.
use vstd::prelude::*;

use crate::mm::addr::{PAddr, VAddr};
use crate::mm::page_laws;
use crate::mm::pmm::Pmm;
use crate::mm::vmm;
use crate::mm::vmm::{MapError, PageSize, TlbFlush, Vmm};

verus! {

/// Interrupt of the keyboard on the legacy bus.
pub const KEYBOARD_IRQ: u8 = 1;

/// Number of the keyboard interrupt in the table of handlers.
pub const KEYBOARD_VECTOR: u8 = 0x21;

/// Why the interrupt controllers could not be set up.
#[derive(Debug)]
pub enum ApicError {
    /// There is no ACPI table that describes them.
    AcpiTableNotFound,
    /// The table names no I/O controller.
    IoApicNotFound,
    /// The registers of the I/O controller could not be mapped.
    CouldNotMap(MapError),
}

/// An entry of the ACPI table that describes the interrupt controllers.
#[derive(Debug, Clone, Copy, PartialEq, Eq, Structural)]
pub enum MadtEntry {
    /// An I/O controller.
    IoApic {
        /// Physical address of its registers.
        address: u32,
        /// First interrupt that it handles.
        gsi_base: u32,
    },
    /// An interrupt of the legacy bus that has another number.
    InterruptSourceOverride {
        /// Number on the legacy bus.
        source: u8,
        /// The other number.
        gsi: u32,
    },
    /// Anything else.
    Other,
}

/// Whether to go on with the next entry.
#[derive(Debug, Clone, Copy, PartialEq, Eq, Structural)]
pub enum IterationDecision {
    /// Go on.
    Continue,
    /// Stop.
    Break,
}

/// The first I/O controller from entry `i` on.
pub open spec fn first_ioapic(madt: Seq<MadtEntry>, i: int) -> Option<(u32, u32)>
    decreases madt.len() - i,
{
    if i < 0 || i >= madt.len() {
        None
    } else {
        match madt[i] {
            MadtEntry::IoApic { address, gsi_base } => Some((address, gsi_base)),
            _ => first_ioapic(madt, i + 1),
        }
    }
}

/// The number of an interrupt of the legacy bus, from entry `i` on: that of the
/// first override for it, or its own.
pub open spec fn isa_gsi(madt: Seq<MadtEntry>, source: u8, i: int) -> u32
    decreases madt.len() - i,
{
    if i < 0 || i >= madt.len() {
        source as u32
    } else {
        match madt[i] {
            MadtEntry::InterruptSourceOverride { source: s, gsi } if s == source => gsi,
            _ => isa_gsi(madt, source, i + 1),
        }
    }
}

/// Looks at an entry for an I/O controller.
fn ioapic_cb(out: &mut Option<(PAddr, u32)>, entry: MadtEntry) -> (decision: IterationDecision)
    ensures
        match entry {
            MadtEntry::IoApic { address, gsi_base } => *final(out) == Some(
                (PAddr(address as u64), gsi_base),
            ) && decision == IterationDecision::Break,
            _ => *final(out) == *old(out) && decision == IterationDecision::Continue,
        },
{
    match entry {
        MadtEntry::IoApic { address, gsi_base } => {
            *out = Some((PAddr(address as u64), gsi_base));
            IterationDecision::Break
        },
        _ => IterationDecision::Continue,
    }
}

/// Finds the first I/O controller and the first interrupt that it handles.
/// There may be no table.
pub fn find_ioapic(madt: Option<&[MadtEntry]>) -> (r: Result<(PAddr, u32), ApicError>)
    ensures
        match madt {
            None => r matches Err(ApicError::AcpiTableNotFound),
            Some(entries) => match first_ioapic(entries@, 0) {
                Some((address, gsi_base)) => r matches Ok(found) && found == (
                    PAddr(address as u64),
                    gsi_base,
                ),
                None => r matches Err(ApicError::IoApicNotFound),
            },
        },
        madt matches Some(entries) ==> (r is Err <==> forall|j: int|
            0 <= j < entries@.len() ==> !(#[trigger] entries@[j] is IoApic)),
{
    let entries: &[MadtEntry] = match madt {
        Some(e) => e,
        None => {
            return Err(ApicError::AcpiTableNotFound);
        },
    };
    proof {
        law_no_ioapic_is_found_only_without_one(entries@);
    }
    let mut out: Option<(PAddr, u32)> = None;
    let mut i: usize = 0;
    while i < entries.len()
        invariant_except_break
            i <= entries@.len(),
            out is None,
            first_ioapic(entries@, 0) == first_ioapic(entries@, i as int),
        ensures
            match out {
                Some(found) => first_ioapic(entries@, 0) matches Some((address, gsi_base))
                    && found == (PAddr(address as u64), gsi_base),
                None => first_ioapic(entries@, 0) is None,
            },
        decreases entries@.len() - i,
    {
        let decision: IterationDecision = ioapic_cb(&mut out, entries[i]);
        if decision == IterationDecision::Break {
            break;
        }
        i = i + 1;
    }
    match out {
        Some(found) => Ok(found),
        None => Err(ApicError::IoApicNotFound),
    }
}

/// Looks at an entry for an override of an interrupt.
fn iso_cb(source: u8, gsi: &mut u32, entry: MadtEntry) -> (decision: IterationDecision)
    ensures
        match entry {
            MadtEntry::InterruptSourceOverride { source: s, gsi: g } if s == source => *final(gsi)
                == g && decision == IterationDecision::Break,
            _ => *final(gsi) == *old(gsi) && decision == IterationDecision::Continue,
        },
{
    match entry {
        MadtEntry::InterruptSourceOverride { source: s, gsi: g } => {
            if s == source {
                *gsi = g;
                IterationDecision::Break
            } else {
                IterationDecision::Continue
            }
        },
        _ => IterationDecision::Continue,
    }
}

/// The number of an interrupt of the legacy bus. Without a table it keeps its
/// own.
pub fn resolve_isa_irq(madt: Option<&[MadtEntry]>, source: u8) -> (gsi: u32)
    ensures
        gsi == match madt {
            Some(entries) => isa_gsi(entries@, source, 0),
            None => source as u32,
        },
{
    let entries: &[MadtEntry] = match madt {
        Some(e) => e,
        None => {
            return source as u32;
        },
    };
    let mut gsi: u32 = source as u32;
    let mut i: usize = 0;
    while i < entries.len()
        invariant_except_break
            i <= entries@.len(),
            gsi == source,
            isa_gsi(entries@, source, 0) == isa_gsi(entries@, source, i as int),
        ensures
            gsi == isa_gsi(entries@, source, 0),
        decreases entries@.len() - i,
    {
        let decision: IterationDecision = iso_cb(source, &mut gsi, entries[i]);
        if decision == IterationDecision::Break {
            break;
        }
        i = i + 1;
    }
    gsi
}

/// Finds the I/O controller, maps its registers at their place in the direct
/// map, and tells at which of its inputs the keyboard is.
pub fn init(
    vmm: &mut Vmm,
    mem: &mut [u64],
    pmm: &mut Pmm,
    flushes: &mut Vec<TlbFlush>,
    hhdm_offset: u64,
    madt: Option<&[MadtEntry]>,
) -> (r: Result<(VAddr, u8), ApicError>)
    requires
        old(vmm).wf(old(mem)@, old(pmm)),
        madt matches Some(entries) ==> (first_ioapic(entries@, 0) matches Some((address, base))
            ==> {
            &&& isa_gsi(entries@, KEYBOARD_IRQ, 0) >= base
            &&& address + hhdm_offset <= u64::MAX
        }),
    ensures
        final(vmm).wf(final(mem)@, final(pmm)),
        final(vmm).root() == old(vmm).root(),
        final(pmm).total() == old(pmm).total(),
        final(pmm).hhdm() == old(pmm).hhdm(),
        ioapic_outcome(
            old(vmm),
            old(mem)@,
            old(pmm),
            old(flushes)@,
            hhdm_offset,
            match madt {
                Some(entries) => Some(entries@),
                None => None,
            },
            r,
            final(vmm),
            final(mem)@,
            final(pmm),
            final(flushes)@,
        ),
{
    let (phys, base_gsi): (PAddr, u32) = match find_ioapic(madt) {
        Ok(found) => found,
        Err(e) => {
            return Err(e);
        },
    };
    let kb_gsi: u32 = resolve_isa_irq(madt, KEYBOARD_IRQ);
    let pin: u32 = kb_gsi - base_gsi;
    proof {
        assert(pin as u8 == pin % 256) by (bit_vector);
    }
    match vmm.map_hhdm(
        mem,
        pmm,
        flushes,
        hhdm_offset,
        phys,
        vmm::device_page_flags(),
        PageSize::Base,
    ) {
        Ok(virt) => Ok((virt, pin as u8)),
        Err(e) => Err(ApicError::CouldNotMap(e)),
    }
}

/// What setting up the I/O controller returns and changes.
pub open spec fn ioapic_outcome(
    vmm: &Vmm,
    mem: Seq<u64>,
    pmm: &Pmm,
    flushes: Seq<TlbFlush>,
    hhdm_offset: u64,
    madt: Option<Seq<MadtEntry>>,
    r: Result<(VAddr, u8), ApicError>,
    vmm2: &Vmm,
    mem2: Seq<u64>,
    pmm2: &Pmm,
    flushes2: Seq<TlbFlush>,
) -> bool {
    let s = vmm.space(mem, pmm.free_count());
    let unchanged = mem2 == mem && pmm2.lists() == pmm.lists() && flushes2 == flushes;
    match madt {
        None => r matches Err(ApicError::AcpiTableNotFound) && unchanged,
        Some(entries) => match first_ioapic(entries, 0) {
            None => r matches Err(ApicError::IoApicNotFound) && unchanged,
            Some((address, base)) => {
                let virt = (address + hhdm_offset) as u64;
                let expected = s.map(virt, address as u64, vmm::device_flags(), PageSize::Base);
                &&& vmm2.space(mem2, pmm2.free_count()) == expected.0
                &&& vmm2.tree(mem2, pmm2) == vmm.tree(mem, pmm).map(
                    virt,
                    address as u64,
                    vmm::device_flags(),
                    PageSize::Base,
                ).0
                &&& match expected.1 {
                    Ok(_) => r matches Ok((v, pin)) && v.0 == virt && pin == (isa_gsi(
                        entries,
                        KEYBOARD_IRQ,
                        0,
                    ) - base) % 256,
                    Err(e) => r matches Err(ApicError::CouldNotMap(e2)) && e2 == e,
                }
                &&& flushes2 == (if r is Ok {
                    flushes.push(TlbFlush::Page(virt))
                } else {
                    flushes
                })
                &&& pmm2.lists() == if r is Ok {
                    vmm::alloc_frames(pmm.lists(), pmm.free_count() - pmm2.free_count())
                } else {
                    pmm.lists()
                }
                &&& vmm::confined(mem, pmm.lists(), mem2, pmm2.lists(), vmm.root())
            },
        },
    }
}

/// An interrupt without an override keeps its number.
pub proof fn law_no_override_keeps_number(madt: Seq<MadtEntry>, source: u8, i: int)
    requires
        0 <= i,
        forall|j: int|
            i <= j < madt.len() ==> !(#[trigger] madt[j] matches MadtEntry::InterruptSourceOverride {
                source: s,
                ..
            } && s == source),
    ensures
        isa_gsi(madt, source, i) == source,
    decreases madt.len() - i,
{
    if i < madt.len() {
        law_no_override_keeps_number(madt, source, i + 1);
    }
}

/// The first override for an interrupt takes effect.
pub proof fn law_override_takes_effect(madt: Seq<MadtEntry>, i: int, source: u8)
    requires
        0 <= i < madt.len(),
        madt[i] matches MadtEntry::InterruptSourceOverride { source: s, .. } && s == source,
        forall|j: int|
            0 <= j < i ==> !(#[trigger] madt[j] matches MadtEntry::InterruptSourceOverride {
                source: s,
                ..
            } && s == source),
    ensures
        madt[i] matches MadtEntry::InterruptSourceOverride { gsi, .. } && isa_gsi(
            madt,
            source,
            0,
        ) == gsi,
{
    lemma_first_override(madt, i, source, 0);
}

proof fn lemma_first_override(madt: Seq<MadtEntry>, i: int, source: u8, k: int)
    requires
        0 <= k <= i < madt.len(),
        madt[i] matches MadtEntry::InterruptSourceOverride { source: s, .. } && s == source,
        forall|j: int|
            0 <= j < i ==> !(#[trigger] madt[j] matches MadtEntry::InterruptSourceOverride {
                source: s,
                ..
            } && s == source),
    ensures
        madt[i] matches MadtEntry::InterruptSourceOverride { gsi, .. } && isa_gsi(
            madt,
            source,
            k,
        ) == gsi,
    decreases i - k,
{
    if k < i {
        lemma_first_override(madt, i, source, k + 1);
    }
}

/// Without an I/O controller in the table none is found, and none is found only
/// without one.
pub proof fn law_no_ioapic_is_found_only_without_one(madt: Seq<MadtEntry>)
    ensures
        first_ioapic(madt, 0) is None <==> forall|j: int|
            0 <= j < madt.len() ==> !(#[trigger] madt[j] is IoApic),
{
    lemma_first_ioapic(madt, 0);
}

/// The first I/O controller of the table is found, wherever it stands.
pub proof fn law_first_ioapic_is_found(madt: Seq<MadtEntry>, i: int)
    requires
        0 <= i < madt.len(),
        madt[i] is IoApic,
        forall|j: int| 0 <= j < i ==> !(#[trigger] madt[j] is IoApic),
    ensures
        madt[i] matches MadtEntry::IoApic { address, gsi_base } && first_ioapic(madt, 0) == Some(
            (address, gsi_base),
        ),
{
    lemma_first_ioapic(madt, 0);
}

/// What is found from entry `k` on is the first controller there.
proof fn lemma_first_ioapic(madt: Seq<MadtEntry>, k: int)
    requires
        0 <= k,
    ensures
        first_ioapic(madt, k) is None <==> forall|j: int|
            k <= j < madt.len() ==> !(#[trigger] madt[j] is IoApic),
        forall|i: int|
            k <= i < madt.len() && (#[trigger] madt[i] is IoApic) && (forall|j: int|
                k <= j < i ==> !(#[trigger] madt[j] is IoApic)) ==> (
            madt[i] matches MadtEntry::IoApic { address, gsi_base } && first_ioapic(madt, k)
                == Some((address, gsi_base))),
    decreases madt.len() - k,
{
    if k < madt.len() {
        lemma_first_ioapic(madt, k + 1);
        assert forall|i: int|
            k <= i < madt.len() && (#[trigger] madt[i] is IoApic) && (forall|j: int|
                k <= j < i ==> !(#[trigger] madt[j] is IoApic)) implies (
        madt[i] matches MadtEntry::IoApic { address, gsi_base } && first_ioapic(madt, k) == Some(
            (address, gsi_base),
        )) by {
            if i > k {
                assert(!(madt[k] is IoApic));
            }
        }
    }
}

/// Setting up the I/O controller: where entry `i` of the table is the first one
/// and the keyboard has interrupt number `gsi`, the registers can be used at the
/// place of their physical address in the direct map, uncached, and the input of
/// the keyboard is the distance of its number from the first of the controller.
/// It fails only where the registers cannot be mapped.
pub proof fn law_ioapic_is_set_up(
    vmm: &Vmm,
    mem: Seq<u64>,
    pmm: &Pmm,
    flushes: Seq<TlbFlush>,
    hhdm_offset: u64,
    madt: Seq<MadtEntry>,
    i: int,
    r: Result<(VAddr, u8), ApicError>,
    vmm2: &Vmm,
    mem2: Seq<u64>,
    pmm2: &Pmm,
    flushes2: Seq<TlbFlush>,
    offset: int,
)
    requires
        vmm.wf(mem, pmm),
        vmm2.root() == vmm.root(),
        0 <= i < madt.len(),
        madt[i] is IoApic,
        forall|j: int| 0 <= j < i ==> !(#[trigger] madt[j] is IoApic),
        madt[i]->address + hhdm_offset <= u64::MAX,
        0 <= offset < 0x1000,
        ioapic_outcome(
            vmm,
            mem,
            pmm,
            flushes,
            hhdm_offset,
            Some(madt),
            r,
            vmm2,
            mem2,
            pmm2,
            flushes2,
        ),
    ensures
        ({
            let address = madt[i]->address;
            let virt = (address + hhdm_offset) as u64;
            &&& r matches Ok((v, pin)) ==> {
                &&& v.0 == address + hhdm_offset
                &&& pin == (isa_gsi(madt, 1, 0) - madt[i]->gsi_base) % 256
                &&& vmm2.space(mem2, 0).translate((v.0 + offset) as u64) == Some(
                    (address + offset, 0x8000_0000_0000_001Bu64),
                )
            }
            &&& r is Err <==> (0x8000_0000_0000 <= virt < 0xFFFF_8000_0000_0000) || virt % 0x1000
                != 0 || address % 0x1000 != 0 || page_laws::page_taken(
                mem,
                vmm.root(),
                virt,
                PageSize::Base,
            ) || page_laws::tables_missing(mem, vmm.root(), virt, PageSize::Base)
                > pmm.free_count()
        }),
{
    law_first_ioapic_is_found(madt, i);
    let address = madt[i]->address as u64;
    let virt = (address + hhdm_offset) as u64;
    let v = if virt + offset <= u64::MAX {
        (virt + offset) as u64
    } else {
        virt
    };
    pmm.lemma_wf(mem);
    page_laws::law_device_flags();
    page_laws::lemma_device_page(
        mem,
        vmm.root(),
        pmm.free_count(),
        virt,
        address,
        mem2,
        pmm2.free_count(),
        v,
    );
}

} // verus!
