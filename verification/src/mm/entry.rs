//! Page-table entries and indices, as the `x86` crate encodes them.
use vstd::prelude::*;
use x86::bits64::paging;

use crate::mm::addr::VAddr;

verus! {

/// The bits of an entry that hold a physical address.
pub const ENTRY_ADDR_MASK: u64 = 0x000F_FFFF_FFFF_F000;

/// Present.
pub const P: u64 = 0x1;

/// Writable.
pub const RW: u64 = 0x2;

/// Accessible from user mode.
pub const US: u64 = 0x4;

/// Write-through.
pub const PWT: u64 = 0x8;

/// Cache disabled.
pub const PCD: u64 = 0x10;

/// Page size: the entry of a PDPT or a PD maps a page.
pub const PS: u64 = 0x80;

/// Global.
pub const G: u64 = 0x100;

/// Execution disabled.
pub const XD: u64 = 0x8000_0000_0000_0000;

/// All bits that a flag set of a page table can hold.
pub const PT_FLAGS_ALL: u64 = 0x8000_0000_0000_0F7F;

/// All bits that a flag set of a PD or a PDPT can hold.
pub const PD_FLAGS_ALL: u64 = 0x8000_0000_0000_1FFF;

/// All bits that a flag set of a PML4 can hold.
pub const PML4_FLAGS_ALL: u64 = 0x8000_0000_0000_0E3F;

/// The entry is in use.
pub open spec fn present(entry: u64) -> bool {
    entry & P != 0
}

/// The page-size bit is set.
pub open spec fn page_bit(entry: u64) -> bool {
    entry & PS != 0
}

/// Physical address that the entry holds.
pub open spec fn entry_addr(entry: u64) -> u64 {
    entry & ENTRY_ADDR_MASK
}

/// Frame that the entry refers to.
pub open spec fn entry_frame(entry: u64) -> int {
    entry_addr(entry) as int / 4096
}

/// Whether an entry of a table of the given level refers to a table of the
/// level below. Level 3 is the PML4, level 0 a page table.
pub open spec fn is_dir(entry: u64, level: int) -> bool {
    present(entry) && level >= 1 && !(level <= 2 && page_bit(entry))
}

/// Whether an entry of a table of the given level maps a page.
pub open spec fn is_leaf(entry: u64, level: int) -> bool {
    present(entry) && level <= 2 && (level <= 0 || page_bit(entry))
}

/// Index into the table of the given level.
pub open spec fn level_index(virt: u64, level: int) -> int {
    if level == 3 {
        (virt as int / 0x80_0000_0000) % 512
    } else if level == 2 {
        (virt as int / 0x4000_0000) % 512
    } else if level == 1 {
        (virt as int / 0x20_0000) % 512
    } else {
        (virt as int / 0x1000) % 512
    }
}

/// An entry of zero is unused.
pub proof fn lemma_zero_entry()
    ensures
        !present(0),
{
    assert(0u64 & 1 == 0) by (bit_vector);
}

/// Tests on the bits of an entry.
pub proof fn lemma_leaf_test(e: u64)
    ensures
        e & (1u64 << 7) == e & PS,
{
    assert(e & (1u64 << 7) == e & 0x80) by (bit_vector);
}

/// The part of an entry that is no address.
pub proof fn lemma_flag_part(e: u64)
    ensures
        (e & !ENTRY_ADDR_MASK) & ENTRY_ADDR_MASK == 0,
        present(e & !ENTRY_ADDR_MASK) == present(e),
        page_bit(e & !ENTRY_ADDR_MASK) == page_bit(e),
{
    assert((e & !0x000F_FFFF_FFFF_F000u64) & 0x000F_FFFF_FFFF_F000 == 0 && (e
        & !0x000F_FFFF_FFFF_F000u64) & 1 == e & 1 && (e & !0x000F_FFFF_FFFF_F000u64) & 0x80 == e
        & 0x80) by (bit_vector);
}

/// What an entry made of an address and flags says.
pub proof fn lemma_entry_parts(addr: u64, flags: u64)
    requires
        addr & ENTRY_ADDR_MASK == addr,
        flags & ENTRY_ADDR_MASK == 0,
    ensures
        entry_addr(addr | flags) == addr,
        present(addr | flags) == present(flags),
        page_bit(addr | flags) == page_bit(flags),
        (addr | flags) & PT_FLAGS_ALL == flags & PT_FLAGS_ALL,
{
    let e = addr | flags;
    assert(e & 0x000F_FFFF_FFFF_F000 == addr && e & 1 == flags & 1 && e & 0x80 == flags & 0x80 && e
        & 0x8000_0000_0000_0F7F == flags & 0x8000_0000_0000_0F7F) by (bit_vector)
        requires
            e == addr | flags,
            addr & 0x000F_FFFF_FFFF_F000 == addr,
            flags & 0x000F_FFFF_FFFF_F000 == 0,
    ;
}

/// The address field holds multiples of the frame size below 2^52.
pub proof fn lemma_address_field(addr: u64)
    ensures
        addr & ENTRY_ADDR_MASK == addr <==> addr % 4096 == 0 && addr < 0x10_0000_0000_0000,
        (addr & ENTRY_ADDR_MASK) % 4096 == 0,
        addr & ENTRY_ADDR_MASK < 0x10_0000_0000_0000,
{
    assert(addr & 0x000F_FFFF_FFFF_F000 == addr <==> addr % 4096 == 0 && addr
        < 0x10_0000_0000_0000) by (bit_vector);
    assert((addr & 0x000F_FFFF_FFFF_F000) % 4096 == 0 && addr & 0x000F_FFFF_FFFF_F000
        < 0x10_0000_0000_0000) by (bit_vector);
}

/// `x86::bits64::paging::pml4_index`: bits 39 to 47 of the address.
#[verifier::external_body]
pub(crate) fn pml4_index(virt: VAddr) -> (index: usize)
    ensures
        index == (virt.0 as int / 0x80_0000_0000) % 512,
{
    paging::pml4_index(paging::VAddr(virt.0))
}

/// `x86::bits64::paging::pdpt_index`: bits 30 to 38 of the address.
#[verifier::external_body]
pub(crate) fn pdpt_index(virt: VAddr) -> (index: usize)
    ensures
        index == (virt.0 as int / 0x4000_0000) % 512,
{
    paging::pdpt_index(paging::VAddr(virt.0))
}

/// `x86::bits64::paging::pd_index`: bits 21 to 29 of the address.
#[verifier::external_body]
pub(crate) fn pd_index(virt: VAddr) -> (index: usize)
    ensures
        index == (virt.0 as int / 0x20_0000) % 512,
{
    paging::pd_index(paging::VAddr(virt.0))
}

/// `x86::bits64::paging::pt_index`: bits 12 to 20 of the address.
#[verifier::external_body]
pub(crate) fn pt_index(virt: VAddr) -> (index: usize)
    ensures
        index == (virt.0 as int / 0x1000) % 512,
{
    paging::pt_index(paging::VAddr(virt.0))
}

/// `PML4Entry::new`: the address with the flags set in it. It panics unless
/// the address has bits in the address field only.
#[verifier::external_body]
pub(crate) fn pml4_entry(addr: u64, flags: u64) -> (entry: u64)
    requires
        addr & ENTRY_ADDR_MASK == addr,
        flags & PML4_FLAGS_ALL == flags,
    ensures
        entry == addr | flags,
{
    paging::PML4Entry::new(
        paging::PAddr(addr),
        paging::PML4Flags::from_bits_truncate(flags),
    ).0
}

/// `PDPTEntry::new`: the address with the flags set in it. It panics unless
/// the address has bits in the address field only.
#[verifier::external_body]
pub(crate) fn pdpt_entry(addr: u64, flags: u64) -> (entry: u64)
    requires
        addr & ENTRY_ADDR_MASK == addr,
        flags & PD_FLAGS_ALL == flags,
    ensures
        entry == addr | flags,
{
    paging::PDPTEntry::new(
        paging::PAddr(addr),
        paging::PDPTFlags::from_bits_truncate(flags),
    ).0
}

/// `PDEntry::new`: the address with the flags set in it. It panics unless the
/// address has bits in the address field only.
#[verifier::external_body]
pub(crate) fn pd_entry(addr: u64, flags: u64) -> (entry: u64)
    requires
        addr & ENTRY_ADDR_MASK == addr,
        flags & PD_FLAGS_ALL == flags,
    ensures
        entry == addr | flags,
{
    paging::PDEntry::new(
        paging::PAddr(addr),
        paging::PDFlags::from_bits_truncate(flags),
    ).0
}

/// `PTEntry::new`: the address with the flags set in it. It panics unless the
/// address has bits in the address field only.
#[verifier::external_body]
pub(crate) fn pt_entry(addr: u64, flags: u64) -> (entry: u64)
    requires
        addr & ENTRY_ADDR_MASK == addr,
        flags & PT_FLAGS_ALL == flags,
    ensures
        entry == addr | flags,
{
    paging::PTEntry::new(
        paging::PAddr(addr),
        paging::PTFlags::from_bits_truncate(flags),
    ).0
}

/// `PML4Entry::address`: the address field.
#[verifier::external_body]
pub(crate) fn pml4_entry_address(entry: u64) -> (addr: u64)
    ensures
        addr == entry_addr(entry),
{
    paging::PML4Entry(entry).address().0
}

/// `PDPTEntry::address`: the address field.
#[verifier::external_body]
pub(crate) fn pdpt_entry_address(entry: u64) -> (addr: u64)
    ensures
        addr == entry_addr(entry),
{
    paging::PDPTEntry(entry).address().0
}

/// `PDEntry::address`: the address field.
#[verifier::external_body]
pub(crate) fn pd_entry_address(entry: u64) -> (addr: u64)
    ensures
        addr == entry_addr(entry),
{
    paging::PDEntry(entry).address().0
}

/// `PTEntry::address`: the address field.
#[verifier::external_body]
pub(crate) fn pt_entry_address(entry: u64) -> (addr: u64)
    ensures
        addr == entry_addr(entry),
{
    paging::PTEntry(entry).address().0
}

/// `PML4Entry::is_present`: the present bit.
#[verifier::external_body]
pub(crate) fn pml4_entry_is_present(entry: u64) -> (r: bool)
    ensures
        r == present(entry),
{
    paging::PML4Entry(entry).is_present()
}

/// `PDPTEntry::is_present`: the present bit.
#[verifier::external_body]
pub(crate) fn pdpt_entry_is_present(entry: u64) -> (r: bool)
    ensures
        r == present(entry),
{
    paging::PDPTEntry(entry).is_present()
}

/// `PDEntry::is_present`: the present bit.
#[verifier::external_body]
pub(crate) fn pd_entry_is_present(entry: u64) -> (r: bool)
    ensures
        r == present(entry),
{
    paging::PDEntry(entry).is_present()
}

/// `PTEntry::is_present`: the present bit.
#[verifier::external_body]
pub(crate) fn pt_entry_is_present(entry: u64) -> (r: bool)
    ensures
        r == present(entry),
{
    paging::PTEntry(entry).is_present()
}

/// `PDPTEntry::is_page`: the page-size bit.
#[verifier::external_body]
pub(crate) fn pdpt_entry_is_page(entry: u64) -> (r: bool)
    ensures
        r == page_bit(entry),
{
    paging::PDPTEntry(entry).is_page()
}

/// `PDEntry::is_page`: the page-size bit.
#[verifier::external_body]
pub(crate) fn pd_entry_is_page(entry: u64) -> (r: bool)
    ensures
        r == page_bit(entry),
{
    paging::PDEntry(entry).is_page()
}

/// `PTFlags::from_bits_truncate`: the bits that are flags of a page table.
#[verifier::external_body]
pub(crate) fn pt_flags(bits: u64) -> (flags: u64)
    ensures
        flags == bits & PT_FLAGS_ALL,
{
    paging::PTFlags::from_bits_truncate(bits).bits()
}

} // verus!
