//! Page tables.
use kernel::mm::addr::{PAddr, VAddr};
use kernel::mm::entry::{G, P, PCD, PWT, RW, US, XD};
use kernel::mm::pmm::Pmm;
use kernel::mm::vmm;
use kernel::mm::vmm::{MapError, PTFlags, PageSize, TlbFlush, UnmapError, Vmm, VmmError};

const HHDM: u64 = 0xFFFF_8000_0000_0000;
const VIRT: u64 = 0xFFFF_9234_5678_9000;

struct Machine {
    mem: Vec<u64>,
    pmm: Pmm,
    vmm: Vmm,
    flushes: Vec<TlbFlush>,
}

/// A machine whose top-level table is in frame 1, with free frames from 8 on.
fn machine(free: u64) -> Machine {
    let frames = 64usize;
    let map: &'static mut [u8] = Box::leak(vec![0u8; frames].into_boxed_slice());
    let mut mem = vec![0u64; frames * 512];
    let mut pmm = Pmm::new(map, frames as u64, HHDM);
    pmm.add_range(&mut mem, 8, free);
    Machine { mem, pmm, vmm: Vmm::new(PAddr(4096)), flushes: Vec::new() }
}

impl Machine {
    fn map(&mut self, virt: u64, phys: u64, flags: u64, size: PageSize) -> Result<(), MapError> {
        self.vmm.map(
            &mut self.mem,
            &mut self.pmm,
            &mut self.flushes,
            VAddr(virt),
            PAddr(phys),
            PTFlags::from_bits_truncate(flags),
            size,
        )
    }

    fn unmap(&mut self, virt: u64, size: PageSize) -> Result<(), UnmapError> {
        self.vmm.unmap(&mut self.mem, &mut self.pmm, &mut self.flushes, VAddr(virt), size)
    }

    fn translate(&self, virt: u64) -> Option<(u64, u64)> {
        self.vmm.translate(&self.mem, VAddr(virt)).map(|(p, f)| (p.0, f.bits()))
    }
}

#[test]
fn page_sizes() {
    assert_eq!(PageSize::Base.bytes(), 4096);
    assert_eq!(PageSize::Large.bytes(), 2 * 1024 * 1024);
    assert_eq!(PageSize::Huge.bytes(), 1024 * 1024 * 1024);
}

#[test]
fn flags_drop_unknown_bits() {
    let f = PTFlags::from_bits_truncate(u64::MAX);
    assert_eq!(f.bits(), 0x8000_0000_0000_0F7F);
    assert_eq!(PTFlags::from_bits_truncate(0x80 | P).bits(), P);
}

#[test]
fn base_page_translates_after_map() {
    let mut m = machine(16);
    assert_eq!(m.translate(VIRT), None);
    assert_eq!(m.map(VIRT, 0x7654_3000, RW | XD, PageSize::Base), Ok(()));
    assert_eq!(m.pmm.free_frames_count(), 13);
    assert_eq!(m.translate(VIRT), Some((0x7654_3000, P | RW | XD)));
    assert_eq!(m.translate(VIRT + 0xABC), Some((0x7654_3ABC, P | RW | XD)));
    assert_eq!(m.translate(VIRT + 0x1000), None);
    assert_eq!(m.flushes, vec![TlbFlush::Page(VIRT)]);
}

#[test]
fn entries_have_the_hardware_layout() {
    let mut m = machine(16);
    m.map(0x40_3000, 0x5000, RW, PageSize::Base).unwrap();
    // Tables in frames 16, 17 and 18.
    assert_eq!(m.mem[512], 16 * 4096 | 7);
    assert_eq!(m.mem[16 * 512], 17 * 4096 | 7);
    assert_eq!(m.mem[17 * 512 + 2], 18 * 4096 | 7);
    assert_eq!(m.mem[18 * 512 + 3], 0x5003);
}

#[test]
fn large_and_huge_pages_translate() {
    let mut m = machine(16);
    let all = RW | US | PWT | PCD | G | XD;
    assert_eq!(m.map(0x4000_0000, 0x20_0000, all | 0x60, PageSize::Large), Ok(()));
    assert_eq!(m.map(0x8000_0000, 0x1_4000_0000, all | 0x60, PageSize::Huge), Ok(()));
    assert_eq!(m.translate(0x4000_0000 + 0x12_3456), Some((0x32_3456, all | P)));
    assert_eq!(m.translate(0x8000_0000 + 0x1234_5678), Some((0x1_5234_5678, all | P)));
    // One table for both huge and large pages, one more for the large page.
    assert_eq!(m.pmm.free_frames_count(), 14);
}

#[test]
fn map_refuses_bad_addresses() {
    let mut m = machine(16);
    assert_eq!(m.map(0x8000_0000_0000, 0, RW, PageSize::Base), Err(MapError::NonCanonical));
    assert_eq!(m.map(0xFFFF_7FFF_FFFF_F000, 0, RW, PageSize::Base), Err(MapError::NonCanonical));
    assert_eq!(m.map(0x1001, 0, RW, PageSize::Base), Err(MapError::Misaligned));
    assert_eq!(m.map(0x1000, 0x10, RW, PageSize::Base), Err(MapError::Misaligned));
    assert_eq!(m.map(0x1000, 0, RW, PageSize::Large), Err(MapError::Misaligned));
    assert_eq!(m.map(0x20_0000, 0, RW, PageSize::Huge), Err(MapError::Misaligned));
    assert_eq!(m.pmm.free_frames_count(), 16);
    assert!(m.flushes.is_empty());
}

#[test]
fn map_refuses_what_is_mapped() {
    let mut m = machine(16);
    m.map(0x1000, 0x5000, RW, PageSize::Base).unwrap();
    assert_eq!(m.map(0x1000, 0x6000, RW, PageSize::Base), Err(MapError::AlreadyMapped));
    assert_eq!(m.map(0, 0, RW, PageSize::Large), Err(MapError::AlreadyMapped));
    assert_eq!(m.map(0, 0, RW, PageSize::Huge), Err(MapError::AlreadyMapped));
    m.map(0x20_0000, 0, RW, PageSize::Large).unwrap();
    assert_eq!(m.map(0x20_1000, 0, RW, PageSize::Base), Err(MapError::AlreadyMapped));
    m.map(0x4000_0000, 0, RW, PageSize::Huge).unwrap();
    assert_eq!(m.map(0x4000_0000, 0, RW, PageSize::Large), Err(MapError::AlreadyMapped));
    assert_eq!(m.map(0x4000_0000, 0, RW, PageSize::Base), Err(MapError::AlreadyMapped));
    assert_eq!(m.translate(0x1000), Some((0x5000, P | RW)));
}

#[test]
fn map_without_room_changes_nothing() {
    for free in 0..3u64 {
        let mut m = machine(free);
        assert_eq!(m.map(VIRT, 0x1000, RW, PageSize::Base), Err(MapError::OutOfMemory));
        assert_eq!(m.pmm.free_frames_count(), free);
        assert_eq!(m.translate(VIRT), None);
        assert!(m.mem[512..1024].iter().all(|e| *e == 0));
        assert!(m.flushes.is_empty());
    }
    let mut m = machine(3);
    assert_eq!(m.map(VIRT, 0x1000, RW, PageSize::Base), Ok(()));
    assert_eq!(m.pmm.free_frames_count(), 0);
}

#[test]
fn failed_map_keeps_the_allocation_order() {
    let mut a = machine(2);
    let mut b = machine(2);
    assert_eq!(a.map(VIRT, 0x1000, RW, PageSize::Base), Err(MapError::OutOfMemory));
    assert_eq!(
        a.pmm.alloc_pages(&mut a.mem, 0),
        b.pmm.alloc_pages(&mut b.mem, 0)
    );
}

#[test]
fn unmap_undoes_map() {
    let mut m = machine(16);
    m.map(VIRT, 0x1000, RW, PageSize::Base).unwrap();
    assert_eq!(m.unmap(VIRT, PageSize::Base), Ok(()));
    assert_eq!(m.translate(VIRT), None);
    assert_eq!(m.pmm.free_frames_count(), 16);
    assert!(m.mem[512..1024].iter().all(|e| *e == 0));
    assert_eq!(
        m.flushes,
        vec![
            TlbFlush::Page(VIRT),
            TlbFlush::Page(VIRT),
            TlbFlush::All,
            TlbFlush::All,
            TlbFlush::All
        ]
    );
    // The same frames are handed out again, in the same order.
    let mut fresh = machine(16);
    assert_eq!(
        m.pmm.alloc_pages(&mut m.mem, 0),
        fresh.pmm.alloc_pages(&mut fresh.mem, 0)
    );
}

#[test]
fn unmap_keeps_tables_that_are_used() {
    let mut m = machine(16);
    m.map(0x1000, 0x5000, RW, PageSize::Base).unwrap();
    m.map(0x2000, 0x6000, RW, PageSize::Base).unwrap();
    m.map(0x20_0000, 0x20_0000, RW, PageSize::Large).unwrap();
    m.flushes.clear();
    assert_eq!(m.unmap(0x1000, PageSize::Base), Ok(()));
    assert_eq!(m.flushes, vec![TlbFlush::Page(0x1000)]);
    assert_eq!(m.translate(0x2000), Some((0x6000, P | RW)));
    assert_eq!(m.unmap(0x2000, PageSize::Base), Ok(()));
    assert_eq!(m.pmm.free_frames_count(), 14);
    assert_eq!(m.unmap(0x20_0000, PageSize::Large), Ok(()));
    assert_eq!(m.pmm.free_frames_count(), 16);
}

#[test]
fn unmap_refuses_what_is_not_mapped() {
    let mut m = machine(16);
    assert_eq!(m.unmap(0x1000, PageSize::Base), Err(UnmapError::NotMapped));
    assert_eq!(m.unmap(0x8000_0000_0000, PageSize::Base), Err(UnmapError::NonCanonical));
    assert_eq!(m.unmap(0x1001, PageSize::Base), Err(UnmapError::Misaligned));
    m.map(0, 0, RW, PageSize::Large).unwrap();
    assert_eq!(m.unmap(0, PageSize::Base), Err(UnmapError::NotMapped));
    assert_eq!(m.unmap(0, PageSize::Huge), Err(UnmapError::NotMapped));
    assert_eq!(m.unmap(0x20_0000, PageSize::Large), Err(UnmapError::NotMapped));
    m.map(0x4000_0000, 0, RW, PageSize::Huge).unwrap();
    assert_eq!(m.unmap(0x4000_0000, PageSize::Large), Err(UnmapError::NotMapped));
    assert_eq!(m.unmap(0x4000_0000, PageSize::Huge), Ok(()));
    assert_eq!(m.unmap(0, PageSize::Large), Ok(()));
    assert_eq!(m.pmm.free_frames_count(), 16);
}

#[test]
fn ranges_are_mapped_and_unmapped() {
    let mut m = machine(16);
    let r = m.vmm.map_range(
        &mut m.mem,
        &mut m.pmm,
        &mut m.flushes,
        VAddr(0x1F_E000),
        PAddr(0x9000),
        4,
        PTFlags::from_bits_truncate(RW),
        PageSize::Base,
    );
    assert_eq!(r, Ok(()));
    for i in 0..4u64 {
        assert_eq!(m.translate(0x1F_E000 + i * 4096), Some((0x9000 + i * 4096, P | RW)));
    }
    assert_eq!(m.flushes.len(), 4);
    assert_eq!(m.pmm.free_frames_count(), 12);
    let r = m.vmm.unmap_range(
        &mut m.mem,
        &mut m.pmm,
        &mut m.flushes,
        VAddr(0x1F_E000),
        4,
        PageSize::Base,
    );
    assert_eq!(r, Ok(()));
    assert_eq!(m.pmm.free_frames_count(), 16);
}

#[test]
fn every_address_of_a_range_translates() {
    let mut m = machine(16);
    m.map(0x1F_D000, 0x3000, RW, PageSize::Base).unwrap();
    let start = 0x1F_E000u64;
    let r = m.vmm.map_range(
        &mut m.mem,
        &mut m.pmm,
        &mut m.flushes,
        VAddr(start),
        PAddr(0x9000),
        4,
        PTFlags::from_bits_truncate(RW),
        PageSize::Base,
    );
    assert_eq!(r, Ok(()));
    for offset in (0..4 * 4096).step_by(0x123) {
        assert_eq!(m.translate(start + offset), Some((0x9000 + offset, P | RW)));
    }
    assert_eq!(m.translate(start - 1), Some((0x3FFF, P | RW)));
    assert_eq!(m.translate(start + 4 * 4096), None);
    let r = m.vmm.unmap_range(
        &mut m.mem,
        &mut m.pmm,
        &mut m.flushes,
        VAddr(start),
        4,
        PageSize::Base,
    );
    assert_eq!(r, Ok(()));
    for offset in (0..4 * 4096).step_by(0x123) {
        assert_eq!(m.translate(start + offset), None);
    }
    assert_eq!(m.translate(start - 1), Some((0x3FFF, P | RW)));
}

#[test]
fn failed_range_is_rolled_back() {
    let mut m = machine(16);
    m.map(0x20_1000, 0x7000, RW, PageSize::Base).unwrap();
    let free = m.pmm.free_frames_count();
    let r = m.vmm.map_range(
        &mut m.mem,
        &mut m.pmm,
        &mut m.flushes,
        VAddr(0x1F_F000),
        PAddr(0x9000),
        4,
        PTFlags::from_bits_truncate(RW),
        PageSize::Base,
    );
    assert_eq!(r, Err(MapError::AlreadyMapped));
    assert_eq!(m.translate(0x1F_F000), None);
    assert_eq!(m.translate(0x20_0000), None);
    assert_eq!(m.translate(0x20_1000), Some((0x7000, P | RW)));
    assert_eq!(m.pmm.free_frames_count(), free);
}

#[test]
fn unmapping_a_range_stops_at_a_hole() {
    let mut m = machine(16);
    m.map(0x1000, 0x5000, RW, PageSize::Base).unwrap();
    m.map(0x3000, 0x6000, RW, PageSize::Base).unwrap();
    let r = m.vmm.unmap_range(
        &mut m.mem,
        &mut m.pmm,
        &mut m.flushes,
        VAddr(0x1000),
        3,
        PageSize::Base,
    );
    assert_eq!(r, Err(UnmapError::NotMapped));
    assert_eq!(m.translate(0x1000), None);
    assert_eq!(m.translate(0x3000), Some((0x6000, P | RW)));
}

#[test]
fn direct_map_page_is_at_the_offset() {
    let mut m = machine(16);
    let r = m.vmm.map_hhdm(
        &mut m.mem,
        &mut m.pmm,
        &mut m.flushes,
        HHDM,
        PAddr(0xFEC0_0000),
        vmm::device_page_flags(),
        PageSize::Base,
    );
    assert_eq!(r, Ok(VAddr(HHDM + 0xFEC0_0000)));
    assert_eq!(
        m.translate(HHDM + 0xFEC0_0010),
        Some((0xFEC0_0010, P | RW | XD | PCD | PWT))
    );
    let again = m.vmm.map_hhdm(
        &mut m.mem,
        &mut m.pmm,
        &mut m.flushes,
        HHDM,
        PAddr(0xFEC0_0000),
        vmm::device_page_flags(),
        PageSize::Base,
    );
    assert_eq!(again, Err(MapError::AlreadyMapped));
}

#[test]
fn cloned_tables_translate_alike() {
    let mut m = machine(40);
    m.map(0x1000, 0x5000, RW, PageSize::Base).unwrap();
    m.map(0x20_0000, 0x40_0000, RW | US, PageSize::Large).unwrap();
    m.map(VIRT, 0x6000, XD, PageSize::Base).unwrap();
    let free = m.pmm.free_frames_count();
    // An entry that is not present is dropped.
    m.mem[512 + 7] = 0xF000;
    let cr3 = 4096 | 0x18;
    let (top, new_cr3) = vmm::take_ownership(&mut m.mem, &mut m.pmm, cr3).unwrap();
    assert_ne!(top, PAddr(4096));
    assert_eq!(new_cr3, top.0 | 0x18);
    // Seven tables: the top one, three for each half, and none shared.
    assert_eq!(free - m.pmm.free_frames_count(), 7);
    assert_eq!(m.mem[(top.0 / 8) as usize + 7], 0);
    let copy = Vmm::new(top);
    for v in [0x1000u64, 0x1FFF, 0x20_0000, 0x3F_FFFF, VIRT, VIRT + 5, 0x2000, 0x40_0000] {
        assert_eq!(
            copy.translate(&m.mem, VAddr(v)),
            m.vmm.translate(&m.mem, VAddr(v))
        );
    }
    // The copy does not share tables with what it was made of.
    let mut copy = copy;
    copy.unmap(&mut m.mem, &mut m.pmm, &mut m.flushes, VAddr(VIRT), PageSize::Base).unwrap();
    assert_eq!(m.translate(VIRT), Some((0x6000, P | XD)));
}

#[test]
fn cloning_without_room_gives_everything_back() {
    let mut m = machine(9);
    m.map(0x1000, 0x5000, RW, PageSize::Base).unwrap();
    m.map(VIRT, 0x6000, RW, PageSize::Base).unwrap();
    assert_eq!(m.pmm.free_frames_count(), 3);
    assert_eq!(
        vmm::take_ownership(&mut m.mem, &mut m.pmm, 4096),
        Err(VmmError::OutOfFrames)
    );
    assert_eq!(m.pmm.free_frames_count(), 3);
    assert_eq!(m.translate(0x1000), Some((0x5000, P | RW)));
    let mut got: Vec<u64> = Vec::new();
    while let Some(f) = m.pmm.alloc_pages(&mut m.mem, 0) {
        got.push(f.0 / 4096);
    }
    got.sort();
    assert_eq!(got.len(), 3);
    got.dedup();
    assert_eq!(got.len(), 3);
}

#[test]
fn kernel_address_space_in_its_place() {
    let m = machine(16);
    let (mut mem, mut pmm, mut fl) = (m.mem, m.pmm, m.flushes);
    let mut slot = Some(m.vmm);
    let flags = PTFlags::from_bits_truncate(RW);
    let size = PageSize::Base;
    let (v, p) = (VAddr(VIRT), PAddr(0x5000));
    assert_eq!(vmm::map(&mut slot, &mut mem, &mut pmm, &mut fl, v, p, flags, size), Ok(()));
    let (phys, got) = vmm::translate(&slot, &mem, VAddr(VIRT + 1)).unwrap();
    assert_eq!((phys, got.bits()), (PAddr(0x5001), P | RW));
    assert_eq!(vmm::unmap(&mut slot, &mut mem, &mut pmm, &mut fl, v, size), Ok(()));
    assert_eq!(vmm::translate(&slot, &mem, v), None);
    assert_eq!(
        vmm::map_range(&mut slot, &mut mem, &mut pmm, &mut fl, v, p, 3, flags, size),
        Ok(())
    );
    let last = vmm::translate(&slot, &mem, VAddr(VIRT + 0x2FFF)).unwrap().0;
    assert_eq!(last, PAddr(0x7FFF));
    assert_eq!(
        vmm::unmap_range(&mut slot, &mut mem, &mut pmm, &mut fl, v, 4, size),
        Err(UnmapError::NotMapped)
    );
    assert_eq!(pmm.free_frames_count(), 16);
    assert_eq!(
        vmm::map_hhdm(&mut slot, &mut mem, &mut pmm, &mut fl, HHDM, p, flags, size),
        Ok(VAddr(HHDM + 0x5000))
    );
    assert_eq!(vmm::translate(&slot, &mem, VAddr(HHDM + 0x5ABC)).unwrap().0, PAddr(0x5ABC));
}

/// Frames 17, 14, 11 and 8 are free, as many as asked for, the highest first.
fn single_frames(count: usize) -> (Vec<u64>, Pmm) {
    let map: &'static mut [u8] = Box::leak(vec![0u8; 32].into_boxed_slice());
    let mut mem = vec![0u64; 32 * 512];
    let mut pmm = Pmm::new(map, 32, HHDM);
    for frame in [8u64, 11, 14, 17].into_iter().take(count) {
        pmm.add_range(&mut mem, frame, 1);
    }
    (mem, pmm)
}

#[test]
fn tables_are_copied_before_those_below_them() {
    let (mut mem, mut pmm) = single_frames(4);
    mem[2 * 512 + 5] = 3 * 4096 | P | US;
    mem[2 * 512 + 9] = 4 * 4096 | P | RW | XD;
    mem[3 * 512 + 1] = 6 * 4096 | P | RW;
    mem[6 * 512 + 2] = 0x4000_0000 | P | 0x80;
    let (top, cr3) = vmm::take_ownership(&mut mem, &mut pmm, 2 * 4096 | PCD).unwrap();
    assert_eq!(top, PAddr(17 * 4096));
    assert_eq!(cr3, 17 * 4096 | PCD);
    assert_eq!(mem[17 * 512 + 5], 14 * 4096 | P | US);
    assert_eq!(mem[14 * 512 + 1], 11 * 4096 | P | RW);
    assert_eq!(mem[11 * 512 + 2], 0x4000_0000 | P | 0x80);
    assert_eq!(mem[17 * 512 + 9], 8 * 4096 | P | RW | XD);
    assert_eq!(pmm.free_frames_count(), 0);
}

#[test]
fn copies_are_given_back_in_order() {
    let (mut mem, mut pmm) = single_frames(3);
    for i in 0..3 {
        mem[2 * 512 + i] = (3 + i as u64) * 4096 | P | RW;
    }
    let r = vmm::take_ownership(&mut mem, &mut pmm, 2 * 4096);
    assert!(matches!(r, Err(VmmError::OutOfFrames)));
    let frames: Vec<u64> =
        (0..3).map(|_| pmm.alloc_pages(&mut mem, 0).unwrap().0 / 4096).collect();
    assert_eq!(frames, vec![14, 8, 11]);
}
