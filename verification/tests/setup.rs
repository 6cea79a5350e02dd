//! Setting up memory management.
use kernel::mm;
use kernel::mm::addr::{PAddr, VAddr};
use kernel::mm::entry::{P, RW};
use kernel::mm::memmap::{MemmapEntry, MEMMAP_BOOTLOADER_RECLAIMABLE, MEMMAP_USABLE};
use kernel::mm::vmm::{PTFlags, PageSize, VmmError};
use kernel::mm::{FrameMap, MmError};

const HHDM: u64 = 0xFFFF_8000_0000_0000;

fn region(base: u64, length: u64, kind: u64) -> MemmapEntry {
    MemmapEntry { base, length, kind }
}

#[test]
fn rounding_to_powers_of_two() {
    assert_eq!(mm::align_up(0, 4096), 0);
    assert_eq!(mm::align_up(1, 4096), 4096);
    assert_eq!(mm::align_up(4096, 4096), 4096);
    assert_eq!(mm::align_up(0x1ABC + 0xF00, 4096), 0x3000);
    assert_eq!(mm::align_up(7, 1), 7);
    assert_eq!(mm::align_down(0x1ABC, 4096), 0x1000);
    assert_eq!(mm::align_down(4095, 4096), 0);
    assert_eq!(mm::align_down(u64::MAX, 1 << 63), 1 << 63);
}

#[test]
fn highest_region_decides_the_number_of_frames() {
    let memmap = [
        region(0x1000, 0x1000, MEMMAP_USABLE),
        region(0x10_0000, 0x1234, 1),
        region(0x4000, 0x8000, MEMMAP_USABLE),
    ];
    assert_eq!(mm::highest_address(&memmap), 0x10_1234);
    assert_eq!(
        mm::plan_frame_map(&memmap),
        Some(FrameMap { total_frames: 0x102, order_bytes: 0x1000, order_phys: 0x1000 })
    );
    assert_eq!(mm::find_region(&memmap, 0x2000), Some(0x4000));
    assert_eq!(mm::find_region(&memmap, 0x9000), None);
}

#[test]
fn no_region_for_the_frame_map() {
    let memmap = [region(0x1000, 0x800, MEMMAP_USABLE), region(0x8000, 0x8000, 1)];
    assert_eq!(mm::plan_frame_map(&memmap), None);
}

/// Page tables in frames 2 to 5 that map one page.
fn boot_tables(mem: &mut [u64]) {
    mem[2 * 512] = 3 * 4096 | 7;
    mem[3 * 512] = 4 * 4096 | 7;
    mem[4 * 512] = 5 * 4096 | 7;
    mem[5 * 512 + 9] = 0x9000 | P | RW;
}

#[test]
fn memory_management_is_set_up() {
    let memmap = [
        region(0, 0x2000, MEMMAP_USABLE),
        region(0x2000, 0x4000, MEMMAP_BOOTLOADER_RECLAIMABLE),
        region(0x8000, 0x18000, MEMMAP_USABLE),
    ];
    let frames = 32usize;
    let mut mem = vec![0u64; frames * 512];
    boot_tables(&mut mem);
    let map: &'static mut [u8] = Box::leak(vec![0u8; frames].into_boxed_slice());
    let mut pmm = None;
    let mut vmm = None;
    let cr3 = mm::init(&memmap, &mut mem, map, HHDM, 2 * 4096 | 8, &mut pmm, &mut vmm).unwrap();
    // The first region is large enough for the map, which takes frame 0. The
    // other frames of the usable regions are free, but for the four tables.
    assert_eq!(kernel::mm::pmm::stats(&pmm), (1 + 24 - 4, 32));
    assert_eq!(cr3 & 0xFFF, 8);
    assert_ne!(cr3 & !0xFFF, 2 * 4096);
    let v = vmm.as_mut().unwrap();
    let (phys, flags) = v.translate(&mem, VAddr(9 * 4096 + 3)).unwrap();
    assert_eq!(phys, PAddr(0x9003));
    assert_eq!(flags.bits(), P | RW);
    assert_eq!(v.translate(&mem, VAddr(10 * 4096)), None);
    let mut flushes = Vec::new();
    assert!(v
        .map(
            &mut mem,
            pmm.as_mut().unwrap(),
            &mut flushes,
            VAddr(10 * 4096),
            PAddr(0xA000),
            PTFlags::from_bits_truncate(RW),
            PageSize::Base
        )
        .is_ok());
}

#[test]
fn after_set_up_only_usable_frames_are_free() {
    let memmap = [
        region(0, 0x2000, MEMMAP_USABLE),
        region(0x2000, 0x4000, MEMMAP_BOOTLOADER_RECLAIMABLE),
        region(0x8000, 0x18000, MEMMAP_USABLE),
    ];
    let mut mem = vec![0u64; 32 * 512];
    boot_tables(&mut mem);
    let map: &'static mut [u8] = Box::leak(vec![0u8; 32].into_boxed_slice());
    let mut pmm = None;
    let mut vmm = None;
    let cr3 = mm::init(&memmap, &mut mem, map, HHDM, 2 * 4096, &mut pmm, &mut vmm).unwrap();
    let p = pmm.as_mut().unwrap();
    let mut seen = Vec::new();
    while let Some(a) = p.alloc_pages(&mut mem, 0) {
        let frame = a.0 / 4096;
        assert!(frame == 1 || (8..32).contains(&frame));
        assert_ne!(a.0, cr3 & !0xFFF);
        assert!(!seen.contains(&frame));
        seen.push(frame);
    }
    assert_eq!(seen.len(), 21);
}

#[test]
fn frames_of_the_map_and_frame_zero_are_not_handed_out() {
    let memmap = [region(0, 0x8000, MEMMAP_USABLE), region(0x8000, 0x4000, 1)];
    let mut mem = vec![0u64; 12 * 512];
    let map: &'static mut [u8] = Box::leak(vec![0u8; 12].into_boxed_slice());
    let mut pmm = kernel::mm::pmm::Pmm::new(map, 12, HHDM);
    mm::populate(&mut pmm, &mut mem, &memmap, 3, 5);
    let mut got = Vec::new();
    while let Some(a) = pmm.alloc_pages(&mut mem, 0) {
        got.push(a.0 / 4096);
    }
    got.sort();
    assert_eq!(got, vec![1, 2, 5, 6, 7]);
}

#[test]
fn too_few_frames_for_the_tables() {
    let memmap = [
        region(0x8000, 0x4000, MEMMAP_USABLE),
        region(0xC000, 0x4000, 1),
    ];
    let mut mem = vec![0u64; 16 * 512];
    boot_tables(&mut mem);
    let map: &'static mut [u8] = Box::leak(vec![0u8; 16].into_boxed_slice());
    let mut pmm = None;
    let mut vmm = None;
    let r = mm::init(&memmap, &mut mem, map, HHDM, 2 * 4096, &mut pmm, &mut vmm);
    assert!(matches!(r, Err(MmError::VmmError(VmmError::OutOfFrames))));
    assert_eq!(kernel::mm::pmm::stats(&pmm), (3, 16));
    assert!(vmm.is_none());
}
