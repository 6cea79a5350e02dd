//! The frame allocator.
use kernel::mm::addr::PAddr;
use kernel::mm::memmap::{MemmapEntry, MEMMAP_BOOTLOADER_RECLAIMABLE, MEMMAP_USABLE};
use kernel::mm::pmm;
use kernel::mm::pmm::{Pmm, MAX_ORDER};

const HHDM: u64 = 0xFFFF_8000_0000_0000;

fn allocator(frames: usize) -> (Pmm, Vec<u64>) {
    let map: &'static mut [u8] = Box::leak(vec![0u8; frames].into_boxed_slice());
    (Pmm::new(map, frames as u64, HHDM), vec![0u64; frames * 512])
}

#[test]
fn new_allocator_is_empty() {
    let (mut p, mut mem) = allocator(16);
    assert_eq!(p.free_frames_count(), 0);
    assert_eq!(p.alloc_pages(&mut mem, 0), None);
    assert!(p.assert_block_unused(0, 4));
}

#[test]
fn added_frames_can_be_allocated_once() {
    let (mut p, mut mem) = allocator(16);
    p.add_range(&mut mem, 3, 10);
    assert_eq!(p.free_frames_count(), 10);
    let mut got = Vec::new();
    while let Some(a) = p.alloc_pages(&mut mem, 0) {
        assert_eq!(a.0 % 4096, 0);
        got.push(a.0 / 4096);
    }
    got.sort();
    assert_eq!(got, (3..13).collect::<Vec<u64>>());
    assert_eq!(p.free_frames_count(), 0);
}

#[test]
fn blocks_are_split_from_the_smallest_that_fits() {
    let (mut p, mut mem) = allocator(64);
    p.add_range(&mut mem, 8, 8);
    p.add_range(&mut mem, 32, 32);
    assert_eq!(p.alloc_pages(&mut mem, 2), Some(PAddr(8 * 4096)));
    assert_eq!(p.alloc_pages(&mut mem, 2), Some(PAddr(12 * 4096)));
    assert_eq!(p.alloc_pages(&mut mem, 5), Some(PAddr(32 * 4096)));
    assert_eq!(p.alloc_pages(&mut mem, 0), None);
}

#[test]
fn allocation_fails_only_without_a_free_run() {
    let (mut p, mut mem) = allocator(16);
    // Six frames are free, but no four of them from a multiple of four on.
    p.add_range(&mut mem, 1, 3);
    p.add_range(&mut mem, 12, 3);
    assert_eq!(p.alloc_pages(&mut mem, 2), None);
    p.free_pages(&mut mem, PAddr(15 * 4096), 0);
    assert_eq!(p.alloc_pages(&mut mem, 2), Some(PAddr(12 * 4096)));
    assert_eq!(p.alloc_pages(&mut mem, 2), None);
    assert_eq!(p.alloc_pages(&mut mem, 1), Some(PAddr(2 * 4096)));
}

#[test]
fn order_zero_takes_the_lower_half_first() {
    let (mut p, mut mem) = allocator(16);
    p.add_range(&mut mem, 8, 8);
    assert_eq!(p.alloc_pages(&mut mem, 0), Some(PAddr(8 * 4096)));
    assert_eq!(p.alloc_pages(&mut mem, 0), Some(PAddr(9 * 4096)));
    assert_eq!(p.alloc_pages(&mut mem, 1), Some(PAddr(10 * 4096)));
}

#[test]
fn freeing_joins_buddies() {
    let (mut p, mut mem) = allocator(16);
    p.add_range(&mut mem, 8, 8);
    let frames: Vec<PAddr> = (0..8).map(|_| p.alloc_pages(&mut mem, 0).unwrap()).collect();
    assert_eq!(p.alloc_pages(&mut mem, 3), None);
    for f in [5usize, 0, 7, 2, 1, 4, 6, 3] {
        p.free_pages(&mut mem, frames[f], 0);
    }
    assert_eq!(p.free_frames_count(), 8);
    assert_eq!(p.alloc_pages(&mut mem, 3), Some(PAddr(8 * 4096)));
}

#[test]
fn freeing_what_was_allocated_restores_the_order() {
    let (mut p, mut mem) = allocator(64);
    p.add_range(&mut mem, 1, 63);
    let first = p.alloc_pages(&mut mem, 0).unwrap();
    p.free_pages(&mut mem, first, 0);
    let second = p.alloc_pages(&mut mem, 0).unwrap();
    assert_eq!(first, second);
    let block = p.alloc_pages(&mut mem, 3).unwrap();
    p.free_pages(&mut mem, block, 3);
    assert_eq!(p.alloc_pages(&mut mem, 3), Some(block));
}

#[test]
fn largest_blocks_have_order_eleven() {
    let (mut p, mut mem) = allocator(4096);
    p.add_range(&mut mem, 2048, 2048);
    assert_eq!(p.alloc_pages(&mut mem, MAX_ORDER), Some(PAddr(2048 * 4096)));
    assert_eq!(p.free_frames_count(), 0);
}

#[test]
fn allocation_leaves_other_frames_alone() {
    let (mut p, mut mem) = allocator(16);
    mem[2 * 512] = 77;
    mem[2 * 512 + 511] = 78;
    p.add_range(&mut mem, 3, 10);
    let f = p.alloc_pages(&mut mem, 0).unwrap();
    p.free_pages(&mut mem, f, 0);
    assert_eq!(mem[2 * 512], 77);
    assert_eq!(mem[2 * 512 + 511], 78);
}

#[test]
fn installed_allocator_serves_frames() {
    let (p, mut mem) = allocator(16);
    let mut slot = None;
    pmm::install(&mut slot, p);
    slot.as_mut().unwrap().add_range(&mut mem, 4, 4);
    assert_eq!(pmm::stats(&slot), (4, 16));
    let f = pmm::alloc_frame(&mut slot, &mut mem).unwrap();
    assert_eq!(f, PAddr(4 * 4096));
    assert_eq!(pmm::stats(&slot), (3, 16));
    pmm::free_frame(&mut slot, &mut mem, f);
    let b = pmm::alloc_pages(&mut slot, &mut mem, 2).unwrap();
    assert_eq!(b, PAddr(4 * 4096));
    pmm::free_pages(&mut slot, &mut mem, b, 2);
    assert_eq!(pmm::stats(&slot), (4, 16));
}

#[test]
fn bootloader_memory_is_reclaimed() {
    let (p, mut mem) = allocator(32);
    let mut slot = Some(p);
    let memmap = [
        MemmapEntry { base: 0x4000, length: 0x3000, kind: MEMMAP_BOOTLOADER_RECLAIMABLE },
        MemmapEntry { base: 0x8000, length: 0x4000, kind: MEMMAP_USABLE },
        MemmapEntry { base: 0x10000, length: 0x2FFF, kind: MEMMAP_BOOTLOADER_RECLAIMABLE },
    ];
    assert_eq!(pmm::reclaim_bootloader(&mut slot, &mut mem, &memmap), 5);
    assert_eq!(pmm::stats(&slot), (5, 32));
    let mut got = Vec::new();
    while let Some(a) = pmm::alloc_frame(&mut slot, &mut mem) {
        got.push(a.0 / 4096);
    }
    got.sort();
    assert_eq!(got, vec![4, 5, 6, 16, 17]);
}
