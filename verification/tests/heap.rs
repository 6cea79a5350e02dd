//! The heap.
use kernel::mm::heap;
use kernel::mm::heap::{Heap, Layout};
use kernel::mm::addr::{PAddr, VAddr};
use kernel::mm::pmm::Pmm;
use kernel::mm::vmm::{PTFlags, PageSize, Vmm};

const HHDM: u64 = 0xFFFF_8000_0000_0000;

struct Machine {
    mem: Vec<u64>,
    pmm: Pmm,
    heap: Heap,
}

fn machine(frames: usize, first: u64, count: u64) -> Machine {
    let map: &'static mut [u8] = Box::leak(vec![0u8; frames].into_boxed_slice());
    let mut mem = vec![0u64; frames * 512];
    let mut pmm = Pmm::new(map, frames as u64, HHDM);
    pmm.add_range(&mut mem, first, count);
    Machine { mem, pmm, heap: Heap::new() }
}

impl Machine {
    fn get(&mut self, size: usize, align: usize) -> Option<u64> {
        self.heap.allocate(&mut self.mem, &mut self.pmm, Layout { size, align })
    }

    fn put(&mut self, ptr: u64, size: usize, align: usize) {
        self.heap.deallocate(&mut self.mem, &mut self.pmm, ptr, Layout { size, align });
    }
}

#[test]
fn heap_needs_the_direct_map_only() {
    assert!(heap::init(HHDM).is_ok());
}

#[test]
fn objects_come_in_order_from_a_slab() {
    let mut m = machine(16, 4, 1);
    assert_eq!(m.get(1, 1), Some(HHDM + 0x4010));
    assert_eq!(m.get(16, 8), Some(HHDM + 0x4020));
    assert_eq!(m.get(0, 1), Some(HHDM + 0x4030));
    assert_eq!(m.pmm.free_frames_count(), 0);
}

#[test]
fn sizes_and_alignments_choose_the_bucket() {
    let mut m = machine(64, 8, 16);
    for (size, align, step) in [
        (17usize, 1usize, 32u64),
        (1, 64, 64),
        (65, 1, 128),
        (129, 1, 256),
        (257, 1, 512),
        (1024, 16, 1024),
    ] {
        let a = m.get(size, align).unwrap();
        let b = m.get(size, align).unwrap();
        assert_eq!(b - a, step);
        assert_eq!(a % step, 0);
    }
    assert_eq!(m.pmm.free_frames_count(), 10);
}

#[test]
fn a_slab_holds_as_many_objects_as_fit_beside_the_header() {
    for (size, count) in [(16usize, 255usize), (32, 127), (64, 63), (128, 31), (256, 15), (512, 7), (1024, 3)] {
        let mut m = machine(8, 4, 1);
        let mut got = Vec::new();
        while let Some(a) = m.get(size, 1) {
            got.push(a);
        }
        assert_eq!(got.len(), count);
        got.dedup();
        assert_eq!(got.len(), count);
        assert!(got.iter().all(|a| *a >= HHDM + 0x4000 && *a + size as u64 <= HHDM + 0x5000));
    }
}

#[test]
fn freed_object_is_given_out_next() {
    let mut m = machine(8, 4, 1);
    let a = m.get(100, 1).unwrap();
    let b = m.get(100, 1).unwrap();
    m.put(a, 100, 1);
    assert_eq!(m.get(100, 1), Some(a));
    m.put(b, 100, 1);
    m.put(a, 100, 1);
    assert_eq!(m.get(100, 1), Some(a));
    assert_eq!(m.get(100, 1), Some(b));
}

#[test]
fn full_slab_is_used_again_after_a_free() {
    let mut m = machine(8, 4, 2);
    let first: Vec<u64> = (0..3).map(|_| m.get(1024, 1).unwrap()).collect();
    let second: Vec<u64> = (0..3).map(|_| m.get(1024, 1).unwrap()).collect();
    assert_eq!(m.get(1024, 1), None);
    m.put(first[1], 1024, 1);
    assert_eq!(m.get(1024, 1), Some(first[1]));
    m.put(first[0], 1024, 1);
    m.put(second[2], 1024, 1);
    let mut again = vec![m.get(1024, 1).unwrap(), m.get(1024, 1).unwrap()];
    again.sort();
    let mut expected = vec![first[0], second[2]];
    expected.sort();
    assert_eq!(again, expected);
    assert_eq!(m.get(1024, 1), None);
}

#[test]
fn freed_object_of_another_slab_is_given_out_next() {
    // The first slab is full, so that the next object comes from a fresh one;
    // freed, it is given out again without another frame.
    let mut m = machine(8, 4, 3);
    for _ in 0..3 {
        m.get(1024, 1).unwrap();
    }
    let a = m.get(1024, 1).unwrap();
    let free = m.pmm.free_frames_count();
    m.put(a, 1024, 1);
    assert_eq!(m.get(1024, 1), Some(a));
    assert_eq!(m.pmm.free_frames_count(), free);
}

#[test]
fn contents_of_live_objects_stay() {
    let mut m = machine(16, 4, 4);
    let a = m.get(64, 1).unwrap();
    let word = ((a - HHDM) / 8) as usize;
    for k in 0..8 {
        m.mem[word + k] = 1000 + k as u64;
    }
    let others: Vec<u64> = (0..40).map(|_| m.get(64, 1).unwrap()).collect();
    for o in others {
        m.put(o, 64, 1);
    }
    for k in 0..8 {
        assert_eq!(m.mem[word + k], 1000 + k as u64);
    }
}

#[test]
fn large_allocations_are_blocks_of_frames() {
    let mut m = machine(64, 16, 16);
    let a = m.get(1025, 1).unwrap();
    assert_eq!(a, HHDM + 16 * 4096);
    let b = m.get(4097, 1).unwrap();
    assert_eq!(b, HHDM + 18 * 4096);
    assert_eq!(m.pmm.free_frames_count(), 13);
    let c = m.get(10, 8192).unwrap();
    assert_eq!((c - HHDM) % 8192, 0);
    m.put(b, 4097, 1);
    m.put(a, 1025, 1);
    m.put(c, 10, 8192);
    assert_eq!(m.pmm.free_frames_count(), 16);
}

#[test]
fn too_large_allocations_fail() {
    let mut m = machine(64, 16, 16);
    assert_eq!(m.get(4096 * 2049, 1), None);
    assert_eq!(m.get(4096 * 32, 1), None);
    m.put(HHDM + 0x1000, 4096 * 2049, 1);
    m.put(0, 16, 1);
    assert_eq!(m.pmm.free_frames_count(), 16);
}

#[test]
fn heap_and_page_tables_share_frames() {
    let mut m = machine(64, 16, 24);
    let mut vmm = Vmm::new(PAddr(4096));
    let mut flushes = Vec::new();
    let mut objects = Vec::new();
    for k in 0..20u64 {
        let a = m.get(1024, 1).unwrap();
        m.mem[((a - HHDM) / 8) as usize + 127] = 1000 + k;
        objects.push(a);
        let virt = VAddr(0x8000_0000 * k);
        let flags = PTFlags::from_bits_truncate(0);
        let r = vmm.map(
            &mut m.mem, &mut m.pmm, &mut flushes, virt, PAddr(k << 30), flags, PageSize::Huge,
        );
        assert_eq!(r, Ok(()));
    }
    for k in 0..20u64 {
        let a = objects[k as usize];
        assert_eq!(m.mem[((a - HHDM) / 8) as usize + 127], 1000 + k);
        let virt = VAddr(0x8000_0000 * k + 5);
        assert_eq!(vmm.translate(&m.mem, virt).unwrap().0, PAddr((k << 30) + 5));
    }
    for k in 0..20u64 {
        m.put(objects[k as usize], 1024, 1);
        let virt = VAddr(0x8000_0000 * k);
        assert_eq!(
            vmm.unmap(&mut m.mem, &mut m.pmm, &mut flushes, virt, PageSize::Huge),
            Ok(())
        );
    }
    // Slabs are kept, tables are not.
    assert_eq!(m.pmm.free_frames_count(), 24 - 7);
}
