//! Devices, interrupts and time.
use kernel::apic;
use kernel::apic::{ApicError, MadtEntry};
use kernel::framebuffer;
use kernel::gdt;
use kernel::idt;
use kernel::idt::{Handlers, InterruptFrame, IsrAction};
use kernel::mm::addr::{PAddr, VAddr};
use kernel::mm::pmm::Pmm;
use kernel::mm::vmm::{MapError, PageSize, Vmm};
use kernel::pci;
use kernel::pci::{ConfigAccess, PciAddress, PciError};
use kernel::serial;
use kernel::serial::{PortWrite, Serial};
use kernel::tsc;
use kernel::tsc::{TscError, TscSource};
use kernel::utils::{IntLock, Singleton};
use x86::bits64::segmentation::Descriptor64;

const HHDM: u64 = 0xFFFF_8000_0000_0000;

fn at(bus: u8, device: u8, function: u8) -> PciAddress {
    PciAddress { bus, device, function }
}

#[test]
fn pci_addresses() {
    let a = at(0x12, 0x1F, 7);
    assert_eq!(a.io_address(0x3D), 0x8012_FF3C);
    assert_eq!(at(0, 0, 0).io_address(0), 0x8000_0000);
    assert_eq!(a.mmio_address(0x3D, 0xE000_0000), 0xE000_0000 + 0x12F_F03D);
}

#[test]
fn pci_access_goes_through_memory_or_ports() {
    let a = at(1, 2, 3);
    assert_eq!(pci::config_access(a, 0x18, 0x1000_0000), ConfigAccess::Memory(0x1011_3018));
    assert_eq!(
        pci::config_access(a, 0x1A, 0),
        ConfigAccess::Ports { address: 0x8001_1318, data_port: 0xCFE }
    );
}

#[test]
fn pci_names() {
    assert_eq!(pci::function_name(0x01, 0x06, 0x01), "AHCI storage controller");
    assert_eq!(pci::function_name(0x01, 0x08, 0x02), "NVMe storage device");
    assert_eq!(pci::function_name(0x01, 0x01, 0x8A), "IDE storage controller");
    assert_eq!(pci::function_name(0x02, 0x00, 0x00), "Ethernet controller");
    assert_eq!(pci::function_name(0x03, 0x00, 0x00), "VGA-compatible device");
    assert_eq!(pci::function_name(0x03, 0x80, 0x00), "Other display device");
    assert_eq!(pci::function_name(0x04, 0x03, 0x00), "Audio device");
    assert_eq!(pci::function_name(0x06, 0x04, 0x00), "Bridge device");
    assert_eq!(pci::function_name(0x0C, 0x03, 0x30), "USB Controller");
    assert_eq!(pci::function_name(0x01, 0x06, 0x00), "PCI device");
}

/// A device at 00:01.0 with one function, one at 00:02 with functions 0 and 3,
/// and a bridge at 00:1f.0 to bus 5, where there is one function.
fn config(a: PciAddress, offset: usize) -> u32 {
    let (class, header, there) = match (a.bus, a.device, a.function) {
        (0, 1, 0) => (0x0200_0000, 0, true),
        (0, 1, 1) => (0x0200_0000, 0, true),
        (0, 2, 0) => (0x0106_0100, 0x0080_0000, true),
        (0, 2, 3) => (0x0C03_3000, 0x0080_0000, true),
        (0, 31, 0) => (0x0604_0000, 0x0001_0000, true),
        (5, 0, 0) => (0x0108_0200, 0, true),
        _ => (0, 0, false),
    };
    match offset {
        0x00 => {
            if there {
                0x1234_8086
            } else {
                0xFFFF_FFFF
            }
        }
        0x08 => class,
        0x0C => header,
        0x18 => 0x0006_0500,
        _ => unreachable!(),
    }
}

#[test]
fn enumeration_follows_bridges() {
    let mut e = pci::enum_bus(0);
    let mut infos = Vec::new();
    while let Some((a, offset)) = e.next_read() {
        if let Some(info) = e.supply(config(a, offset)) {
            infos.push(info);
        }
    }
    let expected = vec![at(0, 1, 0), at(0, 2, 0), at(0, 2, 3), at(0, 31, 0), at(5, 0, 0)];
    assert_eq!(e.found(), expected);
    assert_eq!(infos.len(), 5);
    assert_eq!(infos[1].vendor_id, 0x8086);
    assert_eq!(infos[1].device_id, 0x1234);
    assert_eq!(infos[1].class_code, 0x01);
    assert_eq!(infos[1].subclass, 0x06);
    assert_eq!(infos[1].prog_if, 0x01);
    assert!(infos[1].multifunction);
    assert_eq!(infos[3].header_type, 1);
    assert!(!infos[3].multifunction);
}

/// Two bridges on bus 0 to buses 1 and 3, and one on bus 1 to bus 2; every bus
/// has functions of its own beside them.
fn nested_bridges(a: PciAddress, offset: usize) -> u32 {
    let (behind, there) = match (a.bus, a.device, a.function) {
        (0, 0, 0) => (1, true),
        (0, 4, 0) => (3, true),
        (1, 2, 0) => (2, true),
        (_, 31, 0) => (0, a.bus < 4),
        _ => (0, false),
    };
    match offset {
        0x00 if there => 0x1234_8086,
        0x00 => 0xFFFF_FFFF,
        0x08 if behind > 0 => 0x0604_0000,
        0x0C if behind > 0 => 0x0001_0000,
        0x18 => behind * 0x100,
        _ => 0,
    }
}

#[test]
fn no_function_is_found_twice() {
    let mut e = pci::enum_bus(0);
    while let Some((a, offset)) = e.next_read() {
        e.supply(nested_bridges(a, offset));
    }
    let found = e.found();
    assert_eq!(
        found,
        vec![
            at(0, 0, 0),
            at(1, 2, 0),
            at(2, 31, 0),
            at(1, 31, 0),
            at(0, 4, 0),
            at(3, 31, 0),
            at(0, 31, 0)
        ]
    );
    for (i, a) in found.iter().enumerate() {
        assert!(a.device < 32 && a.function < 8);
        assert!(!found[..i].contains(a));
    }
    // Enumerating device by device finds the same, in the same order.
    let mut one_by_one = Vec::new();
    for device in 0..32 {
        let mut e = pci::enum_device(0, device);
        while let Some((a, offset)) = e.next_read() {
            e.supply(nested_bridges(a, offset));
        }
        one_by_one.extend_from_slice(&e.found());
    }
    assert_eq!(one_by_one, found);
}

#[test]
fn enumeration_of_one_device() {
    let mut e = pci::enum_device(0, 2);
    let mut reads = 0;
    while let Some((a, offset)) = e.next_read() {
        assert_eq!((a.bus, a.device), (0, 2));
        e.supply(config(a, offset));
        reads += 1;
    }
    assert_eq!(e.found(), vec![at(0, 2, 0), at(0, 2, 3)]);
    assert_eq!(reads, 8 + 2 * 2);
}

#[test]
fn configuration_space_takes_a_megabyte_per_bus() {
    assert_eq!(pci::mcfg_pages(0, 255), 128);
    assert_eq!(pci::mcfg_pages(3, 3), 1);
    assert_eq!(pci::mcfg_pages(0, 2), 2);
}

fn machine() -> (Vec<u64>, Pmm, Vmm) {
    let map: &'static mut [u8] = Box::leak(vec![0u8; 32].into_boxed_slice());
    let mut mem = vec![0u64; 32 * 512];
    let mut pmm = Pmm::new(map, 32, HHDM);
    pmm.add_range(&mut mem, 8, 16);
    (mem, pmm, Vmm::new(PAddr(4096)))
}

#[test]
fn configuration_space_is_mapped_in_the_direct_map() {
    let (mut mem, mut pmm, mut vmm) = machine();
    let mut flushes = Vec::new();
    let r = pci::map_mcfg(
        &mut vmm, &mut mem, &mut pmm, &mut flushes, HHDM, 0xE000_0000, 0, 3,
    );
    assert_eq!(r.unwrap(), VAddr(HHDM + 0xE000_0000));
    assert_eq!(flushes.len(), 2);
    let last = VAddr(HHDM + 0xE03F_FFFF);
    assert_eq!(vmm.translate(&mem, last).unwrap().0, PAddr(0xE03F_FFFF));
    let again = pci::map_mcfg(
        &mut vmm, &mut mem, &mut pmm, &mut flushes, HHDM, 0xE000_0000, 0, 3,
    );
    assert!(matches!(again, Err(PciError::CouldNotMap(MapError::AlreadyMapped))));
    let odd = pci::map_mcfg(
        &mut vmm, &mut mem, &mut pmm, &mut flushes, HHDM, 0xF000_1000, 0, 3,
    );
    assert!(matches!(odd, Err(PciError::CouldNotMap(MapError::Misaligned))));
}

#[test]
fn first_io_controller_is_found() {
    let madt = [
        MadtEntry::Other,
        MadtEntry::IoApic { address: 0xFEC0_0000, gsi_base: 0 },
        MadtEntry::IoApic { address: 0xFEC1_0000, gsi_base: 24 },
    ];
    assert_eq!(apic::find_ioapic(Some(&madt)).unwrap(), (PAddr(0xFEC0_0000), 0));
    assert!(matches!(apic::find_ioapic(None), Err(ApicError::AcpiTableNotFound)));
    assert!(matches!(apic::find_ioapic(Some(&madt[..1])), Err(ApicError::IoApicNotFound)));
}

#[test]
fn interrupts_can_be_overridden() {
    let madt = [
        MadtEntry::InterruptSourceOverride { source: 0, gsi: 2 },
        MadtEntry::InterruptSourceOverride { source: 1, gsi: 17 },
        MadtEntry::InterruptSourceOverride { source: 1, gsi: 18 },
    ];
    assert_eq!(apic::resolve_isa_irq(Some(&madt), 1), 17);
    assert_eq!(apic::resolve_isa_irq(Some(&madt), 0), 2);
    assert_eq!(apic::resolve_isa_irq(Some(&madt), 4), 4);
    assert_eq!(apic::resolve_isa_irq(None, 1), 1);
}

#[test]
fn keyboard_input_of_the_io_controller() {
    let (mut mem, mut pmm, mut vmm) = machine();
    let mut flushes = Vec::new();
    let madt = [
        MadtEntry::IoApic { address: 0xFEC0_0000, gsi_base: 16 },
        MadtEntry::InterruptSourceOverride { source: 1, gsi: 21 },
    ];
    let (virt, pin) =
        apic::init(&mut vmm, &mut mem, &mut pmm, &mut flushes, HHDM, Some(&madt)).unwrap();
    assert_eq!(virt, VAddr(HHDM + 0xFEC0_0000));
    assert_eq!(pin, 5);
    let r = apic::init(&mut vmm, &mut mem, &mut pmm, &mut flushes, HHDM, Some(&madt));
    assert!(matches!(r, Err(ApicError::CouldNotMap(MapError::AlreadyMapped))));
    let r = apic::init(&mut vmm, &mut mem, &mut pmm, &mut flushes, HHDM, None);
    assert!(matches!(r, Err(ApicError::AcpiTableNotFound)));
    let r = apic::init(&mut vmm, &mut mem, &mut pmm, &mut flushes, HHDM, Some(&[]));
    assert!(matches!(r, Err(ApicError::IoApicNotFound)));
    let _ = PageSize::Base;
}

fn frame(vector: u64) -> InterruptFrame {
    InterruptFrame {
        r15: 0, r14: 0, r13: 0, r12: 0, r11: 0, r10: 0, r9: 0, r8: 0, rbp: 0, rdi: 0, rsi: 0,
        rdx: 0, rcx: 0, rbx: 0, rax: 0, vector, error_code: 0, rip: 0, cs: 0, rflags: 0, rsp: 0,
        ss: 0,
    }
}

#[test]
fn interrupts_are_told_apart() {
    let h = Handlers::new();
    assert_eq!(idt::isr_handler(&h, &frame(0)), IsrAction::Unhandled);
    assert_eq!(idt::isr_handler(&h, &frame(1)), IsrAction::Debug);
    assert_eq!(idt::isr_handler(&h, &frame(2)), IsrAction::Ignore);
    assert_eq!(idt::isr_handler(&h, &frame(3)), IsrAction::Breakpoint);
    assert_eq!(idt::isr_handler(&h, &frame(4)), IsrAction::Exception);
    assert_eq!(idt::isr_handler(&h, &frame(8)), IsrAction::Exception);
    assert_eq!(idt::isr_handler(&h, &frame(14)), IsrAction::PageFault);
    assert_eq!(idt::isr_handler(&h, &frame(31)), IsrAction::Exception);
    assert_eq!(idt::isr_handler(&h, &frame(32)), IsrAction::Unhandled);
    assert_eq!(idt::isr_handler(&h, &frame(0x80)), IsrAction::Syscall);
    assert_eq!(idt::isr_handler(&h, &frame(255)), IsrAction::Unhandled);
}

#[test]
fn handlers_are_installed_and_cleared() {
    let mut h = Handlers::new();
    idt::install_handler(&mut h, 0x21, 0x1234);
    assert!(idt::is_handler_installed(&h, 0x21));
    assert!(!idt::is_handler_installed(&h, 0x22));
    assert_eq!(idt::isr_handler(&h, &frame(0x21)), IsrAction::Call(0x1234));
    idt::install_handler(&mut h, 0x21, 0x5678);
    assert_eq!(idt::isr_handler(&h, &frame(0x21)), IsrAction::Call(0x5678));
    idt::clear_handler(&mut h, 0x21);
    assert!(!idt::is_handler_installed(&h, 0x21));
    assert_eq!(idt::isr_handler(&h, &frame(0x21)), IsrAction::Unhandled);
    // A handler does not take precedence over a system call.
    idt::install_handler(&mut h, 0x80, 1);
    assert_eq!(idt::isr_handler(&h, &frame(0x80)), IsrAction::Syscall);
}

fn text_of(d: &Descriptor64) -> String {
    format!("{:?}", d)
}

#[test]
fn gates_have_their_own_levels_and_stacks() {
    let entries: Vec<u64> = (0..256u64).map(|i| 0xFFFF_FFFF_8012_0000 + i * 16).collect();
    let mut table = vec![Descriptor64::NULL; 256];
    idt::init(&mut table, &entries);
    // Selector 8, present, interrupt gate; offset split over three fields.
    let plain = text_of(&table[3]);
    assert!(plain.contains(&format!("lower: {}", 0x0008_0030u32)));
    assert!(plain.contains(&format!("upper: {}", 0x8012_8E00u32)));
    assert!(plain.contains(&format!("lower: {}", 0xFFFF_FFFFu32)));
    let double_fault = text_of(&table[8]);
    assert!(double_fault.contains(&format!("upper: {}", 0x8012_8E01u32)));
    let syscall = text_of(&table[0x80]);
    assert!(syscall.contains(&format!("upper: {}", 0x8012_EE00u32)));
}

#[test]
fn segments_and_selectors() {
    let d = gdt::segment_descriptors();
    assert_eq!(d.null, 0);
    assert_eq!(d.kernel_code, 0x00AF_9A00_0000_FFFF);
    assert_eq!(d.kernel_data, 0x008F_9200_0000_FFFF);
    assert_eq!(d.user_code_32bit, 0x00CF_FA00_0000_FFFF);
    assert_eq!(d.user_data, 0x008F_F200_0000_FFFF);
    assert_eq!(d.user_code, 0x00AF_FA00_0000_FFFF);
    let s = gdt::selectors();
    assert_eq!((s.code, s.stack, s.data, s.task), (8, 16, 0, 48));
    assert_eq!(gdt::ist_stack_top(0x1000), 0x5000);
    assert_eq!(
        gdt::TASK_STATE_SIZE as usize,
        std::mem::size_of::<x86::bits64::task::TaskStateSegment>()
    );
}

#[test]
fn task_state_holds_the_stack() {
    let tss = gdt::task_state_segment(0x1000);
    let (ist, iomap_base) = (tss.ist, tss.iomap_base);
    assert_eq!(ist, [0x5000, 0, 0, 0, 0, 0, 0]);
    assert_eq!(iomap_base, 104);
    let rsp = tss.rsp;
    assert_eq!(rsp, [0, 0, 0]);
}

#[test]
fn task_state_descriptor_holds_its_address() {
    let d = text_of(&gdt::task_descriptor(0xFFFF_8000_1234_5678));
    assert!(d.contains(&format!("lower: {}", 0x5678_0067u32)));
    assert!(d.contains(&format!("upper: {}", 0x1200_8934u32)));
    assert!(d.contains(&format!("lower: {}", 0xFFFF_8000u32)));
}

#[test]
fn serial_line_setup() {
    let w = serial::init();
    assert_eq!(w[0], PortWrite { port: 0x3F9, value: 0x00 });
    assert_eq!(w[1], PortWrite { port: 0x3FB, value: 0x80 });
    assert_eq!(w[2], PortWrite { port: 0x3F8, value: 0x03 });
    assert_eq!(w[3], PortWrite { port: 0x3F9, value: 0x00 });
    assert_eq!(w[4], PortWrite { port: 0x3FB, value: 0x03 });
    assert_eq!(w[5], PortWrite { port: 0x3FA, value: 0xC7 });
    assert_eq!(w[6], PortWrite { port: 0x3FC, value: 0x0B });
    assert!(serial::transmit_ready(0x20));
    assert!(serial::transmit_ready(0xFF));
    assert!(!serial::transmit_ready(0xDF));
}

fn sent(text: &[u8]) -> Vec<u8> {
    let mut out = vec![b'?'; 2 * text.len() + 3];
    let n = Serial.write_str(text, &mut out);
    assert!(out[n..].iter().all(|b| *b == b'?'));
    out.truncate(n);
    out
}

#[test]
fn line_feeds_get_carriage_returns() {
    assert_eq!(sent(b"boot\n\ndone"), b"boot\r\n\r\ndone".to_vec());
    assert_eq!(sent(b""), Vec::<u8>::new());
    assert_eq!(sent(b"plain\r"), b"plain\r".to_vec());
    assert_eq!(sent(b"\n"), b"\r\n".to_vec());
}

#[test]
fn text_can_be_sent_in_pieces() {
    let mut pieces = sent(b"one\ntw");
    pieces.extend(sent(b"o\n"));
    assert_eq!(pieces, sent(b"one\ntwo\n"));
}

#[test]
fn time_from_the_counter() {
    assert_eq!(tsc::current_time_ns(3_000_000_000, 0, 3_000_000_000), 1_000_000_000);
    assert_eq!(tsc::current_time_ns(1002, 1000, 3_000_000_000), 0);
    assert_eq!(tsc::current_time_ns(1003, 1000, 3_000_000_000), 1);
    assert_eq!(tsc::current_time_ns(7, 7, 1), 0);
    // Only the low 64 bits are kept: 2^36 seconds in nanoseconds, modulo 2^64.
    assert_eq!(tsc::current_time_ns(1 << 36, 0, 1), ((1u128 << 36) * 1_000_000_000) as u64);
}

#[test]
fn counter_rate() {
    assert_eq!(tsc::init(false, Some(5)), Err(TscError::NotInvariant));
    assert_eq!(tsc::init(true, Some(5)), Ok(TscSource::Reported(5)));
    assert_eq!(tsc::init(true, Some(0)), Ok(TscSource::Calibrate));
    assert_eq!(tsc::init(true, None), Ok(TscSource::Calibrate));
    assert_eq!(tsc::calibrate_with_pit(1000, 1000 + 65535), 1_193_182);
    assert_eq!(tsc::calibrate_with_pit(0, 100), 1820);
}

#[test]
fn a_value_is_set_once_and_used() {
    let mut s: Singleton<Vec<u32>> = Singleton::new();
    assert!(!s.is_installed());
    s.install(vec![1]);
    assert!(s.is_installed());
    let len = s.with(|v| {
        v.push(2);
        v.len()
    });
    assert_eq!(len, 2);
    assert_eq!(s.with(|v| v[1]), 2);
}

#[test]
fn lock_excludes_and_restores() {
    let mut l = IntLock::new();
    assert!(!l.is_locked());
    assert!(l.try_lock(true));
    assert!(l.is_locked());
    assert!(!l.try_lock(false));
    assert!(l.unlock());
    assert!(!l.is_locked());
    assert!(l.try_lock(false));
    assert!(!l.unlock());
    for n in 0..4u8 {
        assert_eq!(IntLock::from_number(n).to_number(), n);
    }
    assert!(IntLock::from_number(1).is_locked());
    assert!(!IntLock::from_number(2).is_locked());
}

#[test]
fn boot_picture_is_a_diagonal() {
    let width = 128usize;
    let mut fb = vec![7u32; width * 100];
    framebuffer::draw_line(&mut fb, width);
    for y in 0..100 {
        for x in 0..width {
            let expected = if x == y { 0xFFFF_FFFF } else { 7 };
            assert_eq!(fb[y * width + x], expected);
        }
    }
}

#[test]
fn time_runs_forward() {
    for hz in [1_000_000u64, 999_999_999, 1_000_000_000, 3_000_000_000] {
        let mut last = 0;
        for tick in 1..2000u64 {
            let now = tsc::current_time_ns(5000 + tick, 5000, hz);
            assert!(now >= last);
            assert!(now > last || hz > 1_000_000_000);
            last = now;
        }
        let second = tsc::current_time_ns(5000 + hz, 5000, hz);
        assert_eq!(second, 1_000_000_000);
    }
}

#[test]
fn reported_times_rise() {
    // Two ticks of a fast counter can fall into one nanosecond.
    let mut last = 0;
    for tick in 1..1000u64 {
        let now = tsc::current_time_ns(tick, 0, 3_000_000_000);
        let t = tsc::later_time(last, now);
        assert!(t > last && t >= now);
        last = t;
    }
    assert_eq!(tsc::later_time(5, 9), 9);
    assert_eq!(tsc::later_time(5, 5), 6);
    assert_eq!(tsc::later_time(5, 2), 6);
    assert_eq!(tsc::later_time(u64::MAX - 1, 0), u64::MAX);
}

#[test]
fn pci_addresses_are_distinct() {
    let mut io = Vec::new();
    let mut memory = Vec::new();
    for bus in [0u8, 1, 255] {
        for device in 0..32 {
            for function in 0..8 {
                for offset in [0usize, 4, 0xFC] {
                    io.push(at(bus, device, function).io_address(offset));
                    memory.push(at(bus, device, function).mmio_address(offset, 0x1_0000_0000));
                }
            }
        }
    }
    let n = io.len();
    io.sort();
    io.dedup();
    memory.sort();
    memory.dedup();
    assert_eq!((io.len(), memory.len()), (n, n));
}
