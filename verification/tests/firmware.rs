//! ACPI.
use kernel::acpi;
use kernel::acpi::uacpi;
use kernel::acpi::uacpi::{
    EventAction, LogLevel, LogNumbers, MutexAction, MutexEvent, SimpleEvent, Status,
};
use kernel::acpi::InitStep;
use kernel::idt;
use kernel::idt::Handlers;
use kernel::mm::addr::{PAddr, VAddr};
use kernel::mm::heap::Layout;
use kernel::mm::pmm::Pmm;
use kernel::mm::vmm::Vmm;

const HHDM: u64 = 0xFFFF_8000_0000_0000;

#[test]
fn statuses_become_results() {
    assert_eq!(acpi::status_to_result(0, Some("no error")), Ok(()));
    assert_eq!(acpi::status_to_result(0, None), Ok(()));
    assert_eq!(acpi::status_to_result(1, Some("failed")), Err("failed"));
    assert_eq!(acpi::status_to_result(u32::MAX, None), Err("Unknown error"));
}

#[test]
fn bring_up_has_four_steps() {
    let mut step = acpi::first_step();
    let mut seen = Vec::new();
    while step != InitStep::Done {
        seen.push(step);
        step = acpi::next_step(step, 0, None).unwrap();
    }
    assert_eq!(
        seen,
        vec![
            InitStep::Initialize,
            InitStep::LoadNamespace,
            InitStep::InitializeNamespace,
            InitStep::FinalizeGpe
        ]
    );
    assert_eq!(acpi::next_step(InitStep::Initialize, 7, Some("not found")), Err("not found"));
    assert_eq!(acpi::next_step(InitStep::FinalizeGpe, 7, None), Err("Unknown error"));
}

#[test]
fn root_table_address() {
    assert_eq!(uacpi::get_rsdp(false, Some(1), None, 0), Err(Status::InvalidArgument));
    assert_eq!(uacpi::get_rsdp(true, None, None, 0), Err(Status::NotFound));
    assert_eq!(uacpi::get_rsdp(true, Some(0xE0000), Some(3), HHDM), Ok(PAddr(0xE0000)));
    assert_eq!(uacpi::get_rsdp(true, Some(HHDM + 0xE0000), Some(4), HHDM), Ok(PAddr(0xE0000)));
    assert_eq!(uacpi::get_rsdp(true, Some(HHDM + 0xE0000), None, HHDM), Ok(PAddr(0xE0000)));
    assert_eq!(uacpi::get_rsdp(true, Some(0), None, 1), Ok(PAddr(u64::MAX)));
}

#[test]
fn misaligned_range_covers_two_pages() {
    assert_eq!(uacpi::page_range(PAddr(0x1ABC), 0xF00), (0x1000, 0x3000));
    assert_eq!(uacpi::page_range(PAddr(0x1000), 0), (0x1000, 0x1000));
    assert_eq!(uacpi::page_range(PAddr(0x1000), 0x1000), (0x1000, 0x2000));
}

fn machine(free: u64) -> (Vec<u64>, Pmm, Vmm) {
    let map: &'static mut [u8] = Box::leak(vec![0u8; 32].into_boxed_slice());
    let mut mem = vec![0u64; 32 * 512];
    let mut pmm = Pmm::new(map, 32, HHDM);
    pmm.add_range(&mut mem, 8, free);
    (mem, pmm, Vmm::new(PAddr(4096)))
}

#[test]
fn firmware_memory_is_mapped() {
    let (mut mem, mut pmm, mut vmm) = machine(16);
    let mut fl = Vec::new();
    let r = uacpi::kernel_map(&mut vmm, &mut mem, &mut pmm, &mut fl, HHDM, PAddr(0x1ABC), 0xF00);
    assert_eq!(r, Some(VAddr(HHDM + 0x1ABC)));
    for i in [0u64, 0x543, 0x544, 0xEFF] {
        let (p, _) = vmm.translate(&mem, VAddr(HHDM + 0x1ABC + i)).unwrap();
        assert_eq!(p, PAddr(0x1ABC + i));
    }
    assert_eq!(vmm.translate(&mem, VAddr(HHDM + 0x3000)), None);
    assert_eq!(fl.len(), 2);
    // What is mapped already does no harm.
    let r = uacpi::kernel_map(&mut vmm, &mut mem, &mut pmm, &mut fl, HHDM, PAddr(0x2000), 0x1800);
    assert_eq!(r, Some(VAddr(HHDM + 0x2000)));
    assert_eq!(fl.len(), 3);
}

#[test]
fn firmware_memory_without_room() {
    let (mut mem, mut pmm, mut vmm) = machine(2);
    let mut fl = Vec::new();
    let r = uacpi::kernel_map(&mut vmm, &mut mem, &mut pmm, &mut fl, HHDM, PAddr(0x1ABC), 0xF00);
    assert_eq!(r, None);
    assert_eq!(pmm.free_frames_count(), 2);
    // Nothing at all can be mapped for no bytes.
    let r = uacpi::kernel_map(&mut vmm, &mut mem, &mut pmm, &mut fl, HHDM, PAddr(0x1000), 0);
    assert_eq!(r, Some(VAddr(HHDM + 0x1000)));
}

fn prefix(level: LogLevel) -> String {
    let mut out = [b'x'; uacpi::LOG_PREFIX_MAX + 3];
    let len = uacpi::log_prefix(level, &mut out);
    assert!(out[len..].iter().all(|b| *b == b'x'));
    String::from_utf8(out[..len].to_vec()).unwrap()
}

#[test]
fn log_levels() {
    assert_eq!(prefix(LogLevel::Debug), "[debug] ");
    assert_eq!(prefix(LogLevel::Trace), "[debug] ");
    assert_eq!(prefix(LogLevel::Info), "[info] ");
    assert_eq!(prefix(LogLevel::Warn), "[warning] ");
    assert_eq!(prefix(LogLevel::Error), "[error] ");
    for number in [0, 7, 10, 409, 1_000_000, u32::MAX] {
        assert_eq!(prefix(LogLevel::Unknown(number)), format!("[unknown log level {number}] "));
    }
    assert_eq!(prefix(LogLevel::Unknown(u32::MAX)).len(), uacpi::LOG_PREFIX_MAX);
}

#[test]
fn log_level_numbers() {
    let numbers = LogNumbers { debug: 50, trace: 40, info: 30, warn: 20, error: 10 };
    assert_eq!(uacpi::log_level(&numbers, 50), LogLevel::Debug);
    assert_eq!(uacpi::log_level(&numbers, 40), LogLevel::Trace);
    assert_eq!(uacpi::log_level(&numbers, 30), LogLevel::Info);
    assert_eq!(uacpi::log_level(&numbers, 20), LogLevel::Warn);
    assert_eq!(uacpi::log_level(&numbers, 10), LogLevel::Error);
    assert_eq!(uacpi::log_level(&numbers, 11), LogLevel::Unknown(11));
}

#[test]
fn waits_last_long_enough() {
    let start = 1_000;
    for (end, asked) in [
        (uacpi::stall_end(start, 3), 3_000),
        (uacpi::sleep_end(start, 2), 2_000_000),
        (uacpi::stall_end(start, 0), 0),
    ] {
        let mut now = start;
        while uacpi::goes_on(now, end) {
            assert!(now - start < asked);
            now += 7;
        }
        assert!(now - start >= asked);
    }
}

#[test]
fn allocations_are_aligned_and_not_empty() {
    assert_eq!(uacpi::alloc_layout(0), Some(Layout { size: 1, align: 16 }));
    assert_eq!(uacpi::alloc_layout(100), Some(Layout { size: 100, align: 16 }));
    let most = isize::MAX as usize - 15;
    assert_eq!(uacpi::alloc_layout(most), Some(Layout { size: most, align: 16 }));
    assert_eq!(uacpi::alloc_layout(most + 1), None);
    assert!(std::alloc::Layout::from_size_align(most, 16).is_ok());
    assert!(std::alloc::Layout::from_size_align(most + 1, 16).is_err());
}

#[test]
fn ports_and_deadlines() {
    assert_eq!(uacpi::io_port(0x600, 4), 0x604);
    assert_eq!(uacpi::stall_end(5, 100), 100_005);
    assert_eq!(uacpi::sleep_end(5, 2), 2_000_005);
}

#[test]
fn events_count_signals() {
    let mut e = SimpleEvent::new();
    assert!(!e.decrement());
    e.signal();
    e.signal();
    assert!(e.decrement());
    assert_eq!(e.counter(), 1);
    e.reset();
    assert!(!e.decrement());
    let mut full = SimpleEvent::with_counter(usize::MAX);
    full.signal();
    assert_eq!(full.counter(), 0);
}

#[test]
fn mutex_is_tried_once() {
    for taken in [true, false] {
        let mut w = uacpi::acquire_mutex(0);
        assert_eq!(w.action(), MutexAction::TryLock);
        w.proceed(MutexEvent::Tried(taken));
        let expected = if taken { Status::Done } else { Status::Timeout };
        assert_eq!(w.action(), MutexAction::Answer(expected));
    }
}

#[test]
fn mutex_is_waited_for_without_end() {
    let mut w = uacpi::acquire_mutex(0xFFFF);
    assert_eq!(w.action(), MutexAction::Lock);
    w.proceed(MutexEvent::Locked);
    assert_eq!(w.action(), MutexAction::Answer(Status::Done));
}

#[test]
fn mutex_times_out() {
    let mut w = uacpi::acquire_mutex(2);
    assert_eq!(w.action(), MutexAction::ReadTime);
    w.proceed(MutexEvent::Time(1000));
    for now in [1000u64, 1_000_999, 2_000_999] {
        assert_eq!(w.action(), MutexAction::ReadTime);
        w.proceed(MutexEvent::Time(now));
        assert_eq!(w.action(), MutexAction::TryLock);
        w.proceed(MutexEvent::Tried(false));
        assert_eq!(w.action(), MutexAction::Sleep);
        w.proceed(MutexEvent::Slept);
    }
    w.proceed(MutexEvent::Time(2_001_000));
    assert_eq!(w.action(), MutexAction::Answer(Status::Timeout));
}

#[test]
fn mutex_is_taken_in_time() {
    let mut w = uacpi::acquire_mutex(2);
    w.proceed(MutexEvent::Time(0));
    w.proceed(MutexEvent::Time(0));
    w.proceed(MutexEvent::Tried(true));
    assert_eq!(w.action(), MutexAction::Answer(Status::Done));
}

#[test]
fn event_wait_pauses_until_the_timeout() {
    let mut w = uacpi::wait_for_event(25);
    let mut pauses = 0;
    loop {
        match w.action() {
            EventAction::Decrement => w.tried(false),
            EventAction::Sleep => {
                pauses += 1;
                w.slept();
            }
            EventAction::Answer(came) => {
                assert!(!came);
                break;
            }
        }
    }
    assert_eq!(pauses, 3);
}

#[test]
fn event_wait_ends_with_a_signal() {
    for timeout in [0u16, 10, 0xFFFF] {
        let mut w = uacpi::wait_for_event(timeout);
        assert_eq!(w.action(), EventAction::Decrement);
        w.tried(true);
        assert_eq!(w.action(), EventAction::Answer(true));
    }
    let mut w = uacpi::wait_for_event(0);
    w.tried(false);
    assert_eq!(w.action(), EventAction::Answer(false));
    let mut w = uacpi::wait_for_event(0xFFFF);
    for _ in 0..1000 {
        w.tried(false);
        w.slept();
    }
    assert_eq!(w.action(), EventAction::Decrement);
}

#[test]
fn interrupt_lines_get_handlers() {
    let mut h = Handlers::new();
    assert_eq!(uacpi::install_interrupt_handler(&mut h, 9, 0x77), Ok(0x29));
    assert!(idt::is_handler_installed(&h, 0x29));
    assert_eq!(
        uacpi::install_interrupt_handler(&mut h, 9, 0x78),
        Err(Status::AlreadyExists)
    );
    uacpi::uninstall_interrupt_handler(&mut h, 0x129);
    assert!(!idt::is_handler_installed(&h, 0x29));
    assert_eq!(uacpi::install_interrupt_handler(&mut h, 0x109, 1), Ok(0x29));
}

#[test]
fn mutex_answer_tells_what_happened() {
    let mut w = uacpi::acquire_mutex(10);
    w.proceed(MutexEvent::Time(0));
    for _ in 0..3 {
        w.proceed(MutexEvent::Time(5));
        w.proceed(MutexEvent::Tried(false));
        w.proceed(MutexEvent::Slept);
    }
    w.proceed(MutexEvent::Time(9_999_999));
    w.proceed(MutexEvent::Tried(true));
    assert_eq!(w.action(), MutexAction::Answer(Status::Done));
}
