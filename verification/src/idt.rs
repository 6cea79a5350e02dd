//! Interrupts: the gates, the table of handlers, and what is to be done about
//! an interrupt.
use vstd::prelude::*;
use x86::bits64::segmentation::Descriptor64;
use x86::segmentation::{
    BuildDescriptor, DescriptorBuilder, GateDescriptorBuilder, SegmentSelector,
};

use crate::gdt;
use crate::gdt::Ring;

verus! {

/// Number of the stack for double faults.
pub const DOUBLE_FAULT_IST: u8 = 1;

/// Registers at the time of an interrupt.
#[derive(Debug, Clone, Copy)]
pub struct InterruptFrame {
    /// General register.
    pub r15: u64,
    /// General register.
    pub r14: u64,
    /// General register.
    pub r13: u64,
    /// General register.
    pub r12: u64,
    /// General register.
    pub r11: u64,
    /// General register.
    pub r10: u64,
    /// General register.
    pub r9: u64,
    /// General register.
    pub r8: u64,
    /// General register.
    pub rbp: u64,
    /// General register.
    pub rdi: u64,
    /// General register.
    pub rsi: u64,
    /// General register.
    pub rdx: u64,
    /// General register.
    pub rcx: u64,
    /// General register.
    pub rbx: u64,
    /// General register.
    pub rax: u64,
    /// Number of the interrupt.
    pub vector: u64,
    /// Error code, or zero.
    pub error_code: u64,
    /// Instruction pointer.
    pub rip: u64,
    /// Code segment.
    pub cs: u64,
    /// Flags.
    pub rflags: u64,
    /// Stack pointer.
    pub rsp: u64,
    /// Stack segment.
    pub ss: u64,
}

/// What is to be done about an interrupt.
#[derive(Debug, Clone, Copy, PartialEq, Eq, Structural)]
pub enum IsrAction {
    /// Report a debug exception, and clear its cause in register DR6.
    Debug,
    /// Nothing.
    Ignore,
    /// Report a breakpoint.
    Breakpoint,
    /// Give up, and tell the address that could not be accessed.
    PageFault,
    /// Give up.
    Exception,
    /// Report a system call.
    Syscall,
    /// Report that nothing handles the interrupt.
    Unhandled,
    /// Call this handler.
    Call(usize),
}

/// What is to be done about an interrupt, where `handler` is what the table of
/// handlers holds for it, zero being none.
pub open spec fn action_of(vector: int, handler: usize) -> IsrAction {
    if vector == 1 {
        IsrAction::Debug
    } else if vector == 2 {
        IsrAction::Ignore
    } else if vector == 3 {
        IsrAction::Breakpoint
    } else if vector == 14 {
        IsrAction::PageFault
    } else if 4 <= vector < 32 {
        IsrAction::Exception
    } else if vector == 0x80 {
        IsrAction::Syscall
    } else if handler == 0 {
        IsrAction::Unhandled
    } else {
        IsrAction::Call(handler)
    }
}

/// Handlers of interrupts, by number: the address of a function, or zero.
pub struct Handlers {
    table: [usize; 256],
}

impl Handlers {
    /// The handlers by number, zero where there is none.
    pub closed spec fn view(&self) -> Seq<usize> {
        self.table@
    }

    /// A table without handlers.
    pub fn new() -> (h: Self)
        ensures
            h@ == Seq::new(256, |i: int| 0usize),
    {
        let h = Handlers { table: [0; 256] };
        assert(h@ =~= Seq::new(256, |i: int| 0usize));
        h
    }

    /// A table has a place for every interrupt.
    pub proof fn lemma_len(&self)
        ensures
            self@.len() == 256,
    {
    }
}

/// Decides what to do about an interrupt.
pub fn isr_handler(handlers: &Handlers, frame: &InterruptFrame) -> (action: IsrAction)
    requires
        frame.vector < 256,
    ensures
        action == action_of(frame.vector as int, handlers@[frame.vector as int]),
        frame.vector == 1 ==> action == IsrAction::Debug,
        frame.vector == 2 ==> action == IsrAction::Ignore,
        frame.vector == 3 ==> action == IsrAction::Breakpoint,
        frame.vector == 14 ==> action == IsrAction::PageFault,
        frame.vector == 0x80 ==> action == IsrAction::Syscall,
        4 <= frame.vector < 32 && frame.vector != 14 ==> action == IsrAction::Exception,
        frame.vector == 0 || (frame.vector >= 32 && frame.vector != 0x80) ==> action == (
        if handlers@[frame.vector as int] == 0 {
            IsrAction::Unhandled
        } else {
            IsrAction::Call(handlers@[frame.vector as int])
        }),
{
    let vec: usize = frame.vector as usize;
    match vec {
        1 => IsrAction::Debug,
        2 => IsrAction::Ignore,
        3 => IsrAction::Breakpoint,
        14 => IsrAction::PageFault,
        4..32 => IsrAction::Exception,
        0x80 => IsrAction::Syscall,
        _ => {
            let handler: usize = handlers.table[vec];
            if handler == 0 {
                IsrAction::Unhandled
            } else {
                IsrAction::Call(handler)
            }
        },
    }
}

/// Sets the handler of an interrupt.
pub fn install_handler(handlers: &mut Handlers, vector: u8, handler: usize)
    ensures
        final(handlers)@.len() == 256,
        final(handlers)@ == old(handlers)@.update(vector as int, handler),
{
    handlers.table[vector as usize] = handler;
}

/// Removes the handler of an interrupt.
pub fn clear_handler(handlers: &mut Handlers, vector: u8)
    ensures
        final(handlers)@.len() == 256,
        final(handlers)@ == old(handlers)@.update(vector as int, 0),
{
    handlers.table[vector as usize] = 0;
}

/// Whether an interrupt has a handler.
pub fn is_handler_installed(handlers: &Handlers, vector: u8) -> (r: bool)
    ensures
        r == (handlers@[vector as int] != 0),
{
    handlers.table[vector as usize] != 0
}

/// An interrupt beyond the exceptions and other than the system call reaches the
/// handler that was installed for it last, and none once it is removed; other
/// handlers stay as they are.
pub proof fn law_installed_handler_is_called(
    table: Seq<usize>,
    vector: int,
    handler: usize,
    other: int,
)
    requires
        table.len() == 256,
        0 <= vector < 256,
        vector == 0 || vector >= 32,
        vector != 0x80,
        handler != 0,
        0 <= other < 256,
        other != vector,
    ensures
        action_of(vector, table.update(vector, handler)[vector]) == IsrAction::Call(handler),
        action_of(vector, table.update(vector, 0)[vector]) == IsrAction::Unhandled,
        table.update(vector, handler)[other] == table[other],
{
}

/// Exceptions and system calls are told apart by their number alone, whatever
/// handlers are installed.
pub proof fn law_exceptions_need_no_handler(vector: int, handler: usize)
    ensures
        action_of(1, handler) == IsrAction::Debug,
        action_of(2, handler) == IsrAction::Ignore,
        action_of(3, handler) == IsrAction::Breakpoint,
        action_of(14, handler) == IsrAction::PageFault,
        action_of(0x80, handler) == IsrAction::Syscall,
        4 <= vector < 32 && vector != 14 ==> action_of(vector, handler) == IsrAction::Exception,
{
}

/// Only system calls can be raised by user programs, and only double faults have
/// a stack of their own.
pub proof fn law_gates(vector: int)
    ensures
        gate_dpl(vector) == Ring::Ring3 <==> vector == 0x80,
        gate_dpl(vector) == Ring::Ring0 <==> vector != 0x80,
        gate_ist(vector) == 1 <==> vector == 8,
        gate_ist(vector) == 0 <==> vector != 8,
{
}

/// The descriptor that `x86` makes of an interrupt gate that is present: index
/// and privilege level of the code segment, address of the entry, lowest
/// privilege level that can use it, and number of the stack.
pub uninterp spec fn interrupt_gate(index: u16, rpl: int, offset: u64, dpl: int, ist: u8) -> Descriptor64;

/// `DescriptorBuilder::interrupt_descriptor` with `dpl`, `ist` and `present`,
/// then `finish`. The result depends on the arguments only; its bits cannot be
/// read back. It panics on a stack number above 7.
#[verifier::external_body]
fn gate(index: u16, rpl: Ring, offset: u64, dpl: Ring, ist: u8) -> (d: Descriptor64)
    requires
        ist <= 7,
    ensures
        d == interrupt_gate(index, gdt::ring_number(rpl), offset, gdt::ring_number(dpl), ist),
{
    let rings = [x86::Ring::Ring0, x86::Ring::Ring1, x86::Ring::Ring2, x86::Ring::Ring3];
    let selector = SegmentSelector::new(index, rings[rpl as usize]);
    let b = <DescriptorBuilder as GateDescriptorBuilder<u64>>::interrupt_descriptor(selector, offset);
    b.dpl(rings[dpl as usize]).ist(ist).present().finish()
}

/// Lowest privilege level that can raise an interrupt by an instruction: user
/// programs can make system calls only.
pub open spec fn gate_dpl(vector: int) -> Ring {
    if vector == 0x80 {
        Ring::Ring3
    } else {
        Ring::Ring0
    }
}

/// Number of the stack of an interrupt: only double faults have one of their
/// own.
pub open spec fn gate_ist(vector: int) -> u8 {
    if vector == 8 {
        DOUBLE_FAULT_IST
    } else {
        0
    }
}

/// Makes the gates of all interrupts, from the addresses of their entries.
pub fn init(idt: &mut [Descriptor64], isr_table: &[u64])
    requires
        old(idt)@.len() == 256,
        isr_table@.len() == 256,
    ensures
        final(idt)@.len() == 256,
        forall|i: int|
            0 <= i < 256 ==> #[trigger] final(idt)@[i] == interrupt_gate(
                1,
                0,
                isr_table@[i],
                gdt::ring_number(gate_dpl(i)),
                gate_ist(i),
            ),
        final(idt)@[0x80] == interrupt_gate(1, 0, isr_table@[0x80], 3, 0),
        final(idt)@[8] == interrupt_gate(1, 0, isr_table@[8], 0, 1),
        forall|i: int|
            0 <= i < 256 && i != 0x80 && i != 8 ==> #[trigger] final(idt)@[i] == interrupt_gate(
                1,
                0,
                isr_table@[i],
                0,
                0,
            ),
{
    let mut i: usize = 0;
    while i < 256
        invariant
            i <= 256,
            isr_table@.len() == 256,
            idt@.len() == 256,
            forall|j: int|
                0 <= j < i ==> #[trigger] idt@[j] == interrupt_gate(
                    1,
                    0,
                    isr_table@[j],
                    gdt::ring_number(gate_dpl(j)),
                    gate_ist(j),
                ),
        decreases 256 - i,
    {
        let dpl: Ring = if i == 0x80 {
            Ring::Ring3
        } else {
            Ring::Ring0
        };
        let ist: u8 = if i == 8 {
            DOUBLE_FAULT_IST
        } else {
            0
        };
        idt[i] = gate(1, Ring::Ring0, isr_table[i], dpl, ist);
        i = i + 1;
    }
}

} // verus!
