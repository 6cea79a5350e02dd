//! Segment descriptors and selectors.
use vstd::prelude::*;
use x86::segmentation::{
    BuildDescriptor, CodeSegmentType, DataSegmentType, DescriptorBuilder,
    GateDescriptorBuilder, SegmentDescriptorBuilder, SegmentSelector,
};

verus! {

/// Bytes of the stack for double faults.
pub const IST_STACK_SIZE: u64 = 16384;

/// Privilege levels.
#[derive(Debug, Copy, Clone, PartialEq, Eq, Structural)]
pub enum Ring {
    /// The kernel.
    Ring0,
    /// Not used.
    Ring1,
    /// Not used.
    Ring2,
    /// User programs.
    Ring3,
}

/// Number of a privilege level.
pub open spec fn ring_number(ring: Ring) -> int {
    match ring {
        Ring::Ring0 => 0,
        Ring::Ring1 => 1,
        Ring::Ring2 => 2,
        Ring::Ring3 => 3,
    }
}

/// A descriptor of a code or data segment that is present and has its limit in
/// pages: type, privilege level, and bit 21 (64-bit code) and 22 (32-bit code)
/// of the upper half.
pub open spec fn segment(
    base: u32,
    limit: u32,
    kind: int,
    dpl: Ring,
    long: int,
    big: int,
) -> int {
    let lower = limit as int % 0x1_0000 + (base as int % 0x1_0000) * 0x1_0000;
    let upper = (base as int / 0x1_0000) % 0x100 + kind * 0x100 + 0x1000 + ring_number(dpl) * 0x2000
        + 0x8000 + ((limit as int / 0x1_0000) % 0x10) * 0x1_0000 + long * 0x20_0000 + big
        * 0x40_0000 + 0x80_0000 + (base as int / 0x100_0000) * 0x100_0000;
    lower + upper * 0x1_0000_0000
}

/// `DescriptorBuilder::code_descriptor` for an execute-and-read segment, with
/// `present`, `dpl`, `l` and `limit_granularity_4kb`, then `finish` and
/// `Descriptor::as_u64`. The fields of the descriptor do not overlap, so it is
/// their sum.
#[verifier::external_body]
fn long_code_segment(base: u32, limit: u32, dpl: Ring) -> (descriptor: u64)
    ensures
        descriptor == segment(base, limit, 0b1010, dpl, 1, 0),
{
    let ring = match dpl {
        Ring::Ring0 => x86::Ring::Ring0,
        Ring::Ring1 => x86::Ring::Ring1,
        Ring::Ring2 => x86::Ring::Ring2,
        Ring::Ring3 => x86::Ring::Ring3,
    };
    let b = DescriptorBuilder::code_descriptor(base, limit, CodeSegmentType::ExecuteRead);
    let d: x86::segmentation::Descriptor = b.present().dpl(ring).l().limit_granularity_4kb().finish();
    d.as_u64()
}

/// `DescriptorBuilder::code_descriptor` for an execute-and-read segment, with
/// `present`, `dpl`, `db` and `limit_granularity_4kb`, then `finish` and
/// `Descriptor::as_u64`. The fields of the descriptor do not overlap, so it is
/// their sum.
#[verifier::external_body]
fn compat_code_segment(base: u32, limit: u32, dpl: Ring) -> (descriptor: u64)
    ensures
        descriptor == segment(base, limit, 0b1010, dpl, 0, 1),
{
    let ring = match dpl {
        Ring::Ring0 => x86::Ring::Ring0,
        Ring::Ring1 => x86::Ring::Ring1,
        Ring::Ring2 => x86::Ring::Ring2,
        Ring::Ring3 => x86::Ring::Ring3,
    };
    let b = DescriptorBuilder::code_descriptor(base, limit, CodeSegmentType::ExecuteRead);
    let d: x86::segmentation::Descriptor = b.present().dpl(ring).db().limit_granularity_4kb().finish();
    d.as_u64()
}

/// `DescriptorBuilder::data_descriptor` for a read-and-write segment, with
/// `present`, `dpl` and `limit_granularity_4kb`, then `finish` and
/// `Descriptor::as_u64`. The fields of the descriptor do not overlap, so it is
/// their sum.
#[verifier::external_body]
fn data_segment(base: u32, limit: u32, dpl: Ring) -> (descriptor: u64)
    ensures
        descriptor == segment(base, limit, 0b0010, dpl, 0, 0),
{
    let ring = match dpl {
        Ring::Ring0 => x86::Ring::Ring0,
        Ring::Ring1 => x86::Ring::Ring1,
        Ring::Ring2 => x86::Ring::Ring2,
        Ring::Ring3 => x86::Ring::Ring3,
    };
    let b = DescriptorBuilder::data_descriptor(base, limit, DataSegmentType::ReadWrite);
    let d: x86::segmentation::Descriptor = b.present().dpl(ring).limit_granularity_4kb().finish();
    d.as_u64()
}

/// `SegmentSelector::new` and `bits`: the index above the privilege level.
#[verifier::external_body]
fn selector(index: u16, rpl: Ring) -> (bits: u16)
    requires
        index < 8192,
    ensures
        bits == index * 8 + ring_number(rpl),
{
    let ring = match rpl {
        Ring::Ring0 => x86::Ring::Ring0,
        Ring::Ring1 => x86::Ring::Ring1,
        Ring::Ring2 => x86::Ring::Ring2,
        Ring::Ring3 => x86::Ring::Ring3,
    };
    SegmentSelector::new(index, ring).bits()
}

/// The descriptors in front of the one of the task state.
#[derive(Debug, Copy, Clone, PartialEq, Eq, Structural)]
pub struct SegmentDescriptors {
    /// The null descriptor.
    pub null: u64,
    /// Kernel code.
    pub kernel_code: u64,
    /// Kernel data.
    pub kernel_data: u64,
    /// User code in compatibility mode.
    pub user_code_32bit: u64,
    /// User data.
    pub user_data: u64,
    /// User code.
    pub user_code: u64,
}

/// Makes the descriptors. All segments span the whole address space.
pub fn segment_descriptors() -> (d: SegmentDescriptors)
    ensures
        d == (SegmentDescriptors {
            null: 0,
            kernel_code: 0x00AF_9A00_0000_FFFF,
            kernel_data: 0x008F_9200_0000_FFFF,
            user_code_32bit: 0x00CF_FA00_0000_FFFF,
            user_data: 0x008F_F200_0000_FFFF,
            user_code: 0x00AF_FA00_0000_FFFF,
        }),
{
    SegmentDescriptors {
        null: 0,
        kernel_code: long_code_segment(0, 0xFFFFF, Ring::Ring0),
        kernel_data: data_segment(0, 0xFFFFF, Ring::Ring0),
        user_code_32bit: compat_code_segment(0, 0xFFFFF, Ring::Ring3),
        user_data: data_segment(0, 0xFFFFF, Ring::Ring3),
        user_code: long_code_segment(0, 0xFFFFF, Ring::Ring3),
    }
}

/// Selectors that the segment registers are loaded with.
#[derive(Debug, Copy, Clone, PartialEq, Eq, Structural)]
pub struct Selectors {
    /// Code segment.
    pub code: u16,
    /// Stack segment.
    pub stack: u16,
    /// All other segments.
    pub data: u16,
    /// Task state.
    pub task: u16,
}

/// Selectors that the segment registers are loaded with: kernel code and data,
/// and the descriptor of the task state, which is the one after the segments.
pub fn selectors() -> (s: Selectors)
    ensures
        s == (Selectors { code: 0x08, stack: 0x10, data: 0, task: 0x30 }),
{
    Selectors {
        code: selector(1, Ring::Ring0),
        stack: selector(2, Ring::Ring0),
        data: 0,
        task: selector(6, Ring::Ring0),
    }
}

/// Top of the stack for double faults.
pub fn ist_stack_top(bottom: u64) -> (top: u64)
    requires
        bottom + IST_STACK_SIZE <= u64::MAX,
    ensures
        top == bottom + IST_STACK_SIZE,
        top == bottom + 16384,
{
    bottom + IST_STACK_SIZE
}

/// Bytes of the task state.
pub const TASK_STATE_SIZE: u64 = 104;

/// A 16-byte descriptor, for the task state and for interrupt gates.
#[verifier::external_type_specification]
#[verifier::external_body]
pub struct ExDescriptor64(x86::bits64::segmentation::Descriptor64);

/// The state of a task, of which the processor takes the stacks.
#[verifier::external_type_specification]
pub struct ExTaskStateSegment(x86::bits64::task::TaskStateSegment);

/// The task state has one stack of its own and the given offset of the map of
/// ports, and everything else in it is zero.
pub open spec fn task_state_with(
    tss: x86::bits64::task::TaskStateSegment,
    stack_top: u64,
    iomap_base: u16,
) -> bool {
    &&& tss.reserved == 0
    &&& tss.rsp@ == seq![0u64, 0, 0]
    &&& tss.reserved2 == 0
    &&& tss.ist@ == seq![stack_top, 0, 0, 0, 0, 0, 0]
    &&& tss.reserved3 == 0
    &&& tss.reserved4 == 0
    &&& tss.iomap_base == iomap_base
}

/// `TaskStateSegment::default` with `set_ist` for the first stack and the field
/// `iomap_base`: all other fields are zero.
#[verifier::external_body]
fn new_task_state(stack_top: u64, iomap_base: u16) -> (tss: x86::bits64::task::TaskStateSegment)
    ensures
        task_state_with(tss, stack_top, iomap_base),
{
    let mut tss = x86::bits64::task::TaskStateSegment::default();
    tss.set_ist(0, stack_top);
    tss.iomap_base = iomap_base;
    tss
}

/// The task state with the stack for double faults that starts at `bottom`, and
/// without a map of ports.
pub fn task_state_segment(bottom: u64) -> (tss: x86::bits64::task::TaskStateSegment)
    requires
        bottom + IST_STACK_SIZE <= u64::MAX,
    ensures
        task_state_with(tss, (bottom + IST_STACK_SIZE) as u64, 104),
        tss.ist@[0] == bottom + 16384,
        tss.iomap_base == 104,
{
    new_task_state(ist_stack_top(bottom), TASK_STATE_SIZE as u16)
}

/// The descriptor that `x86` makes of a task state that is available and
/// present.
pub uninterp spec fn task_state_descriptor(base: u64, limit: u64, dpl: int) -> x86::bits64::segmentation::Descriptor64;

/// `DescriptorBuilder::tss_descriptor` for an available task state, with
/// `present` and `dpl`, then `finish`. The result depends on the arguments
/// only; its bits cannot be read back.
#[verifier::external_body]
fn task_state(base: u64, limit: u64, dpl: Ring) -> (d: x86::bits64::segmentation::Descriptor64)
    ensures
        d == task_state_descriptor(base, limit, ring_number(dpl)),
{
    let ring = match dpl {
        Ring::Ring0 => x86::Ring::Ring0,
        Ring::Ring1 => x86::Ring::Ring1,
        Ring::Ring2 => x86::Ring::Ring2,
        Ring::Ring3 => x86::Ring::Ring3,
    };
    let b = <DescriptorBuilder as GateDescriptorBuilder<u64>>::tss_descriptor(base, limit, true);
    b.present().dpl(ring).finish()
}

/// The descriptor of the task state at an address.
pub fn task_descriptor(base: u64) -> (d: x86::bits64::segmentation::Descriptor64)
    ensures
        d == task_state_descriptor(base, 103, 0),
{
    task_state(base, TASK_STATE_SIZE - 1, Ring::Ring0)
}

} // verus!
