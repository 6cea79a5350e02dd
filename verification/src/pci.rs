//! PCI configuration space: addresses, and the enumeration of functions.
use vstd::prelude::*;

use crate::mm::addr::{PAddr, VAddr};
use crate::mm::page_laws;
use crate::mm::pmm::Pmm;
use crate::mm::vmm;
use crate::mm::vmm::{MapError, PageSize, TlbFlush, Vmm};

verus! {

/// Address of a PCI function.
#[derive(Debug, Clone, Copy, PartialEq, Eq, Structural)]
pub struct PciAddress {
    /// Bus number.
    pub bus: u8,
    /// Device number on the bus.
    pub device: u8,
    /// Function number of the device.
    pub function: u8,
}

/// How a register of the configuration space is accessed.
#[derive(Debug, Clone, Copy, PartialEq, Eq, Structural)]
pub enum ConfigAccess {
    /// Through memory, at this address.
    Memory(u64),
    /// Through ports: the address is written to port 0xCF8, the data are at the
    /// data port.
    Ports {
        /// Value for the address port.
        address: u32,
        /// The data port.
        data_port: u16,
    },
}

impl PciAddress {
    /// Device and function numbers that exist.
    pub open spec fn valid(self) -> bool {
        self.device < 32 && self.function < 8
    }

    /// Value for the address port that selects a register.
    pub open spec fn spec_io_address(self, offset: usize) -> u32 {
        0x8000_0000u32 | ((self.bus as u32) << 16u32) | ((self.device as u32) << 11u32) | ((
        self.function as u32) << 8u32) | ((offset as u32) & 0xFCu32)
    }

    /// Value for the address port that selects a register.
    pub fn io_address(&self, offset: usize) -> (r: u32)
        ensures
            r == self.spec_io_address(offset),
            r == 0x8000_0000u32 | ((self.bus as u32) << 16u32) | ((self.device as u32) << 11u32) | ((
            self.function as u32) << 8u32) | ((offset as u32) & 0xFCu32),
    {
        let bus: u32 = self.bus as u32;
        let device: u32 = self.device as u32;
        let function: u32 = self.function as u32;
        let register: u32 = offset as u32 & 0xFC;
        0x8000_0000 | (bus << 16u32) | (device << 11u32) | (function << 8u32) | register
    }

    /// Address of a register, where the configuration space is mapped into
    /// memory.
    pub open spec fn spec_mmio_address(self, offset: int, mcfg: int) -> int {
        mcfg + self.bus * 0x10_0000 + self.device * 0x8000 + self.function * 0x1000 + offset
    }

    /// Address of a register, where the configuration space is mapped into
    /// memory at `mcfg`.
    pub fn mmio_address(&self, offset: usize, mcfg: u64) -> (r: u64)
        requires
            self.spec_mmio_address(offset as int, mcfg as int) <= u64::MAX,
        ensures
            r == self.spec_mmio_address(offset as int, mcfg as int),
            r == mcfg + self.bus * 0x10_0000 + self.device * 0x8000 + self.function * 0x1000 + offset,
    {
        let bus: u64 = self.bus as u64;
        let device: u64 = self.device as u64;
        let function: u64 = self.function as u64;
        proof {
            assert(bus << 20u64 == bus * 0x10_0000 && device << 15u64 == device * 0x8000
                && function << 12u64 == function * 0x1000) by (bit_vector)
                requires
                    bus < 256,
                    device < 256,
                    function < 256,
            ;
        }
        mcfg + (bus << 20u64) + (device << 15u64) + (function << 12u64) + offset as u64
    }
}

/// How to access a register: through memory where the configuration space is
/// mapped, through ports where it is not (`mcfg` is zero).
pub fn config_access(addr: PciAddress, offset: usize, mcfg: u64) -> (r: ConfigAccess)
    requires
        mcfg != 0 ==> addr.spec_mmio_address(offset as int, mcfg as int) <= u64::MAX,
    ensures
        r == if mcfg != 0 {
            ConfigAccess::Memory(addr.spec_mmio_address(offset as int, mcfg as int) as u64)
        } else {
            ConfigAccess::Ports {
                address: addr.spec_io_address(offset),
                data_port: (0xCFC + offset % 4) as u16,
            }
        },
{
    if mcfg != 0 {
        ConfigAccess::Memory(addr.mmio_address(offset, mcfg))
    } else {
        ConfigAccess::Ports {
            address: addr.io_address(offset),
            data_port: 0xCFC + (offset % 4) as u16,
        }
    }
}

/// Registers of different functions, and different registers of one, have
/// different addresses in memory.
pub proof fn law_mmio_addresses_distinct(
    a: PciAddress,
    offset_a: int,
    b: PciAddress,
    offset_b: int,
    mcfg: int,
)
    requires
        a.valid(),
        b.valid(),
        0 <= offset_a < 4096,
        0 <= offset_b < 4096,
        a.spec_mmio_address(offset_a, mcfg) == b.spec_mmio_address(offset_b, mcfg),
    ensures
        a == b,
        offset_a == offset_b,
{
}

/// The address port tells functions and registers apart.
pub proof fn law_io_addresses_distinct(
    a: PciAddress,
    offset_a: usize,
    b: PciAddress,
    offset_b: usize,
)
    requires
        a.valid(),
        b.valid(),
        offset_a < 256,
        offset_b < 256,
        offset_a % 4 == 0,
        offset_b % 4 == 0,
        a.spec_io_address(offset_a) == b.spec_io_address(offset_b),
    ensures
        a == b,
        offset_a == offset_b,
{
    let ab = a.bus as u32;
    let ad = a.device as u32;
    let af = a.function as u32;
    let ao = offset_a as u32;
    let bb = b.bus as u32;
    let bd = b.device as u32;
    let bf = b.function as u32;
    let bo = offset_b as u32;
    assert(ab == bb && ad == bd && af == bf && ao == bo) by (bit_vector)
        requires
            ab < 256,
            bb < 256,
            ad < 32,
            bd < 32,
            af < 8,
            bf < 8,
            ao < 256,
            bo < 256,
            ao % 4 == 0,
            bo % 4 == 0,
            0x8000_0000u32 | (ab << 16u32) | (ad << 11u32) | (af << 8u32) | (ao & 0xFCu32)
                == 0x8000_0000u32 | (bb << 16u32) | (bd << 11u32) | (bf << 8u32) | (bo & 0xFCu32),
    ;
}

/// What the configuration space says of a function.
#[derive(Debug, Clone, Copy, PartialEq, Eq, Structural)]
pub struct FunctionInfo {
    /// Address of the function.
    pub address: PciAddress,
    /// Vendor.
    pub vendor_id: u16,
    /// Device of the vendor.
    pub device_id: u16,
    /// Class.
    pub class_code: u8,
    /// Subclass.
    pub subclass: u8,
    /// Programming interface.
    pub prog_if: u8,
    /// Layout of the rest of the header.
    pub header_type: u8,
    /// Whether the device has more than one function.
    pub multifunction: bool,
}

/// Vendor, from the register at 0x00. All ones mean that there is no function.
pub open spec fn vendor_of(vendor_device: u32) -> u16 {
    (vendor_device % 0x1_0000) as u16
}

/// What the registers at 0x00, 0x08 and 0x0C say.
pub open spec fn info_of(
    address: PciAddress,
    vendor_device: u32,
    class_info: u32,
    header: u32,
) -> FunctionInfo {
    let header_byte = (header / 0x1_0000) % 0x100;
    FunctionInfo {
        address,
        vendor_id: vendor_of(vendor_device),
        device_id: (vendor_device / 0x1_0000) as u16,
        class_code: (class_info / 0x100_0000) as u8,
        subclass: ((class_info / 0x1_0000) % 0x100) as u8,
        prog_if: ((class_info / 0x100) % 0x100) as u8,
        header_type: (header_byte % 0x80) as u8,
        multifunction: header_byte >= 0x80,
    }
}

/// The function is a bridge to another bus.
pub open spec fn is_bridge(info: FunctionInfo) -> bool {
    info.class_code == 0x06 && (info.subclass == 0x04 || info.subclass == 0x09)
        && info.header_type == 1
}

/// The bus behind a bridge, from the register at 0x18.
pub open spec fn secondary_of(value: u32) -> u8 {
    ((value / 0x100) % 0x100) as u8
}

/// What the function is called in the log.
pub open spec fn name_of(class_code: u8, subclass: u8, prog_if: u8) -> Seq<char> {
    if class_code == 0x01 && subclass == 0x06 && prog_if == 0x01 {
        "AHCI storage controller"@
    } else if class_code == 0x01 && subclass == 0x08 && prog_if == 0x02 {
        "NVMe storage device"@
    } else if class_code == 0x01 && subclass == 0x01 {
        "IDE storage controller"@
    } else if class_code == 0x02 && subclass == 0x00 {
        "Ethernet controller"@
    } else if class_code == 0x03 && subclass == 0x00 {
        "VGA-compatible device"@
    } else if class_code == 0x03 && subclass == 0x80 {
        "Other display device"@
    } else if class_code == 0x04 && subclass == 0x03 {
        "Audio device"@
    } else if class_code == 0x06 {
        "Bridge device"@
    } else if class_code == 0x0C && subclass == 0x03 {
        "USB Controller"@
    } else {
        "PCI device"@
    }
}

/// What the function is called in the log.
pub fn function_name(class_code: u8, subclass: u8, prog_if: u8) -> (name: &'static str)
    ensures
        name@ == name_of(class_code, subclass, prog_if),
{
    match (class_code, subclass, prog_if) {
        (0x01, 0x06, 0x01) => "AHCI storage controller",
        (0x01, 0x08, 0x02) => "NVMe storage device",
        (0x01, 0x01, _) => "IDE storage controller",
        (0x02, 0x00, _) => "Ethernet controller",
        (0x03, 0x00, _) => "VGA-compatible device",
        (0x03, 0x80, _) => "Other display device",
        (0x04, 0x03, _) => "Audio device",
        (0x06, _, _) => "Bridge device",
        (0x0C, 0x03, _) => "USB Controller",
        _ => "PCI device",
    }
}

/// Which register of the current function comes next, with what is known so
/// far.
#[derive(Debug, Clone, Copy, PartialEq, Eq, Structural)]
pub enum Phase {
    /// Vendor and device.
    Vendor,
    /// Class.
    Class {
        /// Vendor and device.
        vendor_device: u32,
    },
    /// Header type.
    Header {
        /// Vendor and device.
        vendor_device: u32,
        /// Class.
        class_info: u32,
    },
    /// Bus behind a bridge.
    Secondary {
        /// Whether the device has more than one function.
        multifunction: bool,
    },
}

/// How far the enumeration of a bus has come.
#[derive(Debug, Clone, Copy, PartialEq, Eq, Structural)]
pub struct Level {
    /// The bus.
    pub bus: u8,
    /// Current device.
    pub device: u8,
    /// Current function.
    pub function: u8,
    /// Last device to look at.
    pub last: u8,
    /// What to read of the current function.
    pub phase: Phase,
}

impl Level {
    /// The current function.
    pub open spec fn address(self) -> PciAddress {
        PciAddress { bus: self.bus, device: self.device, function: self.function }
    }

    /// Offset of the register to read.
    pub open spec fn offset(self) -> usize {
        match self.phase {
            Phase::Vendor => 0x00,
            Phase::Class { .. } => 0x08,
            Phase::Header { .. } => 0x0C,
            Phase::Secondary { .. } => 0x18,
        }
    }

    /// The start of a device.
    pub open spec fn start(bus: u8, device: u8, last: u8) -> Level {
        Level { bus, device, function: 0, last, phase: Phase::Vendor }
    }

    /// The numbers exist.
    pub open spec fn wf(self) -> bool {
        self.device <= self.last < 32 && self.function < 8
    }
}

/// An enumeration in progress.
#[verifier::ext_equal]
pub struct Progress {
    /// The buses that are being enumerated, the innermost last.
    pub levels: Seq<Level>,
    /// The functions found so far.
    pub found: Seq<PciAddress>,
}

/// On to the next device, or back to the outer bus after the last one.
pub open spec fn next_device(levels: Seq<Level>) -> Seq<Level> {
    let top = levels.last();
    if top.device >= top.last {
        levels.drop_last()
    } else {
        levels.drop_last().push(Level::start(top.bus, (top.device + 1) as u8, top.last))
    }
}

/// On to the next function, or to the next device after the last one.
pub open spec fn next_function(levels: Seq<Level>) -> Seq<Level> {
    let top = levels.last();
    if top.function >= 7 {
        next_device(levels)
    } else {
        levels.drop_last().push(
            Level { function: (top.function + 1) as u8, phase: Phase::Vendor, ..top },
        )
    }
}

/// On after a function that is there: a device with one function only has no
/// others.
pub open spec fn after_function(levels: Seq<Level>, multifunction: bool) -> Seq<Level> {
    if levels.last().function == 0 && !multifunction {
        next_device(levels)
    } else {
        next_function(levels)
    }
}

impl Progress {
    /// All levels are well-formed.
    pub open spec fn wf(self) -> bool {
        forall|i: int| 0 <= i < self.levels.len() ==> (#[trigger] self.levels[i]).wf()
    }

    /// The register to read next.
    pub open spec fn next_read(self) -> (PciAddress, usize) {
        (self.levels.last().address(), self.levels.last().offset())
    }

    /// What follows when that register holds `value`.
    pub open spec fn step(self, value: u32) -> Progress {
        let top = self.levels.last();
        match top.phase {
            Phase::Vendor => Progress {
                levels: if vendor_of(value) == 0xFFFF {
                    if top.function == 0 {
                        next_device(self.levels)
                    } else {
                        next_function(self.levels)
                    }
                } else {
                    self.levels.drop_last().push(
                        Level { phase: Phase::Class { vendor_device: value }, ..top },
                    )
                },
                found: self.found,
            },
            Phase::Class { vendor_device } => Progress {
                levels: self.levels.drop_last().push(
                    Level { phase: Phase::Header { vendor_device, class_info: value }, ..top },
                ),
                found: self.found,
            },
            Phase::Header { vendor_device, class_info } => {
                let info = info_of(top.address(), vendor_device, class_info, value);
                Progress {
                    levels: if is_bridge(info) {
                        self.levels.drop_last().push(
                            Level {
                                phase: Phase::Secondary { multifunction: info.multifunction },
                                ..top
                            },
                        )
                    } else {
                        after_function(self.levels, info.multifunction)
                    },
                    found: self.found.push(top.address()),
                }
            },
            Phase::Secondary { multifunction } => Progress {
                levels: after_function(self.levels, multifunction).push(
                    Level::start(secondary_of(value), 0, 31),
                ),
                found: self.found,
            },
        }
    }

    /// The function that is reported when the register to read next holds
    /// `value`.
    pub open spec fn report(self, value: u32) -> Option<FunctionInfo> {
        match self.levels.last().phase {
            Phase::Header { vendor_device, class_info } => Some(
                info_of(self.levels.last().address(), vendor_device, class_info, value),
            ),
            _ => None,
        }
    }
}

/// Enumerates the functions of a bus, or of one device, and of the buses
/// behind bridges.
///
/// It says which register it needs, and goes on with the value of it.
#[derive(Debug)]
pub struct Enumerator {
    levels: Vec<Level>,
    found: Vec<PciAddress>,
}

/// Starts the enumeration of a bus.
pub fn enum_bus(bus: u8) -> (e: Enumerator)
    ensures
        e@ == (Progress { levels: seq![Level::start(bus, 0, 31)], found: Seq::empty() }),
        e@.wf(),
{
    let mut levels: Vec<Level> = Vec::new();
    levels.push(Level { bus, device: 0, function: 0, last: 31, phase: Phase::Vendor });
    let e = Enumerator { levels, found: Vec::new() };
    assert(e@.levels =~= seq![Level::start(bus, 0, 31)]);
    e
}

/// Starts the enumeration of a device.
pub fn enum_device(bus: u8, device: u8) -> (e: Enumerator)
    requires
        device < 32,
    ensures
        e@ == (Progress {
            levels: seq![Level::start(bus, device, device)],
            found: Seq::empty(),
        }),
        e@.wf(),
{
    let mut levels: Vec<Level> = Vec::new();
    levels.push(Level { bus, device, function: 0, last: device, phase: Phase::Vendor });
    let e = Enumerator { levels, found: Vec::new() };
    assert(e@.levels =~= seq![Level::start(bus, device, device)]);
    e
}

impl Enumerator {
    /// How far the enumeration has come.
    pub closed spec fn view(&self) -> Progress {
        Progress { levels: self.levels@, found: self.found@ }
    }

    /// The register to read next, or nothing when all is done.
    pub fn next_read(&self) -> (r: Option<(PciAddress, usize)>)
        ensures
            match r {
                Some(read) => self@.levels.len() > 0 && read == self@.next_read(),
                None => self@.levels.len() == 0,
            },
    {
        if self.levels.len() == 0 {
            return None;
        }
        let top: Level = self.levels[self.levels.len() - 1];
        let offset: usize = match top.phase {
            Phase::Vendor => 0x00,
            Phase::Class { .. } => 0x08,
            Phase::Header { .. } => 0x0C,
            Phase::Secondary { .. } => 0x18,
        };
        Some((PciAddress { bus: top.bus, device: top.device, function: top.function }, offset))
    }

    /// The functions found so far.
    pub fn found(&self) -> (r: Vec<PciAddress>)
        ensures
            r@ == self@.found,
    {
        let mut copy: Vec<PciAddress> = Vec::new();
        let mut i: usize = 0;
        while i < self.found.len()
            invariant
                i <= self.found@.len(),
                copy@ == self.found@.take(i as int),
            decreases self.found@.len() - i,
        {
            copy.push(self.found[i]);
            i = i + 1;
            assert(copy@ =~= self.found@.take(i as int));
        }
        assert(copy@ =~= self.found@);
        copy
    }

    fn set_top(&mut self, level: Level)
        requires
            old(self).levels@.len() > 0,
        ensures
            final(self).levels@ == old(self).levels@.drop_last().push(level),
            final(self).found == old(self).found,
    {
        self.levels.pop();
        self.levels.push(level);
    }

    fn to_next_device(&mut self)
        requires
            old(self).levels@.len() > 0,
        ensures
            final(self).levels@ == next_device(old(self).levels@),
            final(self).found == old(self).found,
    {
        let top: Level = self.levels[self.levels.len() - 1];
        if top.device >= top.last {
            self.levels.pop();
        } else {
            self.set_top(
                Level { device: top.device + 1, function: 0, phase: Phase::Vendor, ..top },
            );
        }
    }

    fn to_next_function(&mut self)
        requires
            old(self).levels@.len() > 0,
        ensures
            final(self).levels@ == next_function(old(self).levels@),
            final(self).found == old(self).found,
    {
        let top: Level = self.levels[self.levels.len() - 1];
        if top.function >= 7 {
            self.to_next_device();
        } else {
            self.set_top(Level { function: top.function + 1, phase: Phase::Vendor, ..top });
        }
    }

    fn leave_function(&mut self, multifunction: bool)
        requires
            old(self).levels@.len() > 0,
        ensures
            final(self).levels@ == after_function(old(self).levels@, multifunction),
            final(self).found == old(self).found,
    {
        let top: Level = self.levels[self.levels.len() - 1];
        if top.function == 0 && !multifunction {
            self.to_next_device();
        } else {
            self.to_next_function();
        }
    }

    /// Goes on with the value of the register that was to be read. Returns what
    /// is known of the current function, once it is known to be there.
    pub fn supply(&mut self, value: u32) -> (r: Option<FunctionInfo>)
        requires
            old(self)@.levels.len() > 0,
            old(self)@.wf(),
        ensures
            final(self)@ == old(self)@.step(value),
            r == old(self)@.report(value),
            final(self)@.wf(),
    {
        let ghost before = self@;
        let top: Level = self.levels[self.levels.len() - 1];
        proof {
            lemma_step_wf(before, value);
        }
        let address: PciAddress = PciAddress {
            bus: top.bus,
            device: top.device,
            function: top.function,
        };
        match top.phase {
            Phase::Vendor => {
                if (value % 0x1_0000) as u16 == 0xFFFF {
                    if top.function == 0 {
                        self.to_next_device();
                    } else {
                        self.to_next_function();
                    }
                } else {
                    self.set_top(Level { phase: Phase::Class { vendor_device: value }, ..top });
                }
                None
            },
            Phase::Class { vendor_device } => {
                self.set_top(
                    Level { phase: Phase::Header { vendor_device, class_info: value }, ..top },
                );
                None
            },
            Phase::Header { vendor_device, class_info } => {
                let info: FunctionInfo = function_info(address, vendor_device, class_info, value);
                self.found.push(address);
                if info.class_code == 0x06 && (info.subclass == 0x04 || info.subclass == 0x09)
                    && info.header_type == 1 {
                    self.set_top(
                        Level {
                            phase: Phase::Secondary { multifunction: info.multifunction },
                            ..top
                        },
                    );
                } else {
                    self.leave_function(info.multifunction);
                }
                Some(info)
            },
            Phase::Secondary { multifunction } => {
                self.leave_function(multifunction);
                let secondary: u8 = ((value / 0x100) % 0x100) as u8;
                self.levels.push(
                    Level {
                        bus: secondary,
                        device: 0,
                        function: 0,
                        last: 31,
                        phase: Phase::Vendor,
                    },
                );
                None
            },
        }
    }
}

/// Reads the registers at 0x00, 0x08 and 0x0C of a function.
pub fn function_info(
    address: PciAddress,
    vendor_device: u32,
    class_info: u32,
    header: u32,
) -> (info: FunctionInfo)
    ensures
        info == info_of(address, vendor_device, class_info, header),
{
    let header_byte: u32 = (header / 0x1_0000) % 0x100;
    FunctionInfo {
        address,
        vendor_id: (vendor_device % 0x1_0000) as u16,
        device_id: (vendor_device / 0x1_0000) as u16,
        class_code: (class_info / 0x100_0000) as u8,
        subclass: ((class_info / 0x1_0000) % 0x100) as u8,
        prog_if: ((class_info / 0x100) % 0x100) as u8,
        header_type: (header_byte % 0x80) as u8,
        multifunction: header_byte >= 0x80,
    }
}

proof fn lemma_step_wf(s: Progress, value: u32)
    requires
        s.wf(),
        s.levels.len() > 0,
    ensures
        s.step(value).wf(),
{
    let top = s.levels.last();
    assert(s.levels[s.levels.len() - 1].wf());
    let s2 = s.step(value);
    assert forall|i: int| 0 <= i < s2.levels.len() implies (#[trigger] s2.levels[i]).wf() by {
        if i < s.levels.len() {
            assert(s.levels[i].wf());
        }
    }
}

/// Contents of a configuration space.
pub type ConfigSpace = spec_fn(PciAddress, usize) -> u32;

/// The enumeration after `n` registers were read.
pub open spec fn run(config: ConfigSpace, s: Progress, n: nat) -> Progress
    decreases n,
{
    if n == 0 {
        s
    } else {
        run(config, s.step(config(s.next_read().0, s.next_read().1)), (n - 1) as nat)
    }
}

/// What the configuration space says of a function.
pub open spec fn info_at(config: ConfigSpace, a: PciAddress) -> FunctionInfo {
    info_of(a, config(a, 0x00), config(a, 0x08), config(a, 0x0C))
}

/// The functions from one on, in the order in which they are found: devices and
/// functions ascending, the functions behind a bridge right after the bridge.
/// Buses behind bridges are followed `depth` bridges deep.
pub open spec fn scan(
    config: ConfigSpace,
    bus: u8,
    device: u8,
    function: u8,
    last: u8,
    depth: nat,
) -> Seq<PciAddress>
    decreases depth, 32 - device, 8 - function,
{
    let a = PciAddress { bus, device, function };
    let info = info_at(config, a);
    let there = info.vendor_id != 0xFFFF;
    let other_devices = if device >= last || device >= 31 {
        Seq::empty()
    } else {
        scan(config, bus, (device + 1) as u8, 0, last, depth)
    };
    let rest = if function >= 7 || (function == 0 && !(there && info.multifunction)) {
        other_devices
    } else {
        scan(config, bus, device, (function + 1) as u8, last, depth)
    };
    let behind = if there && is_bridge(info) && depth > 0 {
        scan(config, secondary_of(config(a, 0x18)), 0, 0, 31, (depth - 1) as nat)
    } else {
        Seq::empty()
    };
    if there {
        seq![a] + behind + rest
    } else {
        rest
    }
}

/// Bridges are nested no more than `depth` deep, from a function on.
pub open spec fn nested(
    config: ConfigSpace,
    bus: u8,
    device: u8,
    function: u8,
    last: u8,
    depth: nat,
) -> bool
    decreases depth, 32 - device, 8 - function,
{
    let a = PciAddress { bus, device, function };
    let info = info_at(config, a);
    let there = info.vendor_id != 0xFFFF;
    let other_devices = device >= last || device >= 31 || nested(
        config,
        bus,
        (device + 1) as u8,
        0,
        last,
        depth,
    );
    let rest = if function >= 7 || (function == 0 && !(there && info.multifunction)) {
        other_devices
    } else {
        nested(config, bus, device, (function + 1) as u8, last, depth)
    };
    let behind = there && is_bridge(info) ==> depth > 0 && nested(
        config,
        secondary_of(config(a, 0x18)),
        0,
        0,
        31,
        (depth - 1) as nat,
    );
    rest && behind
}

proof fn lemma_run_add(config: ConfigSpace, s: Progress, n: nat, m: nat)
    ensures
        run(config, run(config, s, n), m) == run(config, s, n + m),
    decreases n,
{
    if n > 0 {
        let next = s.step(config(s.next_read().0, s.next_read().1));
        lemma_run_add(config, next, (n - 1) as nat, m);
        assert((n + m - 1) as nat == (n - 1) as nat + m);
    }
}

/// A level that is about to look at a function.
spec fn looking(bus: u8, device: u8, function: u8, last: u8) -> Level {
    Level { bus, device, function, last, phase: Phase::Vendor }
}

/// The innermost level finds what there is, and is then left.
#[verifier::rlimit(40)]
proof fn lemma_scan(
    config: ConfigSpace,
    outer: Seq<Level>,
    found: Seq<PciAddress>,
    bus: u8,
    device: u8,
    function: u8,
    last: u8,
    depth: nat,
) -> (n: nat)
    requires
        device <= last < 32,
        function < 8,
        nested(config, bus, device, function, last, depth),
    ensures
        run(
            config,
            Progress { levels: outer.push(looking(bus, device, function, last)), found },
            n,
        ) == (Progress {
            levels: outer,
            found: found + scan(config, bus, device, function, last, depth),
        }),
    decreases depth, 32 - device, 8 - function, 1int,
{
    let a = PciAddress { bus, device, function };
    let info = info_at(config, a);
    let there = info.vendor_id != 0xFFFF;
    let top = looking(bus, device, function, last);
    let s0 = Progress { levels: outer.push(top), found };
    assert(s0.levels.last() == top);
    assert(s0.levels.drop_last() =~= outer);
    let result = scan(config, bus, device, function, last, depth);
    if !there {
        let s1 = s0.step(config(a, 0x00));
        assert(s0.next_read() == (a, 0x00usize));
        assert(run(config, s0, 1) == s1) by {
            reveal_with_fuel(run, 2);
        }
        let m = lemma_scan_rest(config, outer, found, bus, device, function, last, depth, false);
        lemma_run_add(config, s0, 1, m);
        1 + m
    } else {
        let s1 = s0.step(config(a, 0x00));
        assert(s0.next_read() == (a, 0x00usize));
        let t1 = Level { phase: Phase::Class { vendor_device: config(a, 0x00) }, ..top };
        assert(s1 == (Progress { levels: outer.push(t1), found }));
        assert(s1.levels.last() == t1);
        assert(s1.levels.drop_last() =~= outer);
        assert(s1.next_read() == (a, 0x08usize));
        let s2 = s1.step(config(a, 0x08));
        let t2 = Level {
            phase: Phase::Header {
                vendor_device: config(a, 0x00),
                class_info: config(a, 0x08),
            },
            ..top
        };
        assert(s2 == (Progress { levels: outer.push(t2), found }));
        assert(s2.levels.last() == t2);
        assert(s2.levels.drop_last() =~= outer);
        assert(s2.next_read() == (a, 0x0Cusize));
        let s3 = s2.step(config(a, 0x0C));
        let found3 = found.push(a);
        assert(run(config, s0, 3) == s3) by {
            reveal_with_fuel(run, 4);
        }
        if is_bridge(info) {
            let t3 = Level {
                phase: Phase::Secondary { multifunction: info.multifunction },
                ..top
            };
            assert(s3 == (Progress { levels: outer.push(t3), found: found3 }));
            assert(s3.levels.last() == t3);
            assert(s3.levels.drop_last() =~= outer);
            assert(s3.next_read() == (a, 0x18usize));
            let sec = secondary_of(config(a, 0x18));
            let s4 = s3.step(config(a, 0x18));
            assert(run(config, s3, 1) == s4) by {
                reveal_with_fuel(run, 2);
            }
            let after = after_function(s3.levels, info.multifunction);
            assert(after == after_function(outer.push(top), info.multifunction)) by {
                assert(next_device(s3.levels) == next_device(outer.push(top)));
            }
            assert(s4 == (Progress { levels: after.push(looking(sec, 0, 0, 31)), found: found3 }));
            let behind = scan(config, sec, 0, 0, 31, (depth - 1) as nat);
            let m = lemma_scan(config, after, found3, sec, 0, 0, 31, (depth - 1) as nat);
            let found5 = found3 + behind;
            let k = lemma_scan_rest(
                config,
                outer,
                found5,
                bus,
                device,
                function,
                last,
                depth,
                info.multifunction,
            );
            lemma_run_add(config, s0, 3, 1);
            lemma_run_add(config, s0, 4, m);
            lemma_run_add(config, s0, 4 + m, k);
            assert(found5 + rest_of(
                config,
                bus,
                device,
                function,
                last,
                depth,
                info.multifunction,
            ) =~= found + result);
            4 + m + k
        } else {
            let k = lemma_scan_rest(
                config,
                outer,
                found3,
                bus,
                device,
                function,
                last,
                depth,
                info.multifunction,
            );
            assert(s3.levels == after_function(outer.push(top), info.multifunction)) by {
                assert(next_device(s2.levels) == next_device(outer.push(top)));
            }
            lemma_run_add(config, s0, 3, k);
            assert(found3 + rest_of(
                config,
                bus,
                device,
                function,
                last,
                depth,
                info.multifunction,
            ) =~= found + result);
            3 + k
        }
    }
}

/// What is found after a function.
spec fn rest_of(
    config: ConfigSpace,
    bus: u8,
    device: u8,
    function: u8,
    last: u8,
    depth: nat,
    multifunction: bool,
) -> Seq<PciAddress> {
    if function >= 7 || (function == 0 && !multifunction) {
        if device >= last || device >= 31 {
            Seq::empty()
        } else {
            scan(config, bus, (device + 1) as u8, 0, last, depth)
        }
    } else {
        scan(config, bus, device, (function + 1) as u8, last, depth)
    }
}

/// The rest after a function is found.
proof fn lemma_scan_rest(
    config: ConfigSpace,
    outer: Seq<Level>,
    found: Seq<PciAddress>,
    bus: u8,
    device: u8,
    function: u8,
    last: u8,
    depth: nat,
    multifunction: bool,
) -> (n: nat)
    requires
        device <= last < 32,
        function < 8,
        nested(config, bus, device, function, last, depth),
        ({
            let info = info_at(config, PciAddress { bus, device, function });
            multifunction == (info.vendor_id != 0xFFFF && info.multifunction)
        }),
    ensures
        run(
            config,
            Progress {
                levels: after_function(
                    outer.push(looking(bus, device, function, last)),
                    multifunction,
                ),
                found,
            },
            n,
        ) == (Progress {
            levels: outer,
            found: found + rest_of(
                config,
                bus,
                device,
                function,
                last,
                depth,
                multifunction,
            ),
        }),
    decreases depth, 32 - device, 8 - function, 0int,
{
    let levels = outer.push(looking(bus, device, function, last));
    assert(levels.last() == looking(bus, device, function, last));
    assert(levels.drop_last() =~= outer);
    if function >= 7 || (function == 0 && !multifunction) {
        if device >= last {
            assert(found + Seq::<PciAddress>::empty() =~= found);
            0
        } else {
            lemma_scan(config, outer, found, bus, (device + 1) as u8, 0, last, depth)
        }
    } else {
        lemma_scan(config, outer, found, bus, device, (function + 1) as u8, last, depth)
    }
}

/// Enumerating a bus comes to an end and finds exactly the functions that are
/// there, whatever the configuration space holds, if only the bridges in it do
/// not lead in a circle.
pub proof fn law_enum_bus_finds_all(config: ConfigSpace, bus: u8, depth: nat)
    requires
        nested(config, bus, 0, 0, 31, depth),
    ensures
        exists|n: nat| #[trigger]
            run(
                config,
                Progress { levels: seq![Level::start(bus, 0, 31)], found: Seq::empty() },
                n,
            ) == (Progress {
                levels: Seq::<Level>::empty(),
                found: scan(config, bus, 0, 0, 31, depth),
            }),
{
    let n = lemma_scan(config, Seq::empty(), Seq::empty(), bus, 0, 0, 31, depth);
    assert(Seq::<Level>::empty().push(looking(bus, 0, 0, 31)) =~= seq![
        Level::start(bus, 0, 31),
    ]);
    assert(Seq::<PciAddress>::empty() + scan(config, bus, 0, 0, 31, depth) =~= scan(
        config,
        bus,
        0,
        0,
        31,
        depth,
    ));
}

/// Enumerating a device comes to an end and finds exactly its functions and
/// those behind them, if the bridges do not lead in a circle.
pub proof fn law_enum_device_finds_all(config: ConfigSpace, bus: u8, device: u8, depth: nat)
    requires
        device < 32,
        nested(config, bus, device, 0, device, depth),
    ensures
        exists|n: nat| #[trigger]
            run(
                config,
                Progress {
                    levels: seq![Level::start(bus, device, device)],
                    found: Seq::empty(),
                },
                n,
            ) == (Progress {
                levels: Seq::<Level>::empty(),
                found: scan(config, bus, device, 0, device, depth),
            }),
{
    let n = lemma_scan(config, Seq::empty(), Seq::empty(), bus, device, 0, device, depth);
    assert(Seq::<Level>::empty().push(looking(bus, device, 0, device)) =~= seq![
        Level::start(bus, device, device),
    ]);
    assert(Seq::<PciAddress>::empty() + scan(config, bus, device, 0, device, depth) =~= scan(
        config,
        bus,
        device,
        0,
        device,
        depth,
    ));
}

/// Why the configuration space could not be set up.
#[derive(Debug)]
pub enum PciError {
    /// The table that tells where it is was not found.
    McfgNotFound(&'static str),
    /// It could not be mapped.
    CouldNotMap(MapError),
}

/// Number of large pages that hold the configuration space of a range of buses:
/// one megabyte for each bus.
pub fn mcfg_pages(start_bus: u8, end_bus: u8) -> (pages: u64)
    requires
        start_bus <= end_bus,
    ensures
        pages == (end_bus - start_bus + 1 + 1) / 2,
        (pages - 1) * 0x20_0000 < (end_bus - start_bus + 1) * 0x10_0000 <= pages * 0x20_0000,
{
    let bus_count: u64 = end_bus as u64 - start_bus as u64 + 1;
    let bytes: u64 = bus_count * 0x10_0000;
    let stride: u64 = PageSize::Large.bytes();
    if bytes % stride == 0 {
        bytes / stride
    } else {
        bytes / stride + 1
    }
}

/// Maps the configuration space of a range of buses at its place in the direct
/// map. Returns its address there.
pub fn map_mcfg(
    vmm: &mut Vmm,
    mem: &mut [u64],
    pmm: &mut Pmm,
    flushes: &mut Vec<TlbFlush>,
    hhdm_offset: u64,
    phys: u64,
    start_bus: u8,
    end_bus: u8,
) -> (r: Result<VAddr, PciError>)
    requires
        old(vmm).wf(old(mem)@, old(pmm)),
        start_bus <= end_bus,
        phys + hhdm_offset <= u64::MAX,
        old(vmm).space(old(mem)@, old(pmm).free_count()).range_fits(
            (phys + hhdm_offset) as u64,
            phys,
            (end_bus - start_bus + 2) / 2,
            vmm::device_flags(),
            PageSize::Large,
            0,
        ),
    ensures
        final(vmm).wf(final(mem)@, final(pmm)),
        final(vmm).root() == old(vmm).root(),
        final(pmm).total() == old(pmm).total(),
        final(pmm).hhdm() == old(pmm).hhdm(),
        vmm::confined(
            old(mem)@,
            old(pmm).lists(),
            final(mem)@,
            final(pmm).lists(),
            old(vmm).root(),
        ),
        ({
            let virt = (phys + hhdm_offset) as u64;
            let pages = (end_bus - start_bus + 2) / 2;
            let s = old(vmm).space(old(mem)@, old(pmm).free_count());
            let expected = s.map_range(virt, phys, pages, vmm::device_flags(), PageSize::Large, 0);
            &&& final(vmm).space(final(mem)@, final(pmm).free_count()) == expected.0
            &&& final(vmm).tree(final(mem)@, final(pmm)) == old(vmm).tree(
                old(mem)@,
                old(pmm),
            ).map_range(virt, phys, pages, vmm::device_flags(), PageSize::Large, 0).0
            &&& match expected.1 {
                Ok(_) => r matches Ok(v) && v.0 == virt,
                Err(e) => r matches Err(PciError::CouldNotMap(e2)) && e2 == e,
            }
            &&& final(flushes)@ == old(flushes)@ + vmm::map_range_flushes(
                s,
                virt,
                phys,
                pages,
                vmm::device_flags(),
                PageSize::Large,
                0,
            )
        }),
        r matches Ok(v) ==> v.0 == phys + hhdm_offset && forall|a: u64|
            v.0 <= a < v.0 + (end_bus - start_bus + 1) * 0x10_0000 ==> #[trigger] final(vmm).space(
                final(mem)@,
                0,
            ).translate(a) == Some((phys + (a - v.0), 0x8000_0000_0000_001Bu64)),
{
    let pages: u64 = mcfg_pages(start_bus, end_bus);
    let virt: VAddr = VAddr(phys + hhdm_offset);
    match vmm.map_range(
        mem,
        pmm,
        flushes,
        virt,
        PAddr(phys),
        pages,
        vmm::device_page_flags(),
        PageSize::Large,
    ) {
        Ok(()) => {
            proof {
                old(pmm).lemma_wf(old(mem)@);
                assert forall|a: u64|
                    virt.0 <= a < virt.0 + (end_bus - start_bus + 1)
                        * 0x10_0000 implies #[trigger] vmm.space(mem@, 0).translate(a) == Some(
                    (phys + (a - virt.0), 0x8000_0000_0000_001Bu64),
                ) by {
                    page_laws::lemma_device_range(
                        old(mem)@,
                        old(vmm).root(),
                        old(pmm).free_count(),
                        virt.0,
                        phys,
                        pages as int,
                        mem@,
                        pmm.free_count(),
                        a,
                    );
                }
            }
            Ok(virt)
        },
        Err(e) => Err(PciError::CouldNotMap(e)),
    }
}

} // verus!
