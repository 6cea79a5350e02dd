//! A small x86-64 kernel: memory management, device enumeration and the
//! decisions of its drivers, with contracts that are proved.
pub mod acpi;
pub mod apic;
pub mod framebuffer;
pub mod gdt;
pub mod idt;
pub mod mm;
pub mod pci;
pub mod pci_laws;
pub mod serial;
pub mod tsc;
pub mod utils;
