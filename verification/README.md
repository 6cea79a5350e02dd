# kernel

A small x86-64 kernel whose decisions are proved. `src/` is a library of
verified Rust: every function states in its contract what it returns and
changes, and [Verus](https://github.com/verus-lang/verus) proves it.

- `mm` manages memory: a buddy allocator for frames (`pmm`), four-level page
  tables (`vmm`), copies of page tables (`clone`) and the heap (`heap`). Physical
  memory is a slice of words, 512 for each frame. `free_lists`, `space`, `tree`
  and the views of the heap are what the contracts speak of.
- `pci` enumerates devices: it says which register it needs, and goes on with the
  value of it.
- `acpi` decides what to answer to uACPI; `apic`, `idt`, `gdt`, `tsc`, `serial`
  and `framebuffer` hold the decisions of the drivers; `utils` has the lock that
  keeps interrupts out.

The files whose names end in `_laws` state what holds across functions.

`app/` is the kernel around the library: it executes instructions, accesses
ports and registers, and holds the global state. `tests/` runs the library on a
memory of its own.
