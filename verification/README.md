# Vanta

The core of the Vanta operating system, verified with Verus, and the kernel
around it.

- `src/` is the library. Each module holds the model of its data as spec
  functions, the executable code with its contracts, and the laws that relate
  its functions as public proof functions named `law_*`.
  - Formats: `abi`, `gpt`, `image`, `elf`, `fs`, `net`, `dhcp`, `dns`, `acpi`,
    `pci`, `text`, `bytes`.
  - Memory: `memory`, `paging`, `heap`, `page_cache`, `swap`, `process`.
  - Files: `vfs`, `tmpfs`, `devfs`, `procfs`, `sysfs`, `storage`.
  - Tasks: `scheduler`, `syscall`, `linux`, `timer`, `smp`, `gdt`,
    `interrupts`, `apic`, `ioapic`.
  - Communication: `network`, `socket`, `af_unix`, `pty`, `virtio_net`.
  - People: `keyboard`, `mouse`, `input`, `framebuffer`, `shell`, `serial`,
    `random`.
  - Containers: `ordmap`, `pagemap`, `namemap`, `store`.
- `tests/` runs the library on concrete values.
- `app/` is the kernel itself: the boot protocol, the processor's tables and
  registers, interrupts and system call entries, and the loops that do what the
  library asks for and hand the answers back.

The library keeps no global state: what a kernel holds in statics is passed in,
and physical memory is the byte vector of `paging::Machine`. Where a decision
waits for hardware or storage, a function returns the step to take, and another
takes its outcome.

Nothing is proved of the outside crates. The functions that call them carry
`#[verifier::external_body]`, and their doc comments say what is claimed.
