//! The verified core of the Vanta operating system: binary formats, protocol
//! state machines, allocators, file systems and the scheduler, each with its
//! behaviour stated as a contract and proved.

pub mod abi;
pub mod acpi;
pub mod af_unix;
pub mod apic;
pub mod bytes;
pub mod devfs;
pub mod dhcp;
pub mod dns;
pub mod elf;
pub mod framebuffer;
pub mod fs;
pub mod gdt;
pub mod gpt;
pub mod heap;
pub mod image;
pub mod input;
pub mod interrupts;
pub mod ioapic;
pub mod keyboard;
pub mod linux;
pub mod memory;
pub mod mouse;
pub mod namemap;
pub mod net;
pub mod network;
pub mod ordmap;
pub mod page_cache;
pub mod pagemap;
pub mod paging;
pub mod pci;
pub mod process;
pub mod procfs;
pub mod pty;
pub mod random;
pub mod scheduler;
pub mod serial;
pub mod shell;
pub mod smp;
pub mod socket;
pub mod storage;
pub mod store;
pub mod swap;
pub mod syscall;
pub mod sysfs;
pub mod text;
pub mod timer;
pub mod tmpfs;
pub mod vfs;
pub mod virtio_net;
