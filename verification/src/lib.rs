pub mod acpi;
pub mod ahci;
pub mod apic;
pub mod ata;
pub mod boot;
pub mod bytes;
pub mod commands;
pub mod cpu;
pub mod crc;
pub mod disk;
pub mod elf;
pub mod ext4;
pub mod fat;
pub mod framebuffer;
pub mod fs;
pub mod gdt;
pub mod heap;
pub mod input;
pub mod interrupts;
pub mod keyboard;
pub mod mem;
pub mod path;
pub mod pci;
pub mod ps2;
pub mod ring;
pub mod sched;
pub mod settings;
pub mod syscall;
pub mod terminal;
pub mod text;
pub mod tty;
pub mod users;
