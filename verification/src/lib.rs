//! Granite's loader primitives: bounded ELF64 admission, SHA-256 measured
//! admission of boot artifacts, construction of the Multiboot2-shaped handoff
//! record, and the placement decisions the UEFI entry point takes.

pub mod bytes;
pub mod elf;
pub mod handoff;
pub mod measurement;
pub mod admission;
pub mod placement;
