//! Dynamic-memory subsystem of a minimal bare-metal runtime: a first-fit
//! free-list allocator fed by a firmware memory map, together with the small
//! firmware-facing data models it consumes (UEFI memory descriptors, ACPI
//! table headers, QEMU exit codes).

pub mod acpi;
pub mod allocator;
pub mod qemu;
pub mod uefi;
