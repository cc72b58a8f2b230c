//! What the loader takes from the firmware as plain values: the display
//! modes, the memory map, and the root table of ACPI.
pub mod gop;
pub mod mem;
pub mod rsdp;
