//! Boot-time memory management for an x86-64 system: the paging levels,
//! page-table entries and tables, a walker that resolves and creates
//! mappings, a bitmap allocator of physical frames, and the loader that
//! places an ELF image into a fresh address space.
pub mod bytes;
pub mod efi;
pub mod elf;
pub mod lock;
pub mod paging;
pub mod palloc;
