//! High-level-emulation core: a bounds-checked 32-bit guest address space
//! with a chunk allocator, and a dynamic linker that redirects a guest
//! binary's external references to host implementations.

pub mod abi;
pub mod cpu;
pub mod dyld;
pub mod mach_o;
pub mod mem;
pub mod objc;
pub mod tables;
pub mod text;
