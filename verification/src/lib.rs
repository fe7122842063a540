//! Heap management for a bare-metal kernel: a bump allocator, a first-fit
//! free-list allocator and a size-classed allocator, all working on plain
//! addresses.

pub mod allocator;
pub mod exit;
pub mod memory;
pub mod vga;
