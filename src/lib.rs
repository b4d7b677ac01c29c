//! A page-based kernel heap: fixed-size slots for small requests, a bump
//! cursor with a coalescing free list for larger ones, and a cache of
//! released blocks in front of both. Also the layout of the interrupt
//! descriptor tables, the keyboard echo cursor, and a physical frame
//! allocator over the boot memory map.
pub mod page;
pub mod combined_allocator;
pub mod interrupts;
pub mod memory;
