//! Verified building blocks of a small preemptive kernel: block-header
//! codec and raw buffer, a first-fit hole-list allocator, a two-level
//! segregated-fit allocator, an intrusive doubly-linked list and a buffered
//! serial core.

pub mod arch;
pub mod arena;
pub mod block;
pub mod buffer;
pub mod device;
pub mod entry;
pub mod heap;
pub mod hole;
pub mod ilist;
pub mod ilist_chain;
pub mod layout;
pub mod ringbuffer;
pub mod serial;
pub mod support;
pub mod tlsf;
pub mod tlsf_chain;
pub mod tlsf_lists;
pub mod tlsf_map;
