//! Ownership of the physical pages of a RISC-V machine under a hypervisor:
//! which principal owns each frame, how frames pass from the hypervisor to
//! the host, from a machine to its guests and back, and how they enter the
//! second-stage page table and the measurement of a machine.
//!
//! `page` holds addresses and the handles of frames, `sequential_pages`
//! ranges of consecutive frames, `page_vec` a vector that lives in pages,
//! `hyp_alloc` the allocator of boot memory, `page_tracking` the directory
//! of the owners of all frames, `page_table` what a platform's page table
//! does, `sv48x4` a table with the geometry of Sv48x4, `measure` the
//! measurement of an image, `vm_pages` the pages of the machines, and
//! `host_builder` and `guest_builder` the builders that set machines up.

pub mod guest_builder;
pub mod host_builder;
pub mod hyp_alloc;
pub mod measure;
pub mod page;
pub mod page_table;
pub mod page_tracking;
pub mod page_vec;
pub mod sequential_pages;
pub mod sv48x4;
mod vec_util;
pub mod vm_pages;
