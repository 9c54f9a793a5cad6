use vstd::prelude::*;

pub mod addr;
pub mod sv48;
pub mod paging;
pub mod addrsp;
pub mod walks;
pub mod region;
pub mod blob;
pub mod cpus;
pub mod devicetree;
pub mod dtnodes;
pub mod bump;
pub mod task;
pub mod trap;
pub mod irq;
pub mod plic;
pub mod page;
pub mod rel;
pub mod sv32;
pub mod cpu;
