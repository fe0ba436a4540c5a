pub mod addr;
pub mod bitmap;
pub mod kmem;
pub mod mmap;
pub mod paging;
