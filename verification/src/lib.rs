//! Userspace file I/O for ext2, ext3 and ext4: the decisions, layouts and
//! bookkeeping, each proved against its contract.

pub mod allocator;
pub mod allocator_laws;
pub mod archive;
pub mod bitmap;
pub mod blockmap;
pub mod blockmap_laws;
pub mod bytes;
pub mod decimal;
pub mod dir;
pub mod dir_laws;
pub mod error;
pub mod index;
pub mod index_laws;
pub mod sort;
pub mod tar;
pub mod text;
pub mod volume;

pub use error::{Error, Result};
