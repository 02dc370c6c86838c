//! The filesystem, open for business.
//!
//! Everything here works on plain values: what was read from the device comes
//! in, and what is to be written goes out. Which block or inode to read next,
//! what an operation refuses, what it changes and in which order, is decided
//! here.

pub mod contents;
pub mod contents_laws;
pub mod copy_laws;
pub mod disk;
pub mod inode;
pub mod laid;
pub mod layer_laws;
pub mod links;
pub mod naming;
pub mod naming_laws;
pub mod ops;
pub mod pack;
pub mod pack_laws;
pub mod paths;
pub mod paths_laws;
pub mod removal;
pub mod tree;
pub mod types;
pub mod unpack;
pub mod unpack_laws;
pub mod xattrs;

pub use inode::{Edit, Inode};
pub use ops::{Change, Features, Volume};
pub use types::{Attrs, Entry, PackReport, Special, Stat, UnpackReport};
pub use xattrs::Xattr;
