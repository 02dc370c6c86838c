//! Tar archives, streamed in and out.
//!
//! Everything is streamed: nothing here requires the archive to be in memory.
//! The interesting part of the format — GNU long names, PAX records,
//! `SCHILY.xattr.*` — is handled here along with the plain 512-byte headers.

pub mod field;
pub mod format_laws;
pub mod header;
pub mod laws;
pub mod pax;
pub mod reader;
pub mod stream;
pub mod writer;

pub use field::{basename, cstr, normalise, octal, pad_for, split_name, BLOCK};
pub use header::{encode, Entry, EntryKind, Header};
pub use pax::{build_pax, parse_pax, Records};
pub use reader::{read, Reader};
pub use stream::{ByteSeq, Bytes, Io, Sink, Source};
pub use writer::Writer;
