//! Whole archives: how one is compressed, and where it comes from or goes to.
//!
//! A path of `-`, or none, means standard input or standard output — so the
//! same options cover a file, a pipe, and an archive arriving from or going to
//! a container registry.

use vstd::prelude::*;

use crate::text;

verus! {

/// How an archive stream is compressed.
#[derive(Debug, Clone, Copy, PartialEq, Eq, Structural)]
pub enum Compression {
    /// Decide by looking at the first bytes of the stream. Writing treats this
    /// as [`Compression::Plain`], since there is nothing to look at.
    Auto,
    /// A plain tar archive.
    Plain,
    /// gzip, which is how nearly every container layer is shipped.
    Gzip,
}

impl Default for Compression {
    fn default() -> (r: Self)
        ensures
            r == Compression::Auto,
    {
        Compression::Auto
    }
}

/// How to unpack.
#[derive(Debug)]
pub struct UnpackOptions {
    /// Where in the filesystem the archive's root lands. Created if missing.
    pub into: String,
    /// How the archive is compressed.
    pub compression: Compression,
    /// Treat the archive as a container layer: obey `.wh.` whiteout markers,
    /// which delete rather than add. Off by default, because in an ordinary
    /// tarball a name beginning `.wh.` is just a name.
    pub whiteouts: bool,
}

impl Default for UnpackOptions {
    fn default() -> (r: Self)
        ensures
            r.into@ == "/"@,
            r.compression == Compression::Auto,
            !r.whiteouts,
    {
        UnpackOptions { into: "/".to_owned(), compression: Compression::Auto, whiteouts: false }
    }
}

impl Clone for UnpackOptions {
    fn clone(&self) -> (r: Self)
        ensures
            r.into@ == self.into@,
            r.compression == self.compression,
            r.whiteouts == self.whiteouts,
    {
        UnpackOptions {
            into: self.into.clone(),
            compression: self.compression,
            whiteouts: self.whiteouts,
        }
    }
}

/// How to pack.
#[derive(Debug)]
pub struct PackOptions {
    /// Which subtree of the filesystem to archive.
    pub from: String,
    /// How to compress what is written.
    pub compression: Compression,
}

impl Default for PackOptions {
    fn default() -> (r: Self)
        ensures
            r.from@ == "/"@,
            r.compression == Compression::Plain,
    {
        PackOptions { from: "/".to_owned(), compression: Compression::Plain }
    }
}

impl Clone for PackOptions {
    fn clone(&self) -> (r: Self)
        ensures
            r.from@ == self.from@,
            r.compression == self.compression,
    {
        PackOptions { from: self.from.clone(), compression: self.compression }
    }
}

/// Bytes that tell how a stream is compressed.
pub const MAGIC_LEN: usize = 2;

/// Whether a stream that opens with these bytes is gzipped.
pub open spec fn opens_gzip(first: Seq<u8>) -> bool {
    first.len() >= 2 && first[0] == 0x1f && first[1] == 0x8b
}

/// Whether a decompressor goes in front of a stream that opens with these
/// bytes.
///
/// As many bytes are looked at as there are, up to two, and they are put back
/// rather than seeked over — a pipe cannot seek.
pub fn decompress(compression: Compression, first: &[u8]) -> (gzip: bool)
    ensures
        gzip == match compression {
            Compression::Auto => opens_gzip(first@),
            Compression::Plain => false,
            Compression::Gzip => true,
        },
{
    match compression {
        Compression::Auto => first.len() >= MAGIC_LEN && first[0] == 0x1f && first[1] == 0x8b,
        Compression::Plain => false,
        Compression::Gzip => true,
    }
}

/// Whether a compressor goes behind what is written.
pub fn compress(compression: Compression) -> (gzip: bool)
    ensures
        gzip == (compression == Compression::Gzip),
{
    match compression {
        Compression::Gzip => true,
        _ => false,
    }
}

/// Whether an archive is on standard input or output, rather than in a file.
pub fn is_standard(path: Option<&str>) -> (r: bool)
    ensures
        r == (path matches Some(p) ==> p@ == "-"@),
{
    match path {
        Some(p) => text::same_text(p, "-"),
        None => true,
    }
}

/// A stream is taken for a gzipped one by its first two bytes, and by no less.
pub proof fn law_two_bytes_tell_gzip(first: Seq<u8>, rest: Seq<u8>)
    ensures
        opens_gzip(seq![31u8, 139] + rest),
        first.len() < 2 ==> !opens_gzip(first),
        first.len() >= 2 && (first[0] != 31 || first[1] != 139) ==> !opens_gzip(first),
{
}

} // verus!
