//! Symbolic links.

use vstd::prelude::*;

use crate::error::{Error, Result};
use crate::text;
use crate::volume::inode::{Inode, AREA_LEN};

verus! {

/// Where a symbolic link's target is kept.
#[derive(Debug)]
pub enum Target {
    /// In the inode itself, in the area that otherwise maps blocks.
    Inode(Vec<u8>),
    /// In a block.
    Block(Vec<u8>),
}

/// Bytes with zeroes behind them, up to a length.
pub open spec fn padded(s: Seq<u8>, len: nat) -> Seq<u8> {
    Seq::new(
        len,
        |i: int|
            if i < s.len() {
                s[i]
            } else {
                0
            },
    )
}

/// Bytes with zeroes behind them, up to a length.
fn pad(s: &[u8], len: usize) -> (out: Vec<u8>)
    ensures
        out@ == padded(s@, len as nat),
{
    let mut out: Vec<u8> = Vec::new();
    let mut i: usize = 0;
    while i < len
        invariant
            i <= len,
            out@.len() == i,
            forall|k: int| 0 <= k < i ==> #[trigger] out@[k] == padded(s@, len as nat)[k],
        decreases len - i,
    {
        if i < s.len() {
            out.push(s[i]);
        } else {
            out.push(0);
        }
        i += 1;
    }
    assert(out@ =~= padded(s@, len as nat));
    out
}

/// Lay out a target. One short enough lives inside the inode itself — a fast
/// symlink, costing no blocks at all. Longer targets take a block.
pub fn lay_target(target: &str, block_size: usize) -> (r: Target)
    requires
        text::utf8(target@).len() < AREA_LEN || text::utf8(target@).len() <= block_size,
    ensures
        ({
            let s = text::utf8(target@);
            match r {
                Target::Inode(area) => s.len() < AREA_LEN && area@ == padded(s, AREA_LEN as nat),
                Target::Block(buf) => s.len() >= AREA_LEN && buf@ == padded(
                    s,
                    block_size as nat,
                ),
            }
        }),
{
    let s: Vec<u8> = text::bytes_of(target);
    if s.len() < AREA_LEN {
        Target::Inode(pad(s.as_slice(), AREA_LEN))
    } else {
        Target::Block(pad(s.as_slice(), block_size))
    }
}

/// What is reported of a path that is no symlink.
pub open spec fn not_a_link(path: Seq<char>) -> Seq<char> {
    path + " is not a symlink"@
}

/// Whether a symbolic link's target is in its inode, rather than in a block.
pub fn read_link(path: &str, inode: &Inode) -> (r: Result<bool>)
    ensures
        match r {
            Ok(inline) => inode.link() && inline == (inode.size < AREA_LEN),
            Err(e) => !inode.link() && (e matches Error::InvalidPath(m) && m@ == not_a_link(
                path@,
            )),
        },
{
    if !inode.is_symlink() {
        let mut m: String = path.to_owned();
        m.append(" is not a symlink");
        return Err(Error::InvalidPath(m));
    }
    Ok(inode.size < AREA_LEN as u64)
}

/// As much of bytes as a size says, or all of them.
pub open spec fn cut(s: Seq<u8>, size: nat) -> Seq<u8> {
    if size < s.len() {
        s.take(size as int)
    } else {
        s
    }
}

/// A symbolic link's target, from the bytes that hold it.
pub fn target_text(stored: &[u8], size: u64) -> (target: String)
    ensures
        target@ == text::lossy_text(cut(stored@, size as nat)),
{
    if size < stored.len() as u64 {
        let part: &[u8] = vstd::slice::slice_subrange(stored, 0, size as usize);
        assert(part@ =~= stored@.take(size as int));
        text::lossy(part)
    } else {
        text::lossy(stored)
    }
}

/// A symbolic link reads as what it was made with, wherever that is kept.
pub proof fn law_read_link_gives_back_the_target(target: Seq<char>, len: nat)
    requires
        text::utf8(target).len() <= len,
    ensures
        text::lossy_text(cut(padded(text::utf8(target), len), text::utf8(target).len()))
            == target,
{
    let s = text::utf8(target);
    assert(cut(padded(s, len), s.len()) =~= s);
    vstd::utf8::encode_utf8_decode_utf8(target);
    vstd::utf8::encode_utf8_valid_utf8(target);
}

} // verus!
