//! Directory entries.
//!
//! A directory block is a singly-linked run of entries, each carrying the
//! distance to the next. Adding a name means finding an entry with slack in it
//! and splitting that slack off; removing one means giving its space back to
//! the entry before it. Nothing is ever moved, which is what keeps the block's
//! links intact.

use vstd::prelude::*;

use crate::bytes;
use crate::error::{Error, Result};
use crate::text;

verus! {

/// Bytes in front of an entry's name.
pub const ENTRY_HEADER_LEN: usize = 8;

/// Bytes at the end of a block that hold its checksum.
pub const TAIL_LEN: usize = 12;

/// The longest name.
pub const NAME_LEN_MAX: usize = 255;

/// The file type is not recorded.
pub const FT_UNKNOWN: u8 = 0;

/// A regular file.
pub const FT_REG_FILE: u8 = 1;

/// A directory.
pub const FT_DIR: u8 = 2;

/// A character device.
pub const FT_CHRDEV: u8 = 3;

/// A block device.
pub const FT_BLKDEV: u8 = 4;

/// A named pipe.
pub const FT_FIFO: u8 = 5;

/// A socket.
pub const FT_SOCK: u8 = 6;

/// A symbolic link.
pub const FT_SYMLINK: u8 = 7;

/// What marks the checksum at the end of a block as an entry of its own.
pub const FT_TAIL: u8 = 0xde;

/// The file-type bits of a mode.
pub const IFMT: u16 = 0o170000;

/// A socket.
pub const IFSOCK: u16 = 0o140000;

/// A symbolic link.
pub const IFLNK: u16 = 0o120000;

/// A regular file.
pub const IFREG: u16 = 0o100000;

/// A block device.
pub const IFBLK: u16 = 0o060000;

/// A directory.
pub const IFDIR: u16 = 0o040000;

/// A character device.
pub const IFCHR: u16 = 0o020000;

/// A named pipe.
pub const IFIFO: u16 = 0o010000;

/// The file type an entry records for a mode.
pub open spec fn type_of_mode(mode: u16) -> u8 {
    let kind = mode & IFMT;
    if kind == IFREG {
        FT_REG_FILE
    } else if kind == IFDIR {
        FT_DIR
    } else if kind == IFCHR {
        FT_CHRDEV
    } else if kind == IFBLK {
        FT_BLKDEV
    } else if kind == IFIFO {
        FT_FIFO
    } else if kind == IFSOCK {
        FT_SOCK
    } else if kind == IFLNK {
        FT_SYMLINK
    } else {
        FT_UNKNOWN
    }
}

/// The file type byte for a mode, or unknown when the filesystem does not
/// carry them.
pub fn file_type_of(filetype: bool, mode: u16) -> (t: u8)
    ensures
        t == (if filetype {
            type_of_mode(mode)
        } else {
            FT_UNKNOWN
        }),
{
    if !filetype {
        return FT_UNKNOWN;
    }
    let kind: u16 = mode & IFMT;
    if kind == IFREG {
        FT_REG_FILE
    } else if kind == IFDIR {
        FT_DIR
    } else if kind == IFCHR {
        FT_CHRDEV
    } else if kind == IFBLK {
        FT_BLKDEV
    } else if kind == IFIFO {
        FT_FIFO
    } else if kind == IFSOCK {
        FT_SOCK
    } else if kind == IFLNK {
        FT_SYMLINK
    } else {
        FT_UNKNOWN
    }
}

/// Bytes an entry with a name this long needs: its header and its name, up to
/// a multiple of four.
pub open spec fn span(name_len: nat) -> nat {
    ((8 + name_len + 3) / 4 * 4) as nat
}

/// Bytes an entry with a name this long needs.
pub fn rec_len(name_len: usize) -> (n: usize)
    requires
        name_len <= 255,
    ensures
        n == span(name_len as nat),
        8 + name_len <= n <= 8 + name_len + 3,
{
    (8 + name_len + 3) / 4 * 4
}

/// One entry of a directory block.
#[verifier::ext_equal]
pub struct Record {
    /// The inode it names; zero for a dead entry.
    pub inode: u32,
    /// Bytes from it to the next.
    pub rec_len: int,
    /// Its name.
    pub name: Seq<u8>,
    /// The file type.
    pub file_type: u8,
}

/// The entry at byte `at`.
pub open spec fn record_at(block: Seq<u8>, at: int) -> Record {
    Record {
        inode: bytes::get32(block, at),
        rec_len: bytes::get16(block, at + 4) as int,
        name: block.subrange(at + 8, at + 8 + block[at + 6] as int),
        file_type: block[at + 7],
    }
}

/// Whether the entry at byte `at` holds its name and stays below `limit`.
pub open spec fn sound(block: Seq<u8>, at: int, limit: int) -> bool {
    let n = bytes::get16(block, at + 4) as int;
    &&& 8 + block[at + 6] <= n
    &&& at + n <= limit
}

/// Bytes of a block in front of its checksum.
pub open spec fn limit_of(len: nat, with_tail: bool) -> int {
    if with_tail {
        len - 12
    } else {
        len as int
    }
}

/// What is reported of an entry that overruns.
pub open spec fn bad_entry() -> Seq<char> {
    "malformed directory entry"@
}

/// Where a new entry finds room.
pub enum Room {
    /// At an entry: where it stands, how much of it is in use, how much is
    /// not.
    At(int, int, int),
    /// Nowhere.
    Nowhere,
    /// An entry on the way is malformed.
    Malformed,
}

/// Bytes of an entry in use: none of a dead one.
pub open spec fn used(r: Record) -> int {
    if r.inode == 0 {
        0
    } else {
        span(r.name.len()) as int
    }
}

/// The first entry from `at` on with `need` bytes to spare.
pub open spec fn room_from(block: Seq<u8>, at: int, limit: int, need: int) -> Room
    decreases limit - at,
{
    if at + 8 > limit {
        Room::Nowhere
    } else {
        let n = bytes::get16(block, at + 4) as int;
        if n == 0 {
            Room::Nowhere
        } else if !sound(block, at, limit) {
            Room::Malformed
        } else {
            let u = used(record_at(block, at));
            if n - u >= need {
                Room::At(at, u, n - u)
            } else {
                room_from(block, at + n, limit, need)
            }
        }
    }
}

/// An entry laid out over `rec_len` bytes.
pub open spec fn entry_bytes(inode: u32, name: Seq<u8>, file_type: u8, rec_len: int) -> Seq<u8> {
    bytes::le32(inode) + bytes::le16(rec_len as u16) + seq![name.len() as u8, file_type] + name
        + Seq::new((rec_len - 8 - name.len()) as nat, |i: int| 0u8)
}

/// `block` with an entry put where there is room for it.
pub open spec fn with_entry(
    block: Seq<u8>,
    at: int,
    in_use: int,
    slack: int,
    inode: u32,
    name: Seq<u8>,
    file_type: u8,
) -> Seq<u8> {
    if in_use == 0 {
        bytes::overlay(block, at, entry_bytes(inode, name, file_type, slack))
    } else {
        bytes::overlay(
            bytes::overlay(block, at + 4, bytes::le16(in_use as u16)),
            at + in_use,
            entry_bytes(inode, name, file_type, slack),
        )
    }
}

/// Put one entry at byte `at`, spanning `rec_len` bytes.
fn write_entry(
    block: &mut Vec<u8>,
    at: usize,
    inum: u32,
    name: &[u8],
    file_type: u8,
    rec_len: u16,
)
    requires
        name@.len() <= 255,
        8 + name@.len() <= rec_len,
        at + rec_len <= old(block)@.len(),
    ensures
        final(block)@ == bytes::overlay(
            old(block)@,
            at as int,
            entry_bytes(inum, name@, file_type, rec_len as int),
        ),
        final(block)@.len() == old(block)@.len(),
{
    let ghost want = entry_bytes(inum, name@, file_type, rec_len as int);
    assert(block.len() == block@.len());
    assert(want.len() == rec_len);
    bytes::put32(block, at, inum);
    bytes::put16(block, at + 4, rec_len);
    block.set(at + 6, name.len() as u8);
    block.set(at + 7, file_type);
    let mut i: usize = 0;
    assert forall|j: int| 0 <= j < block@.len() implies #[trigger] block@[j] == (if at <= j < at
        + 8 {
        want[j - at]
    } else {
        old(block)@[j]
    }) by {}
    while i < name.len()
        invariant
            i <= name@.len(),
            block@.len() == old(block)@.len(),
            block.len() == block@.len(),
            name@.len() <= 255,
            8 + name@.len() <= rec_len,
            at + rec_len <= block@.len(),
            want == entry_bytes(inum, name@, file_type, rec_len as int),
            want.len() == rec_len,
            forall|j: int|
                0 <= j < block@.len() ==> #[trigger] block@[j] == (if at <= j < at + 8 + i {
                    want[j - at]
                } else {
                    old(block)@[j]
                }),
        decreases name.len() - i,
    {
        block.set(at + 8 + i, name[i]);
        assert(want[8 + i] == name@[i as int]);
        i += 1;
    }
    let mut k: usize = 8 + name.len();
    while k < rec_len as usize
        invariant
            8 + name@.len() <= k <= rec_len,
            block@.len() == old(block)@.len(),
            block.len() == block@.len(),
            at + rec_len <= block@.len(),
            want == entry_bytes(inum, name@, file_type, rec_len as int),
            want.len() == rec_len,
            forall|j: int|
                0 <= j < block@.len() ==> #[trigger] block@[j] == (if at <= j < at + k {
                    want[j - at]
                } else {
                    old(block)@[j]
                }),
        decreases rec_len - k,
    {
        block.set(at + k, 0);
        assert(want[k as int] == 0);
        k += 1;
    }
    assert(block@ =~= bytes::overlay(old(block)@, at as int, want));
}

/// The error for an entry that overruns.
fn malformed() -> (e: Error)
    ensures
        e matches Error::Fs(m) && m@ == bad_entry(),
{
    Error::Fs("malformed directory entry".to_owned())
}

/// Try to place a new entry in one directory block.
///
/// Returns true if it fitted. An entry fits where some existing entry has more
/// room than its own name needs — including a deleted entry, whose whole span
/// is free.
pub fn insert_into_block(
    block: &mut Vec<u8>,
    with_tail: bool,
    inum: u32,
    name: &[u8],
    file_type: u8,
) -> (r: Result<bool>)
    requires
        name@.len() <= 255,
        with_tail ==> old(block)@.len() >= 12,
    ensures
        final(block)@.len() == old(block)@.len(),
        ({
            let limit = limit_of(old(block)@.len(), with_tail);
            let room = room_from(old(block)@, 0, limit, span(name@.len()) as int);
            match r {
                Ok(true) => room matches Room::At(at, in_use, slack) && final(block)@ == with_entry(
                    old(block)@,
                    at,
                    in_use,
                    slack,
                    inum,
                    name@,
                    file_type,
                ),
                Ok(false) => room is Nowhere && final(block)@ == old(block)@,
                Err(e) => room is Malformed && final(block)@ == old(block)@ && (
                e matches Error::Fs(m) && m@ == bad_entry()),
            }
        }),
{
    assert(block.len() == block@.len());
    let limit: usize = if with_tail {
        block.len() - TAIL_LEN
    } else {
        block.len()
    };
    let need: usize = rec_len(name.len());
    let mut at: usize = 0;
    while at <= limit && limit - at >= ENTRY_HEADER_LEN
        invariant
            at <= limit,
            limit <= block@.len(),
            limit == limit_of(block@.len(), with_tail),
            block@ == old(block)@,
            block.len() == block@.len(),
            need == span(name@.len()),
            8 + name@.len() <= need,
            name@.len() <= 255,
            room_from(old(block)@, 0, limit as int, need as int) == room_from(
                old(block)@,
                at as int,
                limit as int,
                need as int,
            ),
        decreases limit - at,
    {
        let n: usize = bytes::read16(block.as_slice(), at + 4) as usize;
        if n == 0 {
            return Ok(false);
        }
        let len: usize = block[at + 6] as usize;
        if 8 + len > n || n > limit - at {
            return Err(malformed());
        }
        // Space actually used by this entry, versus what it is holding.
        let inode: u32 = bytes::read32(block.as_slice(), at);
        let in_use: usize = if inode == 0 {
            0
        } else {
            rec_len(len)
        };
        assert(record_at(block@, at as int).name.len() == len);
        assert(in_use == used(record_at(block@, at as int)));
        let slack: usize = if in_use <= n {
            n - in_use
        } else {
            0
        };
        if slack >= need {
            if in_use == 0 {
                // A dead entry: take the whole span.
                write_entry(block, at, inum, name, file_type, slack as u16);
            } else {
                // Shrink the existing entry to what it needs, and take the rest.
                bytes::put16(block, at + 4, in_use as u16);
                write_entry(block, at + in_use, inum, name, file_type, slack as u16);
            }
            return Ok(true);
        }
        at = at + n;
    }
    Ok(false)
}

/// Where a name is found.
pub enum Found {
    /// At an entry: where it stands, and the one before it.
    At(int, Option<int>),
    /// Nowhere.
    Nowhere,
    /// An entry on the way is malformed.
    Malformed,
}

/// The first live entry from `at` on with this name; `prev` is the entry
/// before.
pub open spec fn find_from(
    block: Seq<u8>,
    at: int,
    prev: Option<int>,
    limit: int,
    name: Seq<u8>,
) -> Found
    decreases limit - at,
{
    if at + 8 > limit {
        Found::Nowhere
    } else {
        let n = bytes::get16(block, at + 4) as int;
        if n == 0 {
            Found::Nowhere
        } else if !sound(block, at, limit) {
            Found::Malformed
        } else if record_at(block, at).inode != 0 && record_at(block, at).name == name {
            Found::At(at, prev)
        } else {
            find_from(block, at + n, Some(at), limit, name)
        }
    }
}

/// `block` without the entry at `at`: its span given to the one before, or
/// its inode zeroed when it is the first.
pub open spec fn without_entry(block: Seq<u8>, at: int, prev: Option<int>) -> Seq<u8> {
    match prev {
        Some(p) => bytes::overlay(
            block,
            p + 4,
            bytes::le16((bytes::get16(block, p + 4) + bytes::get16(block, at + 4)) as u16),
        ),
        None => bytes::overlay(block, at, bytes::le32(0)),
    }
}

/// Remove a name from one directory block.
///
/// The entry's span is folded into the one before it, so the block's chain
/// stays unbroken. When it is the first entry there is nothing before it, so
/// its inode is zeroed instead and the span is left for the next insert.
pub fn remove_from_block(block: &mut Vec<u8>, with_tail: bool, name: &[u8]) -> (r: Result<
    Option<u32>,
>)
    requires
        with_tail ==> old(block)@.len() >= 12,
        limit_of(old(block)@.len(), with_tail) <= u16::MAX,
    ensures
        final(block)@.len() == old(block)@.len(),
        ({
            let limit = limit_of(old(block)@.len(), with_tail);
            let found = find_from(old(block)@, 0, None, limit, name@);
            match r {
                Ok(Some(inode)) => found matches Found::At(at, prev) && inode == record_at(
                    old(block)@,
                    at,
                ).inode && final(block)@ == without_entry(old(block)@, at, prev),
                Ok(None) => found is Nowhere && final(block)@ == old(block)@,
                Err(e) => found is Malformed && final(block)@ == old(block)@ && (
                e matches Error::Fs(m) && m@ == bad_entry()),
            }
        }),
{
    assert(block.len() == block@.len());
    let limit: usize = if with_tail {
        block.len() - TAIL_LEN
    } else {
        block.len()
    };
    let mut at: usize = 0;
    let mut previous: Option<usize> = None;
    while at <= limit && limit - at >= ENTRY_HEADER_LEN
        invariant
            at <= limit,
            limit <= block@.len(),
            limit <= u16::MAX,
            limit == limit_of(block@.len(), with_tail),
            block@ == old(block)@,
            block.len() == block@.len(),
            previous matches Some(p) ==> p + bytes::get16(block@, p + 4) == at && p + 8 <= limit,
            find_from(old(block)@, 0, None, limit as int, name@) == find_from(
                old(block)@,
                at as int,
                match previous {
                    Some(p) => Some(p as int),
                    None => None,
                },
                limit as int,
                name@,
            ),
        decreases limit - at,
    {
        let n: u16 = bytes::read16(block.as_slice(), at + 4);
        if n == 0 {
            return Ok(None);
        }
        let len: usize = block[at + 6] as usize;
        if 8 + len > n as usize || n as usize > limit - at {
            return Err(malformed());
        }
        let inode: u32 = bytes::read32(block.as_slice(), at);
        let here: &[u8] = vstd::slice::slice_subrange(block.as_slice(), at + 8, at + 8 + len);
        assert(here@ == record_at(block@, at as int).name);
        if inode != 0 && bytes::same(here, name) {
            match previous {
                Some(p) => {
                    let before: u16 = bytes::read16(block.as_slice(), p + 4);
                    bytes::put16(block, p + 4, before + n);
                },
                None => {
                    bytes::put32(block, at, 0);
                },
            }
            return Ok(Some(inode));
        }
        previous = Some(at);
        at = at + n as usize;
    }
    Ok(None)
}

/// The checksum's place at the end of a block, as an entry of its own that
/// names nothing.
pub open spec fn tail_bytes() -> Seq<u8> {
    seq![0u8, 0, 0, 0, 12, 0, 0, 0xde, 0, 0, 0, 0]
}

/// A directory block with one dead entry spanning all of it.
pub open spec fn empty_bytes(block_size: nat, with_tail: bool) -> Seq<u8> {
    let limit = limit_of(block_size, with_tail);
    let zeros = Seq::new(block_size, |i: int| 0u8);
    let b = bytes::overlay(zeros, 4, bytes::le16(limit as u16));
    if with_tail {
        bytes::overlay(b, limit, tail_bytes())
    } else {
        b
    }
}

/// Build a fresh, empty directory block that one entry can be added to.
pub fn empty_block(block_size: usize, with_tail: bool) -> (buf: Vec<u8>)
    requires
        block_size >= 32,
        limit_of(block_size as nat, with_tail) <= u16::MAX,
    ensures
        buf@ == empty_bytes(block_size as nat, with_tail),
        buf@.len() == block_size,
{
    let mut buf: Vec<u8> = vec![0u8; block_size];
    let limit: usize = if with_tail {
        block_size - TAIL_LEN
    } else {
        block_size
    };
    assert(buf@ =~= Seq::new(block_size as nat, |i: int| 0u8));
    // One dead entry spanning the whole usable block.
    bytes::put16(&mut buf, 4, limit as u16);
    if with_tail {
        let ghost b = buf@;
        bytes::put16(&mut buf, limit + 4, 12);
        buf.set(limit + 7, FT_TAIL);
        assert(buf@ =~= bytes::overlay(b, limit as int, tail_bytes()));
    }
    buf
}

/// The first two entries every directory starts with.
pub open spec fn dots(
    block_size: nat,
    with_tail: bool,
    self_ino: u32,
    parent_ino: u32,
    filetype: bool,
) -> Seq<u8> {
    let limit = limit_of(block_size, with_tail);
    let t = if filetype {
        FT_DIR
    } else {
        FT_UNKNOWN
    };
    bytes::overlay(
        bytes::overlay(
            empty_bytes(block_size, with_tail),
            0,
            entry_bytes(self_ino, seq![46u8], t, 12),
        ),
        12,
        entry_bytes(parent_ino, seq![46u8, 46], t, limit - 12),
    )
}

/// The block a new directory starts with: `.` and `..`, the second one
/// reaching to the end.
pub fn dot_entries(
    block_size: usize,
    with_tail: bool,
    self_ino: u32,
    parent_ino: u32,
    filetype: bool,
) -> (buf: Vec<u8>)
    requires
        block_size >= 64,
        limit_of(block_size as nat, with_tail) <= u16::MAX,
    ensures
        buf@ == dots(block_size as nat, with_tail, self_ino, parent_ino, filetype),
        buf@.len() == block_size,
{
    let t: u8 = if filetype {
        FT_DIR
    } else {
        FT_UNKNOWN
    };
    let limit: usize = if with_tail {
        block_size - TAIL_LEN
    } else {
        block_size
    };
    let mut buf: Vec<u8> = empty_block(block_size, with_tail);
    let dot: Vec<u8> = vec![46u8];
    let dotdot: Vec<u8> = vec![46u8, 46];
    assert(dot@ =~= seq![46u8]);
    assert(dotdot@ =~= seq![46u8, 46]);
    write_entry(&mut buf, 0, self_ino, dot.as_slice(), t, 12);
    write_entry(&mut buf, 12, parent_ino, dotdot.as_slice(), t, (limit - 12) as u16);
    buf
}

/// A directory entry, decoded.
#[derive(Debug)]
pub struct DirEntry {
    /// The inode it names; zero for a dead entry.
    pub inode: u32,
    /// Its name.
    pub name: Vec<u8>,
    /// The file type.
    pub file_type: u8,
}

impl View for DirEntry {
    type V = (u32, Seq<u8>, u8);

    open spec fn view(&self) -> (u32, Seq<u8>, u8) {
        (self.inode, self.name@, self.file_type)
    }
}

impl Clone for DirEntry {
    fn clone(&self) -> (r: Self)
        ensures
            r@ == self@,
    {
        DirEntry {
            inode: self.inode,
            name: bytes::copy(self.name.as_slice()),
            file_type: self.file_type,
        }
    }
}

impl DirEntry {
    /// An entry for a name, which must not be empty or longer than 255 bytes.
    pub fn new(inode: u32, name: &[u8], file_type: u8) -> (r: Result<Self>)
        ensures
            match r {
                Ok(e) => 0 < name@.len() <= 255 && e@ == (inode, name@, file_type),
                Err(e) => (name@.len() == 0 || name@.len() > 255) && (e matches Error::InvalidName(
                    m,
                ) && m@ == text::lossy_text(name@)),
            },
    {
        if name.len() == 0 || name.len() > NAME_LEN_MAX {
            return Err(Error::InvalidName(text::lossy(name)));
        }
        Ok(DirEntry { inode, name: bytes::copy(name), file_type })
    }
}

/// Whether a name is `.` or `..`.
pub open spec fn is_dots(name: Seq<u8>) -> bool {
    name == seq![46u8] || name == seq![46u8, 46]
}

/// Whether a name is `.` or `..`.
pub fn is_dot_name(name: &[u8]) -> (r: bool)
    ensures
        r == is_dots(name@),
{
    if name.len() == 1 {
        assert(name@ =~= seq![name@[0]]);
        name[0] == 46
    } else if name.len() == 2 {
        assert(name@ =~= seq![name@[0], name@[1]]);
        name[0] == 46 && name[1] == 46
    } else {
        false
    }
}

/// Whether a directory holds anything beyond "." and "..".
pub fn is_empty(entries: &[DirEntry]) -> (r: bool)
    ensures
        r == forall|i: int|
            0 <= i < entries@.len() ==> is_dots((#[trigger] entries@[i]).name@)
                || entries@[i].inode == 0,
{
    let mut i: usize = 0;
    while i < entries.len()
        invariant
            i <= entries@.len(),
            forall|j: int|
                0 <= j < i ==> is_dots((#[trigger] entries@[j]).name@) || entries@[j].inode == 0,
        decreases entries.len() - i,
    {
        if !is_dot_name(entries[i].name.as_slice()) && entries[i].inode != 0 {
            assert(!is_dots(entries@[i as int].name@));
            return false;
        }
        i += 1;
    }
    true
}

/// Whether the entry at byte `at` is a `..` that runs to the very end of its
/// block, as that of the first block of a tree does: such a block has its
/// checksum elsewhere.
pub open spec fn ends_block(block: Seq<u8>, at: int) -> bool {
    &&& 8 + block[at + 6] <= bytes::get16(block, at + 4)
    &&& at + bytes::get16(block, at + 4) == block.len()
    &&& record_at(block, at).name == seq![46u8, 46]
}

/// The first entry from `at` on named `..`, dead or alive.
pub open spec fn dotdot_from(block: Seq<u8>, at: int, limit: int) -> Found
    decreases limit - at,
{
    if at + 8 > limit {
        Found::Nowhere
    } else {
        let n = bytes::get16(block, at + 4) as int;
        if n == 0 {
            Found::Nowhere
        } else if ends_block(block, at) {
            Found::At(at, None)
        } else if !sound(block, at, limit) {
            Found::Malformed
        } else if record_at(block, at).name == seq![46u8, 46] {
            Found::At(at, None)
        } else {
            dotdot_from(block, at + n, limit)
        }
    }
}

/// Point the `..` of a directory block, or of the first block of a tree, at a
/// new parent; `false` when the block has none.
pub fn repoint_dotdot(block: &mut Vec<u8>, with_tail: bool, new_parent: u32) -> (r: Result<bool>)
    requires
        with_tail ==> old(block)@.len() >= 12,
    ensures
        final(block)@.len() == old(block)@.len(),
        ({
            let limit = limit_of(old(block)@.len(), with_tail);
            let found = dotdot_from(old(block)@, 0, limit);
            match r {
                Ok(true) => found matches Found::At(at, _) && final(block)@ == bytes::overlay(
                    old(block)@,
                    at,
                    bytes::le32(new_parent),
                ),
                Ok(false) => found is Nowhere && final(block)@ == old(block)@,
                Err(e) => found is Malformed && final(block)@ == old(block)@ && (
                e matches Error::Fs(m) && m@ == bad_entry()),
            }
        }),
{
    assert(block.len() == block@.len());
    let limit: usize = if with_tail {
        block.len() - TAIL_LEN
    } else {
        block.len()
    };
    let dotdot: Vec<u8> = vec![46u8, 46];
    assert(dotdot@ =~= seq![46u8, 46]);
    let mut at: usize = 0;
    while at <= limit && limit - at >= ENTRY_HEADER_LEN
        invariant
            at <= limit,
            limit <= block@.len(),
            limit == limit_of(block@.len(), with_tail),
            block@ == old(block)@,
            block.len() == block@.len(),
            dotdot@ == seq![46u8, 46],
            dotdot_from(old(block)@, 0, limit as int) == dotdot_from(
                old(block)@,
                at as int,
                limit as int,
            ),
        decreases limit - at,
    {
        let n: u16 = bytes::read16(block.as_slice(), at + 4);
        if n == 0 {
            return Ok(false);
        }
        let len: usize = block[at + 6] as usize;
        if 8 + len > n as usize || n as usize > block.len() - at {
            return Err(malformed());
        }
        let here: &[u8] = vstd::slice::slice_subrange(block.as_slice(), at + 8, at + 8 + len);
        assert(here@ == record_at(block@, at as int).name);
        let is_dotdot: bool = bytes::same(here, dotdot.as_slice());
        if n as usize > limit - at && !(is_dotdot && n as usize == block.len() - at) {
            return Err(malformed());
        }
        if is_dotdot {
            bytes::put32(block, at, new_parent);
            return Ok(true);
        }
        at = at + n as usize;
    }
    Ok(false)
}

} // verus!
