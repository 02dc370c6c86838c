//! An entry's metadata, and the 512-byte block it is laid out as.

use vstd::prelude::*;

use crate::bytes;
use crate::tar::field;
use crate::tar::pax;
use crate::text::{self, Text};

verus! {

/// What an entry is.
#[derive(Debug, Clone, Copy, PartialEq, Eq, Structural)]
pub enum EntryKind {
    /// A regular file.
    File,
    /// A hard link to an earlier entry.
    HardLink,
    /// A symbolic link.
    Symlink,
    /// A character device.
    CharDevice,
    /// A block device.
    BlockDevice,
    /// A directory.
    Directory,
    /// A named pipe.
    Fifo,
}

impl Default for EntryKind {
    fn default() -> (r: Self)
        ensures
            r == EntryKind::File,
    {
        EntryKind::File
    }
}

impl EntryKind {
    /// The tar type flag that denotes this kind: `'0'` to `'6'`.
    pub open spec fn flag(self) -> u8 {
        match self {
            EntryKind::File => 48,
            EntryKind::HardLink => 49,
            EntryKind::Symlink => 50,
            EntryKind::CharDevice => 51,
            EntryKind::BlockDevice => 52,
            EntryKind::Directory => 53,
            EntryKind::Fifo => 54,
        }
    }

    /// The tar type flag that denotes this kind.
    pub fn typeflag(self) -> (flag: u8)
        ensures
            flag == self.flag(),
    {
        match self {
            EntryKind::File => 48,
            EntryKind::HardLink => 49,
            EntryKind::Symlink => 50,
            EntryKind::CharDevice => 51,
            EntryKind::BlockDevice => 52,
            EntryKind::Directory => 53,
            EntryKind::Fifo => 54,
        }
    }
}

/// One entry's metadata — everything about it except its contents.
#[derive(Debug)]
pub struct Header {
    /// Path within the archive, with any leading `./` and `/` removed.
    pub path: String,
    /// What it is.
    pub kind: EntryKind,
    /// Permission bits.
    pub mode: u16,
    /// Owning user.
    pub uid: u32,
    /// Owning group.
    pub gid: u32,
    /// Modification time, seconds since the epoch.
    pub mtime: u32,
    /// Length of the entry's contents. Zero for anything but a regular file.
    pub size: u64,
    /// Target, for a symlink or hard link.
    pub link: String,
    /// Device major, for a device node.
    pub major: u32,
    /// Device minor, for a device node.
    pub minor: u32,
    /// Extended attributes, carried in `SCHILY.xattr.*` PAX records.
    pub xattrs: Vec<(String, Vec<u8>)>,
}

/// A header as the contracts speak of it.
#[verifier::ext_equal]
pub struct HeaderView {
    pub path: Seq<char>,
    pub kind: EntryKind,
    pub mode: u16,
    pub uid: u32,
    pub gid: u32,
    pub mtime: u32,
    pub size: u64,
    pub link: Seq<char>,
    pub major: u32,
    pub minor: u32,
    pub xattrs: Seq<(Seq<char>, Seq<u8>)>,
}

impl View for Header {
    type V = HeaderView;

    open spec fn view(&self) -> HeaderView {
        HeaderView {
            path: self.path@,
            kind: self.kind,
            mode: self.mode,
            uid: self.uid,
            gid: self.gid,
            mtime: self.mtime,
            size: self.size,
            link: self.link@,
            major: self.major,
            minor: self.minor,
            xattrs: pax::records_view(self.xattrs@),
        }
    }
}

impl HeaderView {
    /// Nothing but a path, a kind and permission bits.
    pub open spec fn plain(path: Seq<char>, kind: EntryKind, mode: u16) -> HeaderView {
        HeaderView {
            path,
            kind,
            mode,
            uid: 0,
            gid: 0,
            mtime: 0,
            size: 0,
            link: Seq::empty(),
            major: 0,
            minor: 0,
            xattrs: Seq::empty(),
        }
    }
}

/// A copy of a list of named values.
pub fn copy_records(records: &Vec<(String, Vec<u8>)>) -> (out: Vec<(String, Vec<u8>)>)
    ensures
        pax::records_view(out@) == pax::records_view(records@),
{
    let mut out: Vec<(String, Vec<u8>)> = Vec::new();
    let mut i: usize = 0;
    while i < records.len()
        invariant
            i <= records@.len(),
            out@.len() == i,
            forall|j: int|
                0 <= j < i ==> (#[trigger] out@[j]).0@ == records@[j].0@ && out@[j].1@
                    == records@[j].1@,
        decreases records.len() - i,
    {
        let value: Vec<u8> = bytes::copy(records[i].1.as_slice());
        out.push((records[i].0.clone(), value));
        i += 1;
    }
    assert(pax::records_view(out@) =~= pax::records_view(records@));
    out
}

impl Clone for Header {
    fn clone(&self) -> (r: Self)
        ensures
            r@ == self@,
    {
        Header {
            path: self.path.clone(),
            kind: self.kind,
            mode: self.mode,
            uid: self.uid,
            gid: self.gid,
            mtime: self.mtime,
            size: self.size,
            link: self.link.clone(),
            major: self.major,
            minor: self.minor,
            xattrs: copy_records(&self.xattrs),
        }
    }
}

impl Default for Header {
    fn default() -> (r: Self)
        ensures
            r@ == HeaderView::plain(Seq::empty(), EntryKind::File, 0),
    {
        let r = Header {
            path: String::new(),
            kind: EntryKind::File,
            mode: 0,
            uid: 0,
            gid: 0,
            mtime: 0,
            size: 0,
            link: String::new(),
            major: 0,
            minor: 0,
            xattrs: Vec::new(),
        };
        assert(r@.xattrs =~= Seq::empty());
        r
    }
}

impl Header {
    /// A header for a regular file.
    pub fn file(path: impl Text, size: u64) -> (r: Self)
        ensures
            r@ == (HeaderView { size, ..HeaderView::plain(path.chars(), EntryKind::File, 0o644) }),
    {
        let mut r: Header = Header::default();
        r.path = path.into_text();
        r.mode = 0o644;
        r.size = size;
        r
    }

    /// A header for a directory.
    pub fn directory(path: impl Text) -> (r: Self)
        ensures
            r@ == HeaderView::plain(path.chars(), EntryKind::Directory, 0o755),
    {
        let mut r: Header = Header::default();
        r.path = path.into_text();
        r.kind = EntryKind::Directory;
        r.mode = 0o755;
        r
    }
}

/// One entry read whole, for callers that would rather not stream.
#[derive(Debug)]
pub struct Entry {
    /// The entry's metadata.
    pub header: Header,
    /// The entry's contents.
    pub data: Vec<u8>,
}

impl Clone for Entry {
    fn clone(&self) -> (r: Self)
        ensures
            r.header@ == self.header@,
            r.data@ == self.data@,
    {
        Entry { header: self.header.clone(), data: bytes::copy(self.data.as_slice()) }
    }
}

/// `block` with `text` laid over it from byte `at`, as far as it reaches.
pub open spec fn laid(block: Seq<u8>, at: int, text: Seq<u8>) -> Seq<u8> {
    Seq::new(
        block.len(),
        |i: int|
            if at <= i < at + text.len() {
                text[i - at]
            } else {
                block[i]
            },
    )
}

/// The last `width` octal digits of `value`, zeros in front.
pub open spec fn octal_digits(value: nat, width: nat) -> Seq<u8>
    decreases width,
{
    if width == 0 {
        Seq::empty()
    } else {
        octal_digits(value / 8, (width - 1) as nat).push((48 + value % 8) as u8)
    }
}

/// All the bytes added up.
pub open spec fn byte_sum(s: Seq<u8>) -> nat
    decreases s.len(),
{
    if s.len() == 0 {
        0
    } else {
        byte_sum(s.drop_last()) + s.last() as nat
    }
}

/// `n` as an ownership field holds it: no more than seven octal digits.
pub open spec fn clamped(n: u32) -> nat {
    if n > 0o7777777 {
        0o7777777
    } else {
        n as nat
    }
}

/// A block of zeros.
pub open spec fn blank() -> Seq<u8> {
    Seq::new(512, |i: int| 0u8)
}

/// The fields in front of the link target.
pub open spec fn front_fields(h: HeaderView, flag: u8) -> Seq<u8> {
    let (name, _) = field::name_and_prefix(text::utf8(h.path));
    let b = laid(blank(), 0, name);
    let b = laid(b, 100, octal_digits(h.mode as nat, 7));
    let b = laid(b, 108, octal_digits(clamped(h.uid), 7));
    let b = laid(b, 116, octal_digits(clamped(h.gid), 7));
    let size = if flag == 48 || flag == 120 {
        h.size as nat
    } else {
        0
    };
    let b = laid(b, 124, octal_digits(size, 11));
    let b = laid(b, 136, octal_digits(h.mtime as nat, 11));
    b.update(156, flag)
}

/// As much of a text as a field of `n` bytes holds.
pub open spec fn cut(text: Seq<u8>, n: int) -> Seq<u8> {
    if text.len() <= n {
        text
    } else {
        text.take(n)
    }
}

/// Every field but the checksum, whose own field holds spaces.
pub open spec fn all_fields(h: HeaderView, flag: u8) -> Seq<u8> {
    let (_, prefix) = field::name_and_prefix(text::utf8(h.path));
    let b = laid(front_fields(h, flag), 157, cut(text::utf8(h.link), 100));
    let b = laid(b, 257, seq![117u8, 115, 116, 97, 114, 0]);
    let b = laid(b, 263, seq![48u8, 48]);
    let b = laid(b, 329, octal_digits(h.major as nat, 7));
    let b = laid(b, 337, octal_digits(h.minor as nat, 7));
    let b = laid(b, 345, prefix);
    laid(b, 148, Seq::new(8, |i: int| 32u8))
}

/// A header as its 512-byte block: the fields, then their sum as six octal
/// digits, a NUL and a space.
pub open spec fn encoded(h: HeaderView, flag: u8) -> Seq<u8> {
    let b = all_fields(h, flag);
    laid(b, 148, octal_digits(byte_sum(b), 6) + seq![0u8, 32])
}

/// Lay `text` over a block from byte `at`, as far as it reaches.
fn put(block: &mut Vec<u8>, at: usize, text: &[u8])
    requires
        old(block)@.len() == 512,
        at <= 512,
    ensures
        final(block)@ == laid(old(block)@, at as int, text@),
        final(block)@.len() == 512,
{
    let n: usize = if text.len() < 512 - at {
        text.len()
    } else {
        512 - at
    };
    let mut i: usize = 0;
    while i < n
        invariant
            i <= n,
            n <= text@.len(),
            at + n <= 512,
            block@.len() == 512,
            old(block)@.len() == 512,
            forall|j: int|
                0 <= j < 512 ==> #[trigger] block@[j] == (if at <= j < at + i {
                    text@[j - at]
                } else {
                    old(block)@[j]
                }),
        decreases n - i,
    {
        block.set(at + i, text[i]);
        i += 1;
    }
    assert(block@ =~= laid(old(block)@, at as int, text@));
}

/// The last `width` octal digits of `value`.
fn octal_of(value: u64, width: usize) -> (out: Vec<u8>)
    ensures
        out@ == octal_digits(value as nat, width as nat),
    decreases width,
{
    if width == 0 {
        let out: Vec<u8> = Vec::new();
        assert(out@ =~= Seq::empty());
        out
    } else {
        let mut out: Vec<u8> = octal_of(value / 8, width - 1);
        out.push(48 + (value % 8) as u8);
        out
    }
}

/// Lay a number's octal digits over a block.
fn put_octal(block: &mut Vec<u8>, at: usize, width: usize, value: u64)
    requires
        old(block)@.len() == 512,
        at <= 512,
    ensures
        final(block)@ == laid(old(block)@, at as int, octal_digits(value as nat, width as nat)),
        final(block)@.len() == 512,
{
    let digits: Vec<u8> = octal_of(value, width);
    put(block, at, digits.as_slice());
}

/// Add up a block's bytes.
fn sum_of(block: &Vec<u8>) -> (sum: u64)
    requires
        block@.len() == 512,
    ensures
        sum == byte_sum(block@),
        sum <= 512 * 255,
{
    let mut sum: u64 = 0;
    let mut i: usize = 0;
    while i < block.len()
        invariant
            i <= block@.len(),
            block@.len() == 512,
            sum == byte_sum(block@.take(i as int)),
            sum <= i * 255,
        decreases block.len() - i,
    {
        assert(block@.take(i + 1).drop_last() =~= block@.take(i as int));
        sum = sum + block[i] as u64;
        i += 1;
    }
    assert(block@.take(i as int) =~= block@);
    sum
}

/// `n`, or the most an ownership field holds.
fn clamp(n: u32) -> (r: u64)
    ensures
        r == clamped(n),
{
    if n > 0o7777777 {
        0o7777777
    } else {
        n as u64
    }
}

/// Lay a header out as its 512-byte block.
pub fn encode(header: &Header, typeflag: u8) -> (block: Vec<u8>)
    ensures
        block@ == encoded(header@, typeflag),
        block@.len() == 512,
{
    let mut block: Vec<u8> = vec![0u8; 512];
    assert(block@ =~= blank());
    // A path too long for the fixed fields is truncated here, having already
    // been written out in full as a PAX record.
    let (name, prefix) = field::split_name(header.path.as_str());
    put(&mut block, 0, name.as_bytes());
    put_octal(&mut block, 100, 7, header.mode as u64);
    put_octal(&mut block, 108, 7, clamp(header.uid));
    put_octal(&mut block, 116, 7, clamp(header.gid));
    let size: u64 = if typeflag == 48 || typeflag == 120 {
        header.size
    } else {
        0
    };
    put_octal(&mut block, 124, 11, size);
    put_octal(&mut block, 136, 11, header.mtime as u64);
    block.set(156, typeflag);
    assert(block@ == front_fields(header@, typeflag));
    // A link target is cut to its field likewise.
    let link: &[u8] = header.link.as_str().as_bytes();
    let held: usize = if link.len() <= 100 {
        link.len()
    } else {
        100
    };
    let link: &[u8] = vstd::slice::slice_subrange(link, 0, held);
    assert(link@ =~= cut(text::utf8(header@.link), 100));
    put(&mut block, 157, link);
    let magic: Vec<u8> = vec![117, 115, 116, 97, 114, 0];
    assert(magic@ =~= seq![117u8, 115, 116, 97, 114, 0]);
    put(&mut block, 257, magic.as_slice());
    let version: Vec<u8> = vec![48, 48];
    assert(version@ =~= seq![48u8, 48]);
    put(&mut block, 263, version.as_slice());
    put_octal(&mut block, 329, 7, header.major as u64);
    put_octal(&mut block, 337, 7, header.minor as u64);
    put(&mut block, 345, prefix.as_bytes());
    // The checksum is computed with its own field read as spaces, then written
    // back into it as six octal digits, a NUL and a space.
    let spaces: Vec<u8> = vec![32u8; 8];
    assert(spaces@ =~= Seq::new(8, |i: int| 32u8));
    put(&mut block, 148, spaces.as_slice());
    assert(block@ == all_fields(header@, typeflag));
    let mut sum: Vec<u8> = octal_of(sum_of(&block), 6);
    sum.push(0);
    sum.push(32);
    assert(sum@ =~= octal_digits(byte_sum(block@), 6) + seq![0u8, 32]);
    put(&mut block, 148, sum.as_slice());
    block
}

} // verus!
