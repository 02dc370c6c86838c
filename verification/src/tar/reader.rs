//! Reading an archive, one entry at a time.

use vstd::prelude::*;

use crate::bytes;
use crate::decimal;
use crate::error::{Error, Result};
use crate::tar::field::{self, cstr, normalise, octal, pad_for};
use crate::tar::header::{Entry, EntryKind, Header, HeaderView};
use crate::tar::pax::{self, parse_pax, Records};
use crate::tar::stream::{Bytes, Source};
use crate::text;

verus! {

/// What an archive can be wrong about.
pub enum Fault {
    /// It stops this many bytes too early.
    Truncated(nat),
    /// It stops this many bytes into a header.
    MidHeader(nat),
    /// A number field holds these bytes, which are no number.
    BadOctal(Seq<u8>),
    /// A PAX record's length is malformed.
    BadPax,
}

/// What is reported of a fault.
pub open spec fn fault_text(f: Fault) -> Seq<char> {
    match f {
        Fault::Truncated(n) => "archive is truncated: "@ + text::ascii(text::digits(n, 10))
            + " bytes short"@,
        Fault::MidHeader(n) => "archive ends mid-header, "@ + text::ascii(text::digits(n, 10))
            + " bytes into a 512-byte block"@,
        Fault::BadOctal(bytes) => field::bad_octal(bytes),
        Fault::BadPax => "malformed PAX record length"@,
    }
}

/// Whether an error reports this fault.
pub open spec fn reports(e: Error, f: Fault) -> bool {
    e matches Error::InvalidPath(m) && m@ == fault_text(f)
}

/// Where a reader stands.
#[verifier::ext_equal]
pub struct ReaderView {
    /// The bytes still to come.
    pub rest: Seq<u8>,
    /// Bytes of the current entry's contents not yet handed over.
    pub left: nat,
    /// Padding still to discard once those contents run out.
    pub pad: nat,
    /// Whether the end of the archive has been seen.
    pub done: bool,
    /// PAX records that apply to every entry from here on.
    pub global: Seq<(Seq<char>, Seq<u8>)>,
}

/// What advancing to the next entry comes to.
pub enum Step {
    /// The archive is over.
    End(ReaderView),
    /// The next entry.
    Entry(HeaderView, ReaderView),
    /// The archive is malformed, and the reader is left standing here.
    Fault(Fault, ReaderView),
}

/// What extension headers have said about the entry to come.
#[verifier::ext_equal]
pub struct Carry {
    /// A GNU long name.
    pub name: Option<Seq<char>>,
    /// A GNU long link target.
    pub link: Option<Seq<char>>,
    /// PAX records.
    pub pax: Seq<(Seq<char>, Seq<u8>)>,
}

impl Carry {
    /// Nothing said yet.
    pub open spec fn none() -> Carry {
        Carry { name: None, link: None, pax: Seq::empty() }
    }
}

/// The kind of entry a type flag denotes, among those that are entries.
pub open spec fn kind_of(flag: u8) -> Option<EntryKind> {
    if flag == 48 || flag == 0 || flag == 55 {
        Some(EntryKind::File)
    } else if flag == 49 {
        Some(EntryKind::HardLink)
    } else if flag == 50 {
        Some(EntryKind::Symlink)
    } else if flag == 51 {
        Some(EntryKind::CharDevice)
    } else if flag == 52 {
        Some(EntryKind::BlockDevice)
    } else if flag == 53 {
        Some(EntryKind::Directory)
    } else if flag == 54 {
        Some(EntryKind::Fifo)
    } else {
        None
    }
}

/// What the records say under `key`, the entry's own before the archive's.
pub open spec fn recorded(
    pax: Seq<(Seq<char>, Seq<u8>)>,
    global: Seq<(Seq<char>, Seq<u8>)>,
    key: Seq<char>,
) -> Option<Seq<u8>> {
    match pax::lookup(pax, key) {
        Some(v) => Some(v),
        None => pax::lookup(global, key),
    }
}

/// A number the records give, or else the one the header gives.
pub open spec fn recorded_number(
    pax: Seq<(Seq<char>, Seq<u8>)>,
    global: Seq<(Seq<char>, Seq<u8>)>,
    key: Seq<char>,
    fallback: u64,
) -> u64 {
    match recorded(pax, global, key) {
        Some(v) => match decimal::number(text::trim(text::lossy_text(v))) {
            Some(n) => n,
            None => fallback,
        },
        None => fallback,
    }
}

/// Whether `s` opens with `prefix`.
pub open spec fn opens_with(s: Seq<char>, prefix: Seq<char>) -> bool {
    s.len() >= prefix.len() && s.take(prefix.len() as int) == prefix
}

/// The extended attributes among records, in order.
pub open spec fn xattrs_in(records: Seq<(Seq<char>, Seq<u8>)>) -> Seq<(Seq<char>, Seq<u8>)>
    decreases records.len(),
{
    if records.len() == 0 {
        Seq::empty()
    } else {
        let before = xattrs_in(records.drop_last());
        let (key, value) = records.last();
        if opens_with(key, "SCHILY.xattr."@) {
            before.push((key.skip("SCHILY.xattr."@.len() as int), value))
        } else {
            before
        }
    }
}

/// The path the header's own fields give.
pub open spec fn header_path(block: Seq<u8>) -> Seq<char> {
    let name = field::field_text(block.subrange(0, 100));
    let prefix = field::field_text(block.subrange(345, 500));
    if prefix.len() == 0 {
        name
    } else {
        prefix + "/"@ + name
    }
}

/// An entry's path: PAX beats a GNU long name, which beats the header fields.
pub open spec fn entry_path(
    block: Seq<u8>,
    carry: Carry,
    global: Seq<(Seq<char>, Seq<u8>)>,
) -> Seq<char> {
    field::normal(
        match recorded(carry.pax, global, "path"@) {
            Some(v) => text::lossy_text(v),
            None => match carry.name {
                Some(name) => name,
                None => header_path(block),
            },
        },
    )
}

/// An entry's link target, found the same way.
pub open spec fn entry_link(
    block: Seq<u8>,
    carry: Carry,
    global: Seq<(Seq<char>, Seq<u8>)>,
) -> Seq<char> {
    match recorded(carry.pax, global, "linkpath"@) {
        Some(v) => text::lossy_text(v),
        None => match carry.link {
            Some(link) => link,
            None => field::field_text(block.subrange(157, 257)),
        },
    }
}

/// The number in a field, or zero for one that is malformed.
pub open spec fn octal_or_zero(field: Seq<u8>) -> u64 {
    match field::octal_value(field) {
        Some(n) => n,
        None => 0,
    }
}

/// The number of which only the last 32 bits count.
pub open spec fn low32(n: u64) -> u32 {
    (n % 0x1_0000_0000) as u32
}

/// The metadata in a header block of the given kind and size.
pub open spec fn entry_header(
    block: Seq<u8>,
    kind: EntryKind,
    size: u64,
    carry: Carry,
    global: Seq<(Seq<char>, Seq<u8>)>,
) -> HeaderView {
    let number = |key: Seq<char>, fallback: u64|
        recorded_number(carry.pax, global, key, fallback);
    HeaderView {
        path: entry_path(block, carry, global),
        kind,
        mode: (octal_or_zero(block.subrange(100, 108)) % 0o10000) as u16,
        uid: low32(number("uid"@, octal_or_zero(block.subrange(108, 116)))),
        gid: low32(number("gid"@, octal_or_zero(block.subrange(116, 124)))),
        mtime: low32(number("mtime"@, octal_or_zero(block.subrange(136, 148)))),
        size: if kind == EntryKind::File {
            number("size"@, size)
        } else {
            0
        },
        link: entry_link(block, carry, global),
        major: low32(octal_or_zero(block.subrange(329, 337))),
        minor: low32(octal_or_zero(block.subrange(337, 345))),
        xattrs: xattrs_in(carry.pax) + xattrs_in(global),
    }
}

/// The first field of a header, besides its size, that is no number and has
/// to be one.
pub open spec fn bad_field(block: Seq<u8>) -> Option<Seq<u8>> {
    if field::octal_value(block.subrange(100, 108)) is None {
        Some(block.subrange(100, 108))
    } else if field::octal_value(block.subrange(108, 116)) is None {
        Some(block.subrange(108, 116))
    } else if field::octal_value(block.subrange(116, 124)) is None {
        Some(block.subrange(116, 124))
    } else if field::octal_value(block.subrange(136, 148)) is None {
        Some(block.subrange(136, 148))
    } else {
        None
    }
}

/// Whether every byte is zero.
pub open spec fn all_zero(s: Seq<u8>) -> bool {
    forall|i: int| 0 <= i < s.len() ==> s[i] == 0
}

/// Whether a type flag announces something about entries to come: a GNU long
/// name or link target, or PAX records.
pub open spec fn is_extension(flag: u8) -> bool {
    flag == 76 || flag == 75 || flag == 120 || flag == 103
}

/// What is wrong if the stream stops before what is left of an entry and its
/// padding does, and where the reader then stands: what there was of the
/// contents is counted off, and padding is not waited for twice.
pub open spec fn cut_short(at: ReaderView) -> Option<(Fault, ReaderView)> {
    if at.rest.len() < at.left {
        let missing = (at.left - at.rest.len()) as nat;
        Some((Fault::Truncated(missing), ReaderView { rest: Seq::empty(), left: missing, ..at }))
    } else if at.rest.len() < at.left + at.pad {
        Some(
            (
                Fault::Truncated((at.left + at.pad - at.rest.len()) as nat),
                ReaderView { rest: Seq::empty(), left: 0, pad: 0, ..at },
            ),
        )
    } else {
        None
    }
}

/// Read headers until one is an entry's, or the archive ends.
///
/// Two zero blocks in a row end it, and so does a stream that simply stops.
/// Long-name and PAX headers are carried to the entry that follows; an entry
/// of an unknown kind is skipped, and what was said about it with it.
pub open spec fn scan(
    rest: Seq<u8>,
    carry: Carry,
    empty: nat,
    global: Seq<(Seq<char>, Seq<u8>)>,
) -> Step
    decreases rest.len(),
{
    let block = rest.take(512);
    let after = rest.skip(512);
    let at = |rest: Seq<u8>| ReaderView { rest, left: 0, pad: 0, done: false, global };
    if rest.len() == 0 {
        Step::End(ReaderView { rest, left: 0, pad: 0, done: true, global })
    } else if rest.len() < 512 {
        Step::Fault(Fault::MidHeader(rest.len()), at(Seq::empty()))
    } else if all_zero(block) {
        if empty >= 1 {
            Step::End(ReaderView { rest: after, left: 0, pad: 0, done: true, global })
        } else {
            scan(after, carry, empty + 1, global)
        }
    } else {
        match field::octal_value(block.subrange(124, 136)) {
            None => Step::Fault(Fault::BadOctal(block.subrange(124, 136)), at(after)),
            Some(size) => {
                let flag = block[156];
                let pad = field::padding(size as nat);
                match kind_of(flag) {
                    Some(kind) => {
                        let h = entry_header(block, kind, size, carry, global);
                        let then = ReaderView {
                            rest: after,
                            left: h.size as nat,
                            pad: field::padding(h.size as nat),
                            done: false,
                            global,
                        };
                        match bad_field(block) {
                            Some(bytes) => Step::Fault(Fault::BadOctal(bytes), then),
                            None => Step::Entry(h, then),
                        }
                    },
                    None => if !is_extension(flag) {
                        let skipped = ReaderView {
                            rest: after,
                            left: size as nat,
                            pad,
                            done: false,
                            global,
                        };
                        match cut_short(skipped) {
                            Some((f, then)) => Step::Fault(f, then),
                            None => scan(after.skip(size + pad), Carry::none(), 0, global),
                        }
                    } else if after.len() < size {
                        Step::Fault(
                            Fault::Truncated((size - after.len()) as nat),
                            at(Seq::empty()),
                        )
                    } else if after.len() < size + pad {
                        Step::Fault(
                            Fault::Truncated((size + pad - after.len()) as nat),
                            at(Seq::empty()),
                        )
                    } else {
                        let body = after.take(size as int);
                        let next = after.skip(size + pad);
                        if flag == 76 {
                            scan(
                                next,
                                Carry { name: Some(field::field_text(body)), ..carry },
                                0,
                                global,
                            )
                        } else if flag == 75 {
                            scan(
                                next,
                                Carry { link: Some(field::field_text(body)), ..carry },
                                0,
                                global,
                            )
                        } else if flag == 120 {
                            match pax::parsed(body) {
                                Some(records) => scan(
                                    next,
                                    Carry { pax: records, ..carry },
                                    0,
                                    global,
                                ),
                                None => Step::Fault(Fault::BadPax, at(next)),
                            }
                        } else {
                            match pax::parsed(body) {
                                Some(records) => scan(next, carry, 0, records),
                                None => Step::Fault(Fault::BadPax, at(next)),
                            }
                        }
                    },
                }
            },
        }
    }
}

/// Advance: past what is left of the current entry, then to the next header.
pub open spec fn advance(at: ReaderView) -> Step {
    if at.done {
        Step::End(at)
    } else {
        match cut_short(at) {
            Some((f, then)) => Step::Fault(f, then),
            None => scan(
                at.rest.skip((at.left + at.pad) as int),
                Carry::none(),
                0,
                at.global,
            ),
        }
    }
}

/// The error for a stream that stopped in the middle of something.
fn truncated(missing: u64) -> (e: Error)
    ensures
        reports(e, Fault::Truncated(missing as nat)),
{
    let mut m: String = "archive is truncated: ".to_owned();
    text::push_decimal(&mut m, missing);
    m.append(" bytes short");
    Error::InvalidPath(m)
}

/// Read until `buf` is full or the stream ends, returning the byte count.
///
/// A stream is not obliged to hand over as much as was asked for — a pipe
/// routinely gives back whatever has arrived — so every read here loops.
fn fill<S: Source>(src: &mut S, buf: &mut Vec<u8>) -> (r: Result<usize>)
    ensures
        final(buf)@.len() == old(buf)@.len(),
        r matches Ok(n) ==> n <= old(buf)@.len(),
        old(src).reliable() ==> r is Ok && final(src).reliable(),
        r matches Ok(n) ==> {
            &&& n == (if old(buf)@.len() <= old(src).rest().len() {
                old(buf)@.len()
            } else {
                old(src).rest().len()
            })
            &&& final(buf)@.take(n as int) == old(src).rest().take(n as int)
            &&& final(src).rest() == old(src).rest().skip(n as int)
        },
{
    let mut at: usize = 0;
    assert(src.rest().skip(0) =~= src.rest());
    while at < buf.len()
        invariant
            at <= buf@.len(),
            buf@.len() == old(buf)@.len(),
            at <= old(src).rest().len(),
            buf@.take(at as int) == old(src).rest().take(at as int),
            src.rest() == old(src).rest().skip(at as int),
            old(src).reliable() ==> src.reliable(),
        decreases buf.len() - at,
    {
        let ghost before = buf@;
        let ghost all = old(src).rest();
        let got: Result<usize>;
        {
            let (head, tail) = buf.as_mut_slice().split_at_mut(at);
            got = src.read(tail);
        }
        assert(buf@.take(at as int) =~= before.take(at as int));
        match got {
            Ok(n) => {
                if n == 0 {
                    return Ok(at);
                }
                proof {
                    assert(buf@.skip(at as int).take(n as int) =~= all.skip(at as int).take(
                        n as int,
                    ));
                    assert(buf@.take(at + n) =~= buf@.take(at as int) + buf@.skip(at as int).take(
                        n as int,
                    ));
                    assert(all.take(at + n) =~= all.take(at as int) + all.skip(at as int).take(
                        n as int,
                    ));
                    assert(all.skip(at as int).skip(n as int) =~= all.skip(at + n));
                }
                at += n;
            },
            Err(e) => {
                return Err(e);
            },
        }
    }
    Ok(at)
}

/// Take exactly `size` bytes from the stream, or fail.
fn take_exact<S: Source>(src: &mut S, size: u64) -> (r: Result<Vec<u8>>)
    ensures
        r matches Ok(body) ==> body@.len() == size,
        old(src).reliable() ==> final(src).reliable(),
        r matches Ok(body) ==> {
            &&& size <= old(src).rest().len()
            &&& body@ == old(src).rest().take(size as int)
            &&& final(src).rest() == old(src).rest().skip(size as int)
        },
        r matches Err(e) ==> old(src).reliable() ==> {
            &&& old(src).rest().len() < size
            &&& reports(e, Fault::Truncated((size - old(src).rest().len()) as nat))
            &&& final(src).rest().len() == 0
        },
{
    let mut out: Vec<u8> = Vec::new();
    let mut got: u64 = 0;
    let ghost all = src.rest();
    assert(all.skip(0) =~= all);
    assert(all.take(0) =~= Seq::empty());
    while got < size
        invariant
            got <= size,
            all == old(src).rest(),
            out@.len() == got,
            got <= all.len(),
            out@ == all.take(got as int),
            src.rest() == all.skip(got as int),
            old(src).reliable() ==> src.reliable(),
        decreases size - got,
    {
        let want: usize = if size - got < 65536 {
            (size - got) as usize
        } else {
            65536
        };
        let mut scratch: Vec<u8> = vec![0u8; want];
        match fill(src, &mut scratch) {
            Ok(n) => {
                if n < want {
                    return Err(truncated(size - got - n as u64));
                }
                assert(scratch@.take(n as int) =~= scratch@);
                out.extend_from_slice(scratch.as_slice());
                proof {
                    assert(all.skip(got as int).skip(n as int) =~= all.skip(got + n));
                    assert(out@ =~= all.take(got + n));
                }
                got = got + n as u64;
            },
            Err(e) => {
                return Err(e);
            },
        }
    }
    Ok(out)
}

/// Discard exactly `size` bytes of the stream, or fail.
fn discard<S: Source>(src: &mut S, size: u64) -> (r: Result<()>)
    ensures
        old(src).reliable() ==> final(src).reliable(),
        r is Ok ==> {
            &&& size <= old(src).rest().len()
            &&& final(src).rest() == old(src).rest().skip(size as int)
        },
        r matches Err(e) ==> old(src).reliable() ==> {
            &&& old(src).rest().len() < size
            &&& reports(e, Fault::Truncated((size - old(src).rest().len()) as nat))
            &&& final(src).rest().len() == 0
        },
{
    let mut got: u64 = 0;
    let ghost all = src.rest();
    assert(all.skip(0) =~= all);
    while got < size
        invariant
            got <= size,
            all == old(src).rest(),
            got <= all.len(),
            src.rest() == all.skip(got as int),
            old(src).reliable() ==> src.reliable(),
        decreases size - got,
    {
        let want: usize = if size - got < 65536 {
            (size - got) as usize
        } else {
            65536
        };
        let mut scratch: Vec<u8> = vec![0u8; want];
        match fill(src, &mut scratch) {
            Ok(n) => {
                if n < want {
                    return Err(truncated(size - got - n as u64));
                }
                assert(all.skip(got as int).skip(n as int) =~= all.skip(got + n));
                got = got + n as u64;
            },
            Err(e) => {
                return Err(e);
            },
        }
    }
    Ok(())
}

/// Take an extension entry's body, and step over its padding.
fn read_body<S: Source>(src: &mut S, size: u64) -> (r: Result<Vec<u8>>)
    ensures
        ({
            let have = old(src).rest().len();
            let want = size + field::padding(size as nat);
            &&& old(src).reliable() ==> final(src).reliable()
            &&& r matches Ok(body) ==> {
                &&& want <= have
                &&& body@ == old(src).rest().take(size as int)
                &&& final(src).rest() == old(src).rest().skip(want)
            }
            &&& r matches Err(e) ==> old(src).reliable() ==> {
                &&& have < want
                &&& reports(
                    e,
                    Fault::Truncated(
                        if have < size {
                            (size - have) as nat
                        } else {
                            (want - have) as nat
                        },
                    ),
                )
                &&& final(src).rest().len() == 0
            }
        }),
{
    let ghost all = src.rest();
    match take_exact(src, size) {
        Ok(body) => {
            let pad: usize = pad_for(size);
            match discard(src, pad as u64) {
                Ok(_) => {
                    assert(all.skip(size as int).skip(pad as int) =~= all.skip(size + pad));
                    Ok(body)
                },
                Err(e) => Err(e),
            }
        },
        Err(e) => Err(e),
    }
}

/// Reads entries from a tar stream, one at a time.
///
/// Call [`next`](Reader::next) for the following entry's metadata, then
/// [`read`](Reader::read) or [`read_to_end`](Reader::read_to_end) for its
/// contents. Contents left unread are skipped when the next entry is asked
/// for, so a caller that only wants the listing pays nothing for the data.
pub struct Reader<S: Source> {
    src: S,
    left: u64,
    pad: usize,
    done: bool,
    global: Records,
}

impl<S: Source> View for Reader<S> {
    type V = ReaderView;

    closed spec fn view(&self) -> ReaderView {
        ReaderView {
            rest: self.src.rest(),
            left: self.left as nat,
            pad: self.pad as nat,
            done: self.done,
            global: self.global@,
        }
    }
}

impl<S: Source> Reader<S> {
    /// Whether every read from here on will succeed.
    pub closed spec fn reliable(&self) -> bool {
        self.src.reliable()
    }

    /// The stream read from.
    pub closed spec fn source(&self) -> S {
        self.src
    }

    /// Start reading an archive from a stream.
    pub fn new(src: S) -> (r: Self)
        ensures
            r.source() == src,
            r.reliable() == src.reliable(),
            r@ == fresh(src.rest()),
    {
        Self { src, left: 0, pad: 0, done: false, global: Records::new() }
    }

    /// Give the underlying stream back — positioned after the archive.
    pub fn into_inner(self) -> (src: S)
        ensures
            src == self.source(),
            src.rest() == self@.rest,
    {
        self.src
    }
}

/// A text that may be there, as the contracts speak of it.
pub open spec fn text_view(o: Option<String>) -> Option<Seq<char>> {
    match o {
        Some(s) => Some(s@),
        None => None,
    }
}

/// What the records say under `key`, the entry's own before the archive's.
fn find_record<'a>(pax: &'a Records, global: &'a Records, key: &str) -> (r: Option<&'a Vec<u8>>)
    ensures
        match r {
            Some(v) => recorded(pax@, global@, key@) == Some(v@),
            None => recorded(pax@, global@, key@) is None,
        },
{
    match pax.get(key) {
        Some(v) => Some(v),
        None => global.get(key),
    }
}

/// A number the records give, or else `fallback`.
fn find_number(pax: &Records, global: &Records, key: &str, fallback: u64) -> (n: u64)
    ensures
        n == recorded_number(pax@, global@, key@, fallback),
{
    match find_record(pax, global, key) {
        Some(v) => {
            let t: String = text::lossy(v.as_slice());
            let chars: Vec<char> = text::chars_of(t.as_str());
            match decimal::parse(text::trimmed(chars.as_slice())) {
                Some(n) => n,
                None => fallback,
            }
        },
        None => fallback,
    }
}

/// What follows `prefix` in `s`, where `s` opens with it.
fn after_prefix(s: &str, prefix: &str) -> (r: Option<String>)
    ensures
        match r {
            Some(rest) => opens_with(s@, prefix@) && rest@ == s@.skip(prefix@.len() as int),
            None => !opens_with(s@, prefix@),
        },
{
    let chars: Vec<char> = text::chars_of(s);
    let head: Vec<char> = text::chars_of(prefix);
    if chars.len() < head.len() {
        return None;
    }
    let mut i: usize = 0;
    while i < head.len()
        invariant
            i <= head@.len() <= chars@.len(),
            head@ == prefix@,
            chars@ == s@,
            forall|j: int| 0 <= j < i ==> chars@[j] == head@[j],
        decreases head.len() - i,
    {
        if chars[i] != head[i] {
            assert(s@.take(prefix@.len() as int)[i as int] != prefix@[i as int]);
            return None;
        }
        i += 1;
    }
    assert(s@.take(prefix@.len() as int) =~= prefix@);
    let mut rest: String = String::new();
    let tail: &[char] = vstd::slice::slice_subrange(chars.as_slice(), head.len(), chars.len());
    text::push_chars(&mut rest, tail);
    assert(rest@ =~= s@.skip(prefix@.len() as int));
    Some(rest)
}

/// Add the extended attributes among `records` to `out`.
fn collect_xattrs(records: &Records, out: &mut Vec<(String, Vec<u8>)>)
    ensures
        pax::records_view(final(out)@) == pax::records_view(old(out)@) + xattrs_in(records@),
{
    let mut i: usize = 0;
    assert(records@.take(0) =~= Seq::empty());
    assert(pax::records_view(out@) + Seq::empty() =~= pax::records_view(out@));
    while i < records.len()
        invariant
            i <= records@.len(),
            pax::records_view(out@) == pax::records_view(old(out)@) + xattrs_in(
                records@.take(i as int),
            ),
        decreases records@.len() - i,
    {
        let (key, value) = records.at(i);
        let ghost before = out@;
        proof {
            assert(records@.take(i + 1).drop_last() =~= records@.take(i as int));
            assert(records@.take(i + 1).last() == (key@, value@));
        }
        match after_prefix(key.as_str(), "SCHILY.xattr.") {
            Some(name) => {
                let copy: Vec<u8> = bytes::copy(value.as_slice());
                out.push((name, copy));
                proof {
                    assert(pax::records_view(out@) =~= pax::records_view(before).push(
                        (name@, copy@),
                    ));
                    assert(pax::records_view(out@) =~= pax::records_view(old(out)@) + xattrs_in(
                        records@.take(i + 1),
                    ));
                }
            },
            None => {},
        }
        i += 1;
    }
    assert(records@.take(i as int) =~= records@);
}

/// The number in bytes `from` to `to` of a header block.
fn number_in(block: &Vec<u8>, from: usize, to: usize) -> (r: Result<u64>)
    requires
        from <= to <= block@.len(),
    ensures
        match r {
            Ok(n) => field::octal_value(block@.subrange(from as int, to as int)) == Some(n),
            Err(e) => field::octal_value(block@.subrange(from as int, to as int)) is None
                && reports(e, Fault::BadOctal(block@.subrange(from as int, to as int))),
        },
{
    octal(vstd::slice::slice_subrange(block.as_slice(), from, to))
}

/// An entry's path, before it is normalised.
fn find_path(
    block: &Vec<u8>,
    long_name: Option<String>,
    pax: &Records,
    global: &Records,
) -> (path: String)
    requires
        block@.len() == 512,
    ensures
        path@ == (match recorded(pax@, global@, "path"@) {
            Some(v) => text::lossy_text(v),
            None => match text_view(long_name) {
                Some(name) => name,
                None => header_path(block@),
            },
        }),
{
    match find_record(pax, global, "path") {
        Some(v) => text::lossy(v.as_slice()),
        None => match long_name {
            Some(name) => name,
            None => {
                let name: String = cstr(vstd::slice::slice_subrange(block.as_slice(), 0, 100));
                let prefix: String = cstr(vstd::slice::slice_subrange(block.as_slice(), 345, 500));
                if prefix.as_str().is_empty() {
                    name
                } else {
                    let mut path: String = prefix;
                    path.append("/");
                    path.append(name.as_str());
                    path
                }
            },
        },
    }
}

/// An entry's link target.
fn find_link(
    block: &Vec<u8>,
    long_link: Option<String>,
    pax: &Records,
    global: &Records,
) -> (link: String)
    requires
        block@.len() == 512,
    ensures
        link@ == (match recorded(pax@, global@, "linkpath"@) {
            Some(v) => text::lossy_text(v),
            None => match text_view(long_link) {
                Some(link) => link,
                None => field::field_text(block@.subrange(157, 257)),
            },
        }),
{
    match find_record(pax, global, "linkpath") {
        Some(v) => text::lossy(v.as_slice()),
        None => match long_link {
            Some(link) => link,
            None => cstr(vstd::slice::slice_subrange(block.as_slice(), 157, 257)),
        },
    }
}

/// The number in a field of a header block, or zero.
fn number_or_zero(block: &Vec<u8>, from: usize, to: usize) -> (n: u64)
    requires
        from <= to <= block@.len(),
    ensures
        n == octal_or_zero(block@.subrange(from as int, to as int)),
{
    match number_in(block, from, to) {
        Ok(n) => n,
        Err(_) => 0,
    }
}

/// The last 32 bits of a number.
fn cut32(n: u64) -> (r: u32)
    ensures
        r == low32(n),
{
    (n % 0x1_0000_0000) as u32
}

/// How long an entry's contents are.
fn find_size(kind: EntryKind, size: u64, pax: &Records, global: &Records) -> (n: u64)
    ensures
        n == (if kind == EntryKind::File {
            recorded_number(pax@, global@, "size"@, size)
        } else {
            0
        }),
{
    // Only a regular file has contents; a device node's header carries its
    // major and minor where a file would carry its length.
    if kind == EntryKind::File {
        find_number(pax, global, "size", size)
    } else {
        0
    }
}

/// Read the metadata in a header block.
fn read_header(
    block: &Vec<u8>,
    kind: EntryKind,
    size: u64,
    long_name: Option<String>,
    long_link: Option<String>,
    pax: &Records,
    global: &Records,
) -> (r: Result<Header>)
    requires
        block@.len() == 512,
    ensures
        match r {
            Ok(h) => bad_field(block@) is None && h@ == entry_header(
                block@,
                kind,
                size,
                Carry { name: text_view(long_name), link: text_view(long_link), pax: pax@ },
                global@,
            ),
            Err(e) => bad_field(block@) matches Some(bytes) && reports(e, Fault::BadOctal(bytes)),
        },
{
    let path: String = find_path(block, long_name, pax, global);
    let path: String = normalise(path.as_str());
    let link: String = find_link(block, long_link, pax, global);
    let mut xattrs: Vec<(String, Vec<u8>)> = Vec::new();
    assert(pax::records_view(xattrs@) =~= Seq::empty());
    collect_xattrs(pax, &mut xattrs);
    collect_xattrs(global, &mut xattrs);
    assert(pax::records_view(xattrs@) =~= xattrs_in(pax@) + xattrs_in(global@));
    let size: u64 = find_size(kind, size, pax, global);
    let mode: u64 = match number_in(block, 100, 108) {
        Ok(n) => n,
        Err(e) => {
            return Err(e);
        },
    };
    let uid: u64 = match number_in(block, 108, 116) {
        Ok(n) => find_number(pax, global, "uid", n),
        Err(e) => {
            return Err(e);
        },
    };
    let gid: u64 = match number_in(block, 116, 124) {
        Ok(n) => find_number(pax, global, "gid", n),
        Err(e) => {
            return Err(e);
        },
    };
    let mtime: u64 = match number_in(block, 136, 148) {
        Ok(n) => find_number(pax, global, "mtime", n),
        Err(e) => {
            return Err(e);
        },
    };
    Ok(
        Header {
            path,
            kind,
            mode: (mode % 0o10000) as u16,
            uid: cut32(uid),
            gid: cut32(gid),
            mtime: cut32(mtime),
            size,
            link,
            major: cut32(number_or_zero(block, 329, 337)),
            minor: cut32(number_or_zero(block, 337, 345)),
            xattrs,
        },
    )
}

/// The kind of entry a type flag denotes.
fn find_kind(flag: u8) -> (r: Option<EntryKind>)
    ensures
        r == kind_of(flag),
{
    if flag == 48 || flag == 0 || flag == 55 {
        Some(EntryKind::File)
    } else if flag == 49 {
        Some(EntryKind::HardLink)
    } else if flag == 50 {
        Some(EntryKind::Symlink)
    } else if flag == 51 {
        Some(EntryKind::CharDevice)
    } else if flag == 52 {
        Some(EntryKind::BlockDevice)
    } else if flag == 53 {
        Some(EntryKind::Directory)
    } else if flag == 54 {
        Some(EntryKind::Fifo)
    } else {
        None
    }
}

/// Whether every byte is zero.
fn is_blank(block: &Vec<u8>) -> (r: bool)
    ensures
        r == all_zero(block@),
{
    let mut i: usize = 0;
    while i < block.len()
        invariant
            i <= block@.len(),
            forall|j: int| 0 <= j < i ==> block@[j] == 0,
        decreases block.len() - i,
    {
        if block[i] != 0 {
            return false;
        }
        i += 1;
    }
    true
}

/// The error for a stream that stopped in a header.
fn mid_header(n: usize) -> (e: Error)
    ensures
        reports(e, Fault::MidHeader(n as nat)),
{
    let mut m: String = "archive ends mid-header, ".to_owned();
    text::push_decimal(&mut m, n as u64);
    m.append(" bytes into a 512-byte block");
    Error::InvalidPath(m)
}

impl<S: Source> Reader<S> {
    /// Discard whatever is left of the current entry, and its padding.
    fn skip_rest(&mut self) -> (r: Result<()>)
        ensures
            final(self)@.done == old(self)@.done,
            final(self)@.global == old(self)@.global,
            r is Ok ==> final(self)@.left == 0 && final(self)@.pad == 0,
            old(self).reliable() ==> final(self).reliable(),
            r is Ok ==> cut_short(old(self)@) is None && final(self)@ == (ReaderView {
                rest: old(self)@.rest.skip((old(self)@.left + old(self)@.pad) as int),
                left: 0,
                pad: 0,
                ..old(self)@
            }),
            r matches Err(e) ==> old(self).reliable() ==> {
                &&& cut_short(old(self)@) matches Some((f, then))
                &&& reports(e, f)
                &&& final(self)@ == then
            },
    {
        let ghost start = self@;
        let ghost mut got: int = 0;
        let mut scratch: Vec<u8> = vec![0u8; 512];
        assert(start.rest.skip(0) =~= start.rest);
        while self.left > 0
            invariant
                scratch@.len() == 512,
                start == old(self)@,
                self@.left + got == start.left,
                self@.pad == start.pad,
                self@.done == start.done,
                self@.global == start.global,
                old(self).reliable() ==> self.reliable(),
                0 <= got <= start.rest.len(),
                self@.rest == start.rest.skip(got),
            decreases self.left,
        {
            let ghost was = self@;
            match self.read(scratch.as_mut_slice()) {
                Ok(n) => {
                    proof {
                        assert(start.rest.skip(got).skip(n as int) =~= start.rest.skip(got + n));
                        got = got + n;
                    }
                },
                Err(e) => {
                    assert(old(self).reliable() ==> self@.rest
                        =~= Seq::empty());
                    return Err(e);
                },
            }
        }
        let pad: usize = self.pad;
        self.pad = 0;
        match discard(&mut self.src, pad as u64) {
            Ok(_) => {},
            Err(e) => {
                assert(old(self).reliable() ==> self@.rest =~= Seq::empty());
                return Err(e);
            },
        }
        assert(start.rest.skip(start.left as int).skip(pad as int) =~= start.rest.skip(
            (start.left + pad) as int,
        ));
        Ok(())
    }

    /// Advance to the next entry, or `None` at the end of the archive.
    pub fn next(&mut self) -> (r: Result<Option<Header>>)
        ensures
            old(self)@.done ==> *final(self) == *old(self) && (r matches Ok(None)),
            r matches Ok(Some(h)) ==> {
                &&& final(self)@.left == h@.size
                &&& final(self)@.pad == field::padding(h@.size as nat)
                &&& !final(self)@.done
            },
            r matches Ok(None) ==> final(self)@.done,
            old(self).reliable() ==> final(self).reliable(),
            match r {
                Ok(Some(h)) => advance(old(self)@) == Step::Entry(h@, final(self)@),
                Ok(None) => advance(old(self)@) == Step::End(final(self)@),
                Err(e) => old(self).reliable() ==> {
                    &&& advance(old(self)@) matches Step::Fault(f, then)
                    &&& reports(e, f)
                    &&& final(self)@ == then
                },
            },
    {
        if self.done {
            return Ok(None);
        }
        match self.skip_rest() {
            Ok(_) => {},
            Err(e) => {
                return Err(e);
            },
        }
        // Carried between headers by the GNU and PAX extension mechanisms.
        let mut long_name: Option<String> = None;
        let mut long_link: Option<String> = None;
        let mut pax: Records = Records::new();
        let mut empty: u32 = 0;
        loop
            invariant
                empty <= 1,
                !old(self)@.done,
                self@.left == 0,
                self@.pad == 0,
                !self@.done,
                old(self).reliable() ==> self.reliable(),
                advance(old(self)@) == scan(
                    self@.rest,
                    Carry { name: text_view(long_name), link: text_view(long_link), pax: pax@ },
                    empty as nat,
                    self@.global,
                ),
            decreases self@.rest.len(),
        {
            let ghost rest = self@.rest;
            let mut block: Vec<u8> = vec![0u8; 512];
            let n: usize = match fill(&mut self.src, &mut block) {
                Ok(n) => n,
                Err(e) => {
                    return Err(e);
                },
            };
            if n == 0 {
                // A stream that simply stops is treated as ended: plenty of
                // producers omit the two-zero-block marker.
                self.done = true;
                assert(rest.skip(0) =~= rest);
                return Ok(None);
            }
            if n < 512 {
                assert(self@.rest =~= Seq::empty());
                return Err(mid_header(n));
            }
            assert(block@.take(512) =~= block@);
            assert(block@ == rest.take(512));
            // Two consecutive zero blocks end the archive.
            if is_blank(&block) {
                if empty >= 1 {
                    self.done = true;
                    return Ok(None);
                }
                empty += 1;
                continue ;
            }
            let size: u64 = match number_in(&block, 124, 136) {
                Ok(n) => n,
                Err(e) => {
                    return Err(e);
                },
            };
            let flag: u8 = block[156];
            match find_kind(flag) {
                Some(kind) => {
                    let held: u64 = find_size(kind, size, &pax, &self.global);
                    self.left = held;
                    self.pad = pad_for(held);
                    return match read_header(
                        &block,
                        kind,
                        size,
                        long_name,
                        long_link,
                        &pax,
                        &self.global,
                    ) {
                        Ok(h) => Ok(Some(h)),
                        Err(e) => Err(e),
                    };
                },
                None => {},
            }
            empty = 0;
            if flag == 76 || flag == 75 || flag == 120 || flag == 103 {
                let body: Vec<u8> = match read_body(&mut self.src, size) {
                    Ok(body) => body,
                    Err(e) => {
                        assert(old(self).reliable() ==> self@.rest
                            =~= Seq::empty());
                        return Err(e);
                    },
                };
                if flag == 76 {
                    // A GNU long name: it names the entry whose header comes
                    // next.
                    long_name = Some(cstr(body.as_slice()));
                } else if flag == 75 {
                    // A GNU long link target, likewise.
                    long_link = Some(cstr(body.as_slice()));
                } else {
                    // A PAX extended header, for the next entry or for all of
                    // them.
                    match parse_pax(body.as_slice()) {
                        Ok(records) => {
                            if flag == 120 {
                                pax = records;
                            } else {
                                self.global = records;
                            }
                        },
                        Err(e) => {
                            return Err(e);
                        },
                    }
                }
            } else {
                // Anything else — sparse files, volume labels — is skipped
                // rather than guessed at, along with whatever was announced
                // for it.
                self.left = size;
                self.pad = pad_for(size);
                match self.skip_rest() {
                    Ok(_) => {},
                    Err(e) => {
                        return Err(e);
                    },
                }
                long_name = None;
                long_link = None;
                pax = Records::new();
            }
        }
    }

    /// Read part of the current entry's contents, returning `0` at its end.
    pub fn read(&mut self, buf: &mut [u8]) -> (r: Result<usize>)
        ensures
            final(buf)@.len() == old(buf)@.len(),
            final(self)@.pad == old(self)@.pad,
            final(self)@.done == old(self)@.done,
            final(self)@.global == old(self)@.global,
            old(self)@.left == 0 ==> *final(self) == *old(self) && final(buf)@ == old(buf)@ && (
            r matches Ok(0)),
            match r {
                Ok(n) => {
                    &&& n <= old(buf)@.len()
                    &&& n <= old(self)@.left
                    &&& n == 0 <==> old(self)@.left == 0
                    &&& final(self)@.left == old(self)@.left - n
                },
                Err(_) => final(self)@.left == old(self)@.left,
            },
            old(self).reliable() ==> final(self).reliable(),
            match r {
                Ok(n) => {
                    &&& n <= old(self)@.rest.len()
                    &&& final(buf)@.take(n as int) == old(self)@.rest.take(n as int)
                    &&& final(self)@.rest == old(self)@.rest.skip(n as int)
                },
                Err(e) => old(self).reliable() ==> {
                    &&& old(self)@.left > 0
                    &&& old(self)@.rest.len() == 0 || old(buf)@.len() == 0
                    &&& reports(e, Fault::Truncated(old(self)@.left))
                    &&& final(self)@ == old(self)@
                },
            },
    {
        if self.left == 0 {
            assert(self@.rest.skip(0) =~= self@.rest);
            return Ok(0);
        }
        let want: usize = if (buf.len() as u64) < self.left {
            buf.len()
        } else {
            self.left as usize
        };
        let got: Result<usize>;
        {
            let (head, tail) = buf.split_at_mut(want);
            got = self.src.read(head);
        }
        match got {
            Ok(n) => {
                if n == 0 {
                    assert(old(self)@.rest.skip(0) =~= old(self)@.rest);
                    return Err(truncated(self.left));
                }
                self.left = self.left - n as u64;
                assert(buf@.take(want as int).take(n as int) =~= buf@.take(n as int));
                Ok(n)
            },
            Err(e) => Err(e),
        }
    }

    /// Read the rest of the current entry's contents into memory.
    pub fn read_to_end(&mut self) -> (r: Result<Vec<u8>>)
        ensures
            final(self)@.pad == old(self)@.pad,
            final(self)@.done == old(self)@.done,
            final(self)@.global == old(self)@.global,
            r matches Ok(data) ==> final(self)@.left == 0 && data@.len() == old(self)@.left,
            old(self).reliable() ==> final(self).reliable(),
            match r {
                Ok(data) => {
                    &&& old(self)@.left <= old(self)@.rest.len()
                    &&& data@ == old(self)@.rest.take(old(self)@.left as int)
                    &&& final(self)@.rest == old(self)@.rest.skip(old(self)@.left as int)
                },
                Err(e) => old(self).reliable() ==> {
                    let missing = (old(self)@.left - old(self)@.rest.len()) as nat;
                    &&& old(self)@.rest.len() < old(self)@.left
                    &&& reports(e, Fault::Truncated(missing))
                    &&& final(self)@ == (ReaderView {
                        rest: Seq::empty(),
                        left: missing,
                        ..old(self)@
                    })
                },
            },
    {
        let ghost start = self@;
        let room: usize = if self.left < 65536 {
            self.left as usize
        } else {
            65536
        };
        let mut scratch: Vec<u8> = vec![0u8; room];
        let mut out: Vec<u8> = Vec::new();
        assert(start.rest.skip(0) =~= start.rest);
        assert(start.rest.take(0) =~= Seq::empty());
        while self.left > 0
            invariant
                start == old(self)@,
                scratch@.len() == room,
                start.left > 0 ==> room > 0,
                self@.left + out@.len() == start.left,
                self@.pad == start.pad,
                self@.done == start.done,
                self@.global == start.global,
                old(self).reliable() ==> self.reliable(),
                out@.len() <= start.rest.len(),
                out@ == start.rest.take(out@.len() as int),
                self@.rest == start.rest.skip(out@.len() as int),
            decreases self.left,
        {
            let ghost was = out@;
            match self.read(scratch.as_mut_slice()) {
                Ok(n) => {
                    let part: &[u8] = vstd::slice::slice_subrange(scratch.as_slice(), 0, n);
                    out.extend_from_slice(part);
                    proof {
                        let k = was.len() as int;
                        assert(part@ =~= scratch@.take(n as int));
                        assert(start.rest.skip(k).skip(n as int) =~= start.rest.skip(k + n));
                        assert(out@ =~= start.rest.take(k + n));
                    }
                },
                Err(e) => {
                    assert(old(self).reliable() ==> self@.rest
                        =~= Seq::empty());
                    return Err(e);
                },
            }
        }
        Ok(out)
    }
}

/// An entry read whole, as the contracts speak of it.
pub open spec fn entries_view(entries: Seq<Entry>) -> Seq<(HeaderView, Seq<u8>)> {
    entries.map_values(|e: Entry| (e.header@, e.data@))
}

/// Every entry from `at` on, or the first fault.
pub open spec fn entries_from(at: ReaderView) -> std::result::Result<
    Seq<(HeaderView, Seq<u8>)>,
    Fault,
>
    decreases at.rest.len(),
{
    proof {
        lemma_scan_shrinks(
            at.rest.skip((at.left + at.pad) as int),
            Carry::none(),
            0,
            at.global,
        );
    }
    match advance(at) {
        Step::End(_) => Ok(Seq::empty()),
        Step::Fault(f, _) => Err(f),
        Step::Entry(h, then) => if then.rest.len() < then.left {
            Err(Fault::Truncated((then.left - then.rest.len()) as nat))
        } else {
            match entries_from(
                ReaderView { rest: then.rest.skip(then.left as int), left: 0, ..then },
            ) {
                Ok(more) => Ok(seq![(h, then.rest.take(then.left as int))] + more),
                Err(f) => Err(f),
            }
        },
    }
}

/// Where a reader stands once every entry from `at` on has been read, unless
/// there is a fault.
pub open spec fn end_from(at: ReaderView) -> Option<ReaderView>
    decreases at.rest.len(),
{
    proof {
        lemma_scan_shrinks(
            at.rest.skip((at.left + at.pad) as int),
            Carry::none(),
            0,
            at.global,
        );
    }
    match advance(at) {
        Step::End(then) => Some(then),
        Step::Fault(_, _) => None,
        Step::Entry(_, then) => if then.rest.len() < then.left {
            None
        } else {
            end_from(ReaderView { rest: then.rest.skip(then.left as int), left: 0, ..then })
        },
    }
}

/// A reader at the start of an archive.
pub open spec fn fresh(rest: Seq<u8>) -> ReaderView {
    ReaderView { rest, left: 0, pad: 0, done: false, global: Seq::empty() }
}

/// An entry's header takes at least a block.
pub proof fn lemma_scan_shrinks(
    rest: Seq<u8>,
    carry: Carry,
    empty: nat,
    global: Seq<(Seq<char>, Seq<u8>)>,
)
    ensures
        scan(rest, carry, empty, global) matches Step::Entry(_, then) ==> then.rest.len() + 512
            <= rest.len(),
    decreases rest.len(),
{
    let block = rest.take(512);
    let after = rest.skip(512);
    if rest.len() >= 512 {
        if all_zero(block) {
            lemma_scan_shrinks(after, carry, empty + 1, global);
        } else if field::octal_value(block.subrange(124, 136)) is Some {
            let size = field::octal_value(block.subrange(124, 136))->0;
            let pad = field::padding(size as nat);
            if kind_of(block[156]) is None && after.len() >= size + pad {
                lemma_scan_shrinks(after.skip(size + pad), Carry::none(), 0, global);
                let body = after.take(size as int);
                let next = after.skip(size + pad);
                lemma_scan_shrinks(
                    next,
                    Carry { name: Some(field::field_text(body)), ..carry },
                    0,
                    global,
                );
                lemma_scan_shrinks(
                    next,
                    Carry { link: Some(field::field_text(body)), ..carry },
                    0,
                    global,
                );
                lemma_scan_shrinks(next, carry, 0, global);
                if pax::parsed(body) is Some {
                    let records = pax::parsed(body)->0;
                    lemma_scan_shrinks(next, Carry { pax: records, ..carry }, 0, global);
                    lemma_scan_shrinks(next, carry, 0, records);
                }
            }
        }
    }
}

/// Read every entry from an archive held in memory.
///
/// A convenience over [`Reader`] for small archives; it holds the whole of
/// every file at once, which the streaming interface does not.
pub fn read(archive: &[u8]) -> (r: Result<Vec<Entry>>)
    ensures
        ({
            let start = fresh(archive@);
            match r {
                Ok(out) => entries_from(start) == Ok::<_, Fault>(entries_view(out@)),
                Err(e) => entries_from(start) matches Err(f) && reports(e, f),
            }
        }),
{
    let mut reader = Reader::new(Bytes::new(archive));
    let ghost start = reader@;
    let mut out: Vec<Entry> = Vec::new();
    assert(entries_view(out@) =~= Seq::empty());
    loop
        invariant
            reader.reliable(),
            match entries_from(reader@) {
                Ok(more) => entries_from(start) == Ok::<_, Fault>(entries_view(out@) + more),
                Err(f) => entries_from(start) == Err::<Seq<(HeaderView, Seq<u8>)>, Fault>(f),
            },
            start == fresh(archive@),
        decreases reader@.rest.len(),
    {
        let ghost at = reader@;
        match reader.next() {
            Ok(Some(header)) => {
                let ghost then = reader@;
                proof {
                    lemma_scan_shrinks(
                        at.rest.skip((at.left + at.pad) as int),
                        Carry::none(),
                        0,
                        at.global,
                    );
                }
                match reader.read_to_end() {
                    Ok(data) => {
                        let ghost before = out@;
                        out.push(Entry { header, data });
                        proof {
                            let pair = (header@, data@);
                            assert(entries_view(out@) =~= entries_view(before).push(pair));
                            if entries_from(reader@) is Ok {
                                let more = entries_from(reader@)->Ok_0;
                                assert(entries_view(before) + (seq![pair] + more) =~= entries_view(
                                    out@,
                                ) + more);
                            }
                        }
                    },
                    Err(e) => {
                        return Err(e);
                    },
                }
            },
            Ok(None) => {
                assert(entries_view(out@) + Seq::empty() =~= entries_view(out@));
                return Ok(out);
            },
            Err(e) => {
                return Err(e);
            },
        }
    }
}

} // verus!
