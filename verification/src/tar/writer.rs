//! Writing an archive, one entry at a time.

use vstd::prelude::*;

use crate::error::{Error, Result};
use crate::tar::field::{self, basename, pad_for};
use crate::tar::header::{self, encode, EntryKind, Header, HeaderView};
use crate::tar::pax::{self, build_pax};
use crate::tar::stream::Sink;
use crate::text;

verus! {

/// Where a writer stands.
#[verifier::ext_equal]
pub struct WriterView {
    /// The bytes written so far.
    pub written: Seq<u8>,
    /// Contents still owed for the entry that was started.
    pub left: nat,
    /// Padding owed once those contents are written.
    pub pad: nat,
    /// How often the stream was flushed.
    pub flushes: nat,
}

/// `n` zero bytes.
pub open spec fn zeros(n: nat) -> Seq<u8> {
    Seq::new(n, |i: int| 0u8)
}

/// Decimal digits.
pub open spec fn decimal_bytes(n: u32) -> Seq<u8> {
    text::digits(n as nat, 10)
}

/// A value with the extended-attribute prefix put in front of its name.
pub open spec fn as_record(xattr: (Seq<char>, Seq<u8>)) -> (Seq<char>, Seq<u8>) {
    ("SCHILY.xattr."@ + xattr.0, xattr.1)
}

/// A record that is there only when it is needed.
pub open spec fn record_if(needed: bool, key: Seq<char>, value: Seq<u8>) -> Seq<
    (Seq<char>, Seq<u8>),
> {
    if needed {
        seq![(key, value)]
    } else {
        Seq::empty()
    }
}

/// The PAX records an entry needs: whatever will not fit the fixed-width
/// fields — a long path, a long link target, an extended attribute, a uid
/// past 2097151, contents of 8 GiB and more.
pub open spec fn needed_records(h: HeaderView) -> Seq<(Seq<char>, Seq<u8>)> {
    record_if(text::utf8(h.path).len() > 100, "path"@, text::utf8(h.path)) + record_if(
        text::utf8(h.link).len() > 100,
        "linkpath"@,
        text::utf8(h.link),
    ) + record_if(h.uid > 0o7777777, "uid"@, decimal_bytes(h.uid)) + record_if(
        h.gid > 0o7777777,
        "gid"@,
        decimal_bytes(h.gid),
    ) + record_if(
        content_size(h) > 0o77777777777,
        "size"@,
        text::digits(content_size(h), 10),
    ) + h.xattrs.map_values(|x: (Seq<char>, Seq<u8>)| as_record(x))
}

/// A PAX extended header for the entry `h`: its block, its body, its padding.
pub open spec fn extension(h: HeaderView, records: Seq<(Seq<char>, Seq<u8>)>) -> Seq<u8> {
    let body = pax::built(records);
    header::encoded(
        HeaderView {
            size: body.len() as u64,
            mtime: h.mtime,
            ..HeaderView::plain(
                "PaxHeaders/"@ + field::last_component(h.path),
                EntryKind::File,
                0o644,
            )
        },
        120,
    ) + body + zeros(field::padding(body.len()))
}

/// Everything written ahead of an entry's contents.
pub open spec fn opening(h: HeaderView) -> Seq<u8> {
    (if needed_records(h).len() > 0 {
        extension(h, needed_records(h))
    } else {
        Seq::empty()
    }) + header::encoded(h, h.kind.flag())
}

/// How many bytes of contents an entry carries.
pub open spec fn content_size(h: HeaderView) -> nat {
    if h.kind == EntryKind::File {
        h.size as nat
    } else {
        0
    }
}

/// What is reported of an entry cut short.
pub open spec fn short_text(left: nat) -> Seq<char> {
    "entry was declared as "@ + text::ascii(text::digits(left, 10))
        + " bytes longer than what was written"@
}

/// What is reported of an entry overrun.
pub open spec fn long_text(left: nat, given: nat) -> Seq<char> {
    "entry was declared as "@ + text::ascii(text::digits(left, 10)) + " more bytes but "@
        + text::ascii(text::digits(given, 10)) + " were written"@
}

/// Writes entries to a tar stream, one at a time.
///
/// Call [`start`](Writer::start) with an entry's metadata, then
/// [`write`](Writer::write) its contents, then `start` the next one.
/// [`finish`](Writer::finish) writes the end-of-archive marker; an archive
/// without it is usually readable but is not well formed.
pub struct Writer<K: Sink> {
    sink: K,
    left: u64,
    pad: usize,
}

impl<K: Sink> View for Writer<K> {
    type V = WriterView;

    closed spec fn view(&self) -> WriterView {
        WriterView {
            written: self.sink.written(),
            left: self.left as nat,
            pad: self.pad as nat,
            flushes: self.sink.flushes(),
        }
    }
}

/// A block's worth of zeros, or less.
fn zero_bytes(n: usize) -> (out: Vec<u8>)
    ensures
        out@ == zeros(n as nat),
{
    let out: Vec<u8> = vec![0u8; n];
    assert(out@ =~= zeros(n as nat));
    out
}

/// The PAX records an entry needs.
fn records_for(h: &Header) -> (out: Vec<(String, Vec<u8>)>)
    ensures
        pax::records_view(out@) == needed_records(h@),
{
    let mut out: Vec<(String, Vec<u8>)> = Vec::new();
    let path: &[u8] = h.path.as_str().as_bytes();
    let link: &[u8] = h.link.as_str().as_bytes();
    let ghost v = h@;
    let ghost p1 = record_if(text::utf8(v.path).len() > 100, "path"@, text::utf8(v.path));
    let ghost p2 = record_if(text::utf8(v.link).len() > 100, "linkpath"@, text::utf8(v.link));
    let ghost p3 = record_if(v.uid > 0o7777777, "uid"@, decimal_bytes(v.uid));
    let ghost p4 = record_if(v.gid > 0o7777777, "gid"@, decimal_bytes(v.gid));
    let ghost p5 = record_if(
        content_size(v) > 0o77777777777,
        "size"@,
        text::digits(content_size(v), 10),
    );
    if path.len() > 100 {
        out.push(("path".to_owned(), crate::bytes::copy(path)));
    }
    assert(pax::records_view(out@) =~= p1);
    let ghost was = out@;
    if link.len() > 100 {
        out.push(("linkpath".to_owned(), crate::bytes::copy(link)));
        assert(pax::records_view(out@) =~= pax::records_view(was) + p2);
    }
    assert(pax::records_view(out@) =~= p1 + p2);
    let ghost was = out@;
    if h.uid > 0o7777777 {
        out.push(("uid".to_owned(), text::digits_of(h.uid as u128, 10)));
        assert(pax::records_view(out@) =~= pax::records_view(was) + p3);
    }
    assert(pax::records_view(out@) =~= p1 + p2 + p3);
    let ghost was = out@;
    if h.gid > 0o7777777 {
        out.push(("gid".to_owned(), text::digits_of(h.gid as u128, 10)));
        assert(pax::records_view(out@) =~= pax::records_view(was) + p4);
    }
    assert(pax::records_view(out@) =~= p1 + p2 + p3 + p4);
    let ghost was = out@;
    if h.kind == EntryKind::File && h.size > 0o77777777777 {
        out.push(("size".to_owned(), text::digits_of(h.size as u128, 10)));
        assert(pax::records_view(out@) =~= pax::records_view(was) + p5);
    }
    assert(pax::records_view(out@) =~= p1 + p2 + p3 + p4 + p5);
    let ghost fixed = p1 + p2 + p3 + p4 + p5;
    let ghost xs = v.xattrs.map_values(|x: (Seq<char>, Seq<u8>)| as_record(x));
    let mut i: usize = 0;
    assert(fixed + xs.take(0) =~= fixed);
    while i < h.xattrs.len()
        invariant
            i <= h.xattrs@.len(),
            v == h@,
            xs == v.xattrs.map_values(|x: (Seq<char>, Seq<u8>)| as_record(x)),
            pax::records_view(out@) == fixed + xs.take(i as int),
        decreases h.xattrs.len() - i,
    {
        let mut key: String = "SCHILY.xattr.".to_owned();
        key.append(h.xattrs[i].0.as_str());
        let ghost was = out@;
        let value: Vec<u8> = crate::bytes::copy(h.xattrs[i].1.as_slice());
        out.push((key, value));
        proof {
            assert(v.xattrs[i as int] == (h.xattrs@[i as int].0@, h.xattrs@[i as int].1@));
            assert(xs[i as int] == (key@, value@));
            assert(pax::records_view(out@) =~= pax::records_view(was).push((key@, value@)));
            assert(xs.take(i + 1) =~= xs.take(i as int).push(xs[i as int]));
            assert(fixed + xs.take(i + 1) =~= (fixed + xs.take(i as int)).push(xs[i as int]));
        }
        i += 1;
    }
    assert(xs.take(i as int) =~= xs);
    out
}

impl<K: Sink> Writer<K> {
    /// Whether every write from here on will succeed.
    pub closed spec fn reliable(&self) -> bool {
        self.sink.reliable()
    }

    /// The stream written to.
    pub closed spec fn sink(&self) -> K {
        self.sink
    }

    /// Start writing an archive to a stream.
    pub fn new(sink: K) -> (r: Self)
        ensures
            r.sink() == sink,
            r.reliable() == sink.reliable(),
            r@ == (WriterView {
                written: sink.written(),
                left: 0,
                pad: 0,
                flushes: sink.flushes(),
            }),
    {
        Self { sink, left: 0, pad: 0 }
    }

    /// Write bytes that are no entry's contents.
    fn emit(&mut self, bytes: &[u8]) -> (r: Result<()>)
        ensures
            final(self)@.left == old(self)@.left,
            final(self)@.pad == old(self)@.pad,
            old(self).reliable() ==> r is Ok && final(self).reliable(),
            r is Ok ==> final(self)@ == (WriterView {
                written: old(self)@.written + bytes@,
                ..old(self)@
            }),
    {
        self.sink.write_all(bytes)
    }

    /// Pad the entry in progress out to a block boundary.
    fn end_entry(&mut self) -> (r: Result<()>)
        ensures
            old(self)@.left > 0 ==> *final(self) == *old(self) && (r matches Err(
                Error::InvalidPath(m),
            ) && m@ == short_text(old(self)@.left)),
            r is Ok ==> final(self)@.left == 0 && final(self)@.pad == 0,
            old(self).reliable() ==> final(self).reliable() && (old(self)@.left == 0
                ==> r is Ok),
            r is Ok ==> final(self)@ == (WriterView {
                written: old(self)@.written + zeros(old(self)@.pad),
                left: 0,
                pad: 0,
                ..old(self)@
            }),
    {
        if self.left > 0 {
            let mut m: String = "entry was declared as ".to_owned();
            text::push_decimal(&mut m, self.left);
            m.append(" bytes longer than what was written");
            return Err(Error::InvalidPath(m));
        }
        let pad: usize = self.pad;
        self.pad = 0;
        if pad > 0 {
            let zeros: Vec<u8> = zero_bytes(pad);
            return self.emit(zeros.as_slice());
        }
        assert(self@.written + zeros(0) =~= self@.written);
        Ok(())
    }

    /// Begin an entry. Its contents, if any, follow via [`write`](Writer::write).
    pub fn start(&mut self, header: &Header) -> (r: Result<()>)
        ensures
            old(self)@.left > 0 ==> *final(self) == *old(self) && (r matches Err(
                Error::InvalidPath(m),
            ) && m@ == short_text(old(self)@.left)),
            r is Ok ==> final(self)@.left == content_size(header@) && final(self)@.pad
                == field::padding(content_size(header@)),
            old(self).reliable() ==> final(self).reliable() && (old(self)@.left == 0
                ==> r is Ok),
            r is Ok ==> final(self)@ == (WriterView {
                written: old(self)@.written + zeros(old(self)@.pad) + opening(header@),
                left: content_size(header@),
                pad: field::padding(content_size(header@)),
                ..old(self)@
            }),
    {
        match self.end_entry() {
            Ok(_) => {},
            Err(e) => {
                return Err(e);
            },
        }
        let ghost begun = self@.written;
        // Anything that will not fit the fixed-width fields goes in a PAX
        // header ahead of the entry. One mechanism covers them all, which is
        // why this does not also emit GNU 'L' and 'K' records.
        let records: Vec<(String, Vec<u8>)> = records_for(header);
        assert(records@.len() == needed_records(header@).len());
        if records.len() > 0 {
            let body: Vec<u8> = build_pax(records.as_slice());
            let mut path: String = "PaxHeaders/".to_owned();
            path.append(basename(header.path.as_str()).as_str());
            let mut pax: Header = Header::file(path, body.len() as u64);
            pax.mtime = header.mtime;
            let block: Vec<u8> = encode(&pax, 120);
            match self.emit(block.as_slice()) {
                Ok(_) => {},
                Err(e) => {
                    return Err(e);
                },
            }
            match self.emit(body.as_slice()) {
                Ok(_) => {},
                Err(e) => {
                    return Err(e);
                },
            }
            let pad: usize = pad_for(body.len() as u64);
            if pad > 0 {
                let zeros: Vec<u8> = zero_bytes(pad);
                match self.emit(zeros.as_slice()) {
                    Ok(_) => {},
                    Err(e) => {
                        return Err(e);
                    },
                }
            }
            assert(self@.written =~= begun + extension(
                header@,
                needed_records(header@),
            ));
        }
        let block: Vec<u8> = encode(header, header.kind.typeflag());
        match self.emit(block.as_slice()) {
            Ok(_) => {},
            Err(e) => {
                return Err(e);
            },
        }
        assert(self@.written =~= begun + opening(header@));
        self.left = if header.kind == EntryKind::File {
            header.size
        } else {
            0
        };
        self.pad = pad_for(self.left);
        Ok(())
    }

    /// Write part of the current entry's contents.
    pub fn write(&mut self, data: &[u8]) -> (r: Result<()>)
        ensures
            data@.len() > old(self)@.left ==> *final(self) == *old(self) && (r matches Err(
                Error::InvalidPath(m),
            ) && m@ == long_text(old(self)@.left, data@.len())),
            r is Ok ==> final(self)@.left == old(self)@.left - data@.len(),
            final(self)@.pad == old(self)@.pad,
            old(self).reliable() ==> final(self).reliable() && (data@.len()
                <= old(self)@.left ==> r is Ok),
            r is Ok ==> final(self)@ == (WriterView {
                written: old(self)@.written + data@,
                left: (old(self)@.left - data@.len()) as nat,
                ..old(self)@
            }),
    {
        if data.len() as u64 > self.left {
            let mut m: String = "entry was declared as ".to_owned();
            text::push_decimal(&mut m, self.left);
            m.append(" more bytes but ");
            text::push_decimal(&mut m, data.len() as u64);
            m.append(" were written");
            return Err(Error::InvalidPath(m));
        }
        match self.emit(data) {
            Ok(_) => {
                self.left = self.left - data.len() as u64;
                Ok(())
            },
            Err(e) => Err(e),
        }
    }

    /// Write a whole entry — metadata and contents together.
    pub fn append(&mut self, header: &Header, data: &[u8]) -> (r: Result<()>)
        ensures
            old(self)@.left > 0 ==> *final(self) == *old(self) && (r matches Err(
                Error::InvalidPath(m),
            ) && m@ == short_text(old(self)@.left)),
            r is Ok ==> final(self)@.left == 0 && final(self)@.pad == field::padding(
                contents(header@, data@).len(),
            ),
            old(self).reliable() ==> final(self).reliable() && (old(self)@.left == 0
                ==> r is Ok),
            r is Ok ==> final(self)@ == appended(old(self)@, header@, data@),
    {
        let mut header: Header = header.clone();
        if header.kind == EntryKind::File {
            header.size = data.len() as u64;
        }
        match self.start(&header) {
            Ok(_) => {},
            Err(e) => {
                return Err(e);
            },
        }
        if header.kind == EntryKind::File {
            match self.write(data) {
                Ok(_) => {},
                Err(e) => {
                    return Err(e);
                },
            }
        }
        Ok(())
    }

    /// Close the archive: pad the last entry, then the end-of-archive marker,
    /// and flush the stream, once and behind all that was written.
    pub fn finish(&mut self) -> (r: Result<()>)
        ensures
            old(self)@.left > 0 ==> *final(self) == *old(self) && (r matches Err(
                Error::InvalidPath(m),
            ) && m@ == short_text(old(self)@.left)),
            r is Ok ==> final(self)@.left == 0 && final(self)@.pad == 0,
            old(self).reliable() ==> final(self).reliable() && (old(self)@.left == 0
                ==> r is Ok),
            r is Ok ==> final(self)@ == (WriterView {
                written: old(self)@.written + zeros(old(self)@.pad) + zeros(1024),
                left: 0,
                pad: 0,
                flushes: old(self)@.flushes + flush_counts::<K>(),
            }),
            r is Ok ==> final(self).sink().flushed() == final(self)@.written,
    {
        match self.end_entry() {
            Ok(_) => {},
            Err(e) => {
                return Err(e);
            },
        }
        let ghost begun = self@.written;
        let block: Vec<u8> = zero_bytes(512);
        match self.emit(block.as_slice()) {
            Ok(_) => {},
            Err(e) => {
                return Err(e);
            },
        }
        match self.emit(block.as_slice()) {
            Ok(_) => {},
            Err(e) => {
                return Err(e);
            },
        }
        assert(self@.written =~= begun + zeros(1024));
        self.sink.flush()
    }

    /// Give the underlying stream back.
    pub fn into_inner(self) -> (sink: K)
        ensures
            sink == self.sink(),
            sink.written() == self@.written,
            sink.flushes() == self@.flushes,
    {
        self.sink
    }
}

/// The header an entry is appended under: a file's size is that of its data.
pub open spec fn sized(h: HeaderView, data: Seq<u8>) -> HeaderView {
    if h.kind == EntryKind::File {
        HeaderView { size: data.len() as u64, ..h }
    } else {
        h
    }
}

/// The contents an entry carries: none unless it is a file.
pub open spec fn contents(h: HeaderView, data: Seq<u8>) -> Seq<u8> {
    if h.kind == EntryKind::File {
        data
    } else {
        Seq::empty()
    }
}

/// A writer after a whole entry has been appended.
pub open spec fn appended(at: WriterView, h: HeaderView, data: Seq<u8>) -> WriterView {
    WriterView {
        written: at.written + zeros(at.pad) + opening(sized(h, data)) + contents(h, data),
        left: 0,
        pad: field::padding(contents(h, data).len()),
        ..at
    }
}

/// What one flush adds to the count of flushes: nothing where none is waited
/// for.
pub open spec fn flush_counts<K: Sink>() -> nat {
    if K::buffered() {
        1
    } else {
        0
    }
}

} // verus!
