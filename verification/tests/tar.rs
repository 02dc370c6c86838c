//! Archives, read and written.

use fio_ext4::error::Result;
use fio_ext4::tar::{
    build_pax, encode, normalise, octal, parse_pax, read, split_name, ByteSeq, Bytes, EntryKind,
    Header, Reader, Sink, Source, Writer, BLOCK,
};

/// Feeds a stream a few bytes at a time, the way a pipe does — so a reader
/// that assumes a read returns everything asked for fails here.
struct Trickle<'a> {
    rest: &'a [u8],
    at_a_time: usize,
}

impl Source for Trickle<'_> {
    fn rest(&self) -> ByteSeq {
        unreachable!("only contracts speak of it")
    }

    fn read(&mut self, buf: &mut [u8]) -> Result<usize> {
        let n = buf.len().min(self.rest.len()).min(self.at_a_time);
        buf[..n].copy_from_slice(&self.rest[..n]);
        self.rest = &self.rest[n..];
        Ok(n)
    }
}

fn build(entries: &[(Header, &[u8])]) -> Vec<u8> {
    let mut writer = Writer::new(Vec::new());
    for (header, data) in entries {
        writer.append(header, data).unwrap();
    }
    writer.finish().unwrap();
    writer.into_inner()
}

#[test]
fn round_trips_a_file_and_a_directory() {
    let mut dir = Header::directory("etc");
    dir.mode = 0o750;
    dir.uid = 1000;
    let mut file = Header::file("etc/hostname", 0);
    file.mtime = 1_700_000_000;

    let archive = build(&[(dir, b""), (file, b"router\n")]);
    let entries = read(&archive).unwrap();

    assert_eq!(entries.len(), 2);
    assert_eq!(entries[0].header.path, "etc");
    assert_eq!(entries[0].header.kind, EntryKind::Directory);
    assert_eq!(entries[0].header.mode, 0o750);
    assert_eq!(entries[0].header.uid, 1000);
    assert_eq!(entries[1].header.path, "etc/hostname");
    assert_eq!(entries[1].header.mtime, 1_700_000_000);
    assert_eq!(entries[1].data, b"router\n");
}

#[test]
fn round_trips_links_devices_and_xattrs() {
    let mut link = Header {
        path: "bin".into(),
        kind: EntryKind::Symlink,
        mode: 0o777,
        link: "usr/bin".into(),
        ..Default::default()
    };
    link.xattrs.clear();
    let dev = Header {
        path: "dev/null".into(),
        kind: EntryKind::CharDevice,
        mode: 0o666,
        major: 1,
        minor: 3,
        ..Default::default()
    };
    let labelled = Header {
        path: "etc/shadow".into(),
        kind: EntryKind::File,
        mode: 0o600,
        xattrs: vec![(
            "security.selinux".into(),
            b"system_u:object_r:shadow_t:s0".to_vec(),
        )],
        ..Default::default()
    };

    let archive = build(&[(link, b""), (dev, b""), (labelled, b"root:!:\n")]);
    let entries = read(&archive).unwrap();

    assert_eq!(entries[0].header.kind, EntryKind::Symlink);
    assert_eq!(entries[0].header.link, "usr/bin");
    assert_eq!(entries[1].header.kind, EntryKind::CharDevice);
    assert_eq!((entries[1].header.major, entries[1].header.minor), (1, 3));
    assert_eq!(
        entries[2].header.xattrs,
        vec![(
            "security.selinux".to_string(),
            b"system_u:object_r:shadow_t:s0".to_vec()
        )]
    );
    assert_eq!(entries[2].data, b"root:!:\n");
}

#[test]
fn round_trips_a_path_too_long_for_the_header() {
    let long = format!("var/lib/{}/deep/file.conf", "component-name/".repeat(12));
    assert!(long.len() > 100);
    let archive = build(&[(Header::file(long.clone(), 0), b"x")]);
    let entries = read(&archive).unwrap();
    assert_eq!(entries[0].header.path, long);
    assert_eq!(entries[0].data, b"x");
}

#[test]
fn reads_correctly_from_a_stream_that_dribbles() {
    let archive = build(&[
        (Header::file("a", 0), &b"a".repeat(1000)[..]),
        (Header::file("b", 0), b"bb"),
    ]);

    for at_a_time in [1, 7, 100, 512] {
        let mut reader = Reader::new(Trickle {
            rest: &archive,
            at_a_time,
        });
        let mut seen = Vec::new();
        while let Some(header) = reader.next().unwrap() {
            seen.push((header.path.clone(), reader.read_to_end().unwrap()));
        }
        assert_eq!(seen.len(), 2, "at {at_a_time} bytes a time");
        assert_eq!(seen[0].1.len(), 1000);
        assert_eq!(seen[1].1, b"bb");
    }
}

#[test]
fn skips_the_contents_of_entries_that_are_not_read() {
    let archive = build(&[
        (Header::file("big", 0), &b"x".repeat(4096)[..]),
        (Header::file("small", 0), b"y"),
    ]);
    let mut reader = Reader::new(Bytes::new(&archive));
    assert_eq!(reader.next().unwrap().unwrap().path, "big");
    // Deliberately not reading "big" — the next call has to step over it.
    let second = reader.next().unwrap().unwrap();
    assert_eq!(second.path, "small");
    assert_eq!(reader.read_to_end().unwrap(), b"y");
}

#[test]
fn a_truncated_archive_is_an_error_not_a_short_read() {
    let archive = build(&[(Header::file("a", 0), &b"x".repeat(2000)[..])]);
    let mut reader = Reader::new(Bytes::new(&archive[..BLOCK + 100]));
    assert_eq!(reader.next().unwrap().unwrap().path, "a");
    assert!(reader.read_to_end().is_err());
}

#[test]
fn strips_leading_dot_slash() {
    assert_eq!(normalise("./usr/bin/sh"), "usr/bin/sh");
    assert_eq!(normalise("/etc/"), "etc");
    assert_eq!(normalise("etc"), "etc");
}

#[test]
fn reads_octal_and_gnu_binary_sizes() {
    assert_eq!(octal(b"0000755\0").unwrap(), 0o755);
    assert_eq!(octal(b"        ").unwrap(), 0);
    // Top bit set: big-endian binary, for sizes octal cannot express.
    let mut big = vec![0x80u8, 0, 0, 0];
    big.extend_from_slice(&[0, 0, 0, 0, 0, 0, 0x40, 0]);
    assert_eq!(octal(&big).unwrap(), 0x4000);
}

#[test]
fn pax_records_carry_their_own_length() {
    let body = build_pax(&[
        ("uid".into(), b"1000".to_vec()),
        ("SCHILY.xattr.user.a".into(), b"hello".to_vec()),
    ]);
    let parsed = parse_pax(&body).unwrap();
    assert_eq!(parsed.get("uid").map(|v| v.as_slice()), Some(&b"1000"[..]));
    assert_eq!(
        parsed.get("SCHILY.xattr.user.a").map(|v| v.as_slice()),
        Some(&b"hello"[..])
    );
    // The declared length must equal the record's real length, including
    // the digits that declare it — the classic way to get PAX wrong.
    let first_space = body.iter().position(|&b| b == b' ').unwrap();
    let declared: usize = String::from_utf8_lossy(&body[..first_space])
        .parse()
        .unwrap();
    assert_eq!(&body[declared - 1..declared], b"\n");
}

#[test]
fn an_empty_archive_yields_nothing() {
    let empty = vec![0u8; BLOCK * 2];
    let entries = read(&empty).unwrap();
    assert!(entries.is_empty());
    assert!(read(&[]).unwrap().is_empty());
}

#[test]
fn a_long_name_splits_across_name_and_prefix() {
    let path = format!("{}/file", "d".repeat(120));
    let (name, prefix) = split_name(&path);
    assert_eq!(name, "file");
    assert_eq!(prefix, "d".repeat(120));
    assert!(prefix.len() <= 155 && name.len() <= 100);
}

/// A stream that holds back what is written until it is flushed.
#[derive(Default)]
struct Buffered {
    waiting: Vec<u8>,
    out: Vec<u8>,
    flushes: usize,
}

impl Sink for Buffered {
    fn written(&self) -> ByteSeq {
        unreachable!("only contracts speak of it")
    }

    fn write_all(&mut self, buf: &[u8]) -> Result<()> {
        self.waiting.extend_from_slice(buf);
        Ok(())
    }

    fn flush(&mut self) -> Result<()> {
        self.out.append(&mut self.waiting);
        self.flushes += 1;
        Ok(())
    }
}

#[test]
fn a_finished_archive_is_flushed_once() {
    let mut writer = Writer::new(Buffered::default());
    writer.append(&Header::file("f", 0), b"abc").unwrap();
    writer.finish().unwrap();
    let sink = writer.into_inner();
    assert_eq!(sink.flushes, 1);
    assert!(sink.waiting.is_empty());
    assert_eq!(sink.out, build(&[(Header::file("f", 0), b"abc")]));
}

#[test]
fn paths_are_written_in_one_way() {
    for (path, normal) in [
        ("/./etc", "etc"),
        (".//./etc/", "etc"),
        ("././/", ""),
        ("./.", "."),
        ("..//x", "..//x"),
        (".hidden", ".hidden"),
    ] {
        assert_eq!(normalise(path), normal);
        assert_eq!(normalise(normal), normal);
    }
}

#[test]
fn a_long_link_target_stays_in_its_field() {
    let mut header = Header::default();
    header.path = "l".into();
    header.kind = EntryKind::Symlink;
    header.link = "a".repeat(200);
    let block = encode(&header, b'2');
    assert!(block[157..257].iter().all(|&b| b == b'a'));
    assert!(block[265..329].iter().all(|&b| b == 0));
    assert!(block[345..500].iter().all(|&b| b == 0));
    let back = read(&build(&[(header.clone(), b"")])).unwrap();
    assert_eq!(back[0].header.path, "l");
    assert_eq!(back[0].header.link, header.link);

    header.kind = EntryKind::CharDevice;
    header.major = 5;
    header.minor = 1;
    let back = read(&build(&[(header.clone(), b"")])).unwrap();
    assert_eq!((back[0].header.major, back[0].header.minor), (5, 1));
}

#[test]
fn a_size_past_its_field_is_recorded() {
    let mut writer = Writer::new(Vec::new());
    writer.start(&Header::file("big", 1 << 33)).unwrap();
    let out = writer.into_inner();
    assert_eq!(out[156], b'x');
    let records = parse_pax(&out[512..512 + 19]).unwrap();
    assert_eq!(records.get("size").unwrap(), b"8589934592");
    assert_eq!(out.len(), 3 * BLOCK);
    assert_eq!(out[1024 + 156], b'0');
    let mut reader = Reader::new(Bytes::new(&out));
    assert_eq!(reader.next().unwrap().unwrap().size, 1 << 33);

    let mut writer = Writer::new(Vec::new());
    writer.start(&Header::file("fits", (1 << 33) - 1)).unwrap();
    assert_eq!(writer.into_inner().len(), BLOCK);
}

#[test]
fn what_is_announced_for_a_skipped_entry_goes_with_it() {
    let mut archive = encode(&Header::file("p", 19), b'x');
    archive.extend_from_slice(b"19 path=sparse.bin\n");
    archive.extend_from_slice(&[0; 493]);
    archive.extend_from_slice(&encode(&Header::file("s", 0), b'S'));
    archive.extend_from_slice(&encode(&Header::file("b", 0), b'0'));
    archive.extend_from_slice(&[0; 1024]);
    let mut reader = Reader::new(Bytes::new(&archive));
    assert_eq!(reader.next().unwrap().unwrap().path, "b");
    assert!(reader.next().unwrap().is_none());
}

#[test]
fn attributes_come_back_in_whatever_order_they_went() {
    let mut header = Header::file("f", 0);
    header.xattrs = vec![
        ("user.z".into(), b"1".to_vec()),
        ("user.a".into(), b"2".to_vec()),
        ("security.selinux".into(), b"3".to_vec()),
    ];
    let back = read(&build(&[(header.clone(), b"")])).unwrap();
    let mut got = back[0].header.xattrs.clone();
    let mut gave = header.xattrs.clone();
    got.sort();
    gave.sort();
    assert_eq!(got, gave);
}

#[test]
fn a_stream_is_left_behind_the_archive() {
    let mut archive = build(&[(Header::file("f", 0), b"abc")]);
    archive.extend_from_slice(b"more");
    let mut reader = Reader::new(Bytes::new(&archive));
    while reader.next().unwrap().is_some() {}
    let mut src = reader.into_inner();
    let mut buf = [9u8; 6];
    assert_eq!(src.read(&mut buf).unwrap(), 4);
    assert_eq!(&buf, b"more\x09\x09");
}

#[test]
fn a_reader_goes_on_behind_a_bad_field() {
    let mut archive = encode(&Header::file("bad", 3), b'0');
    archive[100] = b'9';
    archive.extend_from_slice(b"abc");
    archive.extend_from_slice(&[0; 509]);
    archive.extend_from_slice(&encode(&Header::file("good", 0), b'0'));
    archive.extend_from_slice(&[0; 1024]);
    let mut reader = Reader::new(Bytes::new(&archive));
    assert!(reader.next().is_err());
    // The length and the padding of the entry are known, and are stepped over.
    assert_eq!(reader.next().unwrap().unwrap().path, "good");
    assert!(reader.next().unwrap().is_none());
}

#[test]
fn what_there_was_of_a_truncated_entry_is_counted_off() {
    let mut archive = encode(&Header::file("f", 10), b'0');
    archive.extend_from_slice(b"abcd");
    let mut reader = Reader::new(Bytes::new(&archive));
    reader.next().unwrap();
    assert_eq!(
        reader.read_to_end().unwrap_err().message(),
        "invalid path: archive is truncated: 6 bytes short"
    );
    assert_eq!(
        reader.read(&mut [0u8; 4]).unwrap_err().message(),
        "invalid path: archive is truncated: 6 bytes short"
    );
}

#[test]
fn every_number_of_every_kind_comes_back() {
    let kinds = [
        EntryKind::File,
        EntryKind::HardLink,
        EntryKind::Symlink,
        EntryKind::CharDevice,
        EntryKind::BlockDevice,
        EntryKind::Directory,
        EntryKind::Fifo,
    ];
    for kind in kinds {
        let mut header = Header::file("p", 77);
        header.kind = kind;
        header.major = 0o7777777;
        header.minor = 5;
        let back = read(&build(&[(header.clone(), b"abc")])).unwrap();
        assert_eq!((back[0].header.major, back[0].header.minor), (0o7777777, 5));
        let is_file = matches!(kind, EntryKind::File);
        assert_eq!(back[0].header.size, if is_file { 3 } else { 0 });
        assert_eq!(back[0].data, if is_file { b"abc".to_vec() } else { Vec::new() });
    }
}

#[test]
fn whatever_is_archived_can_be_stepped_over() {
    let mut odd = Header::file("/./a\0b//", 0);
    odd.mode = u16::MAX;
    odd.link = "l\0".into();
    odd.major = u32::MAX;
    odd.minor = u32::MAX;
    odd.xattrs = vec![
        ("a=b".into(), b"1".to_vec()),
        ("a".into(), b"2".to_vec()),
        ("a".into(), b"3".to_vec()),
        ("".into(), b"=\n".to_vec()),
    ];
    let mut archive = build(&[(odd.clone(), b"abc"), (odd, b""), (Header::file("f", 0), b"x")]);
    archive.extend_from_slice(b"tail");
    let mut reader = Reader::new(Bytes::new(&archive));
    let mut contents = Vec::new();
    while reader.next().unwrap().is_some() {
        contents.push(reader.read_to_end().unwrap());
    }
    assert_eq!(contents, [b"abc".to_vec(), Vec::new(), b"x".to_vec()]);
    let mut left = [0u8; 8];
    let mut src = reader.into_inner();
    assert_eq!(src.read(&mut left).unwrap(), 4);
    assert_eq!(&left[..4], b"tail");
}
