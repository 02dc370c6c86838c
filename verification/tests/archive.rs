//! Options of whole archives.

use fio_ext4::archive::{
    compress, decompress, is_standard, Compression, PackOptions, UnpackOptions,
};

#[test]
fn defaults_detect_when_reading_and_write_plainly() {
    let unpack = UnpackOptions::default();
    assert_eq!(unpack.into, "/");
    assert_eq!(unpack.compression, Compression::Auto);
    assert!(!unpack.whiteouts);
    let pack = PackOptions::default().clone();
    assert_eq!(pack.from, "/");
    assert_eq!(pack.compression, Compression::Plain);
    assert_eq!(Compression::default(), Compression::Auto);
    assert_eq!(unpack.clone().into, "/");
}

#[test]
fn gzip_is_told_by_its_magic() {
    assert!(decompress(Compression::Auto, &[0x1f, 0x8b]));
    assert!(!decompress(Compression::Auto, &[0x1f]));
    assert!(!decompress(Compression::Auto, &[0x1f, 0x8c]));
    assert!(!decompress(Compression::Auto, &[]));
    assert!(!decompress(Compression::Plain, &[0x1f, 0x8b]));
    assert!(decompress(Compression::Gzip, b"no"));
    assert!(compress(Compression::Gzip));
    assert!(!compress(Compression::Auto));
    assert!(!compress(Compression::Plain));
}

#[test]
fn a_dash_or_nothing_is_a_standard_stream() {
    assert!(is_standard(None));
    assert!(is_standard(Some("-")));
    assert!(!is_standard(Some("layer.tar")));
    assert!(!is_standard(Some("")));
}
