//! Extended attributes.

use fio_ext4::volume::xattrs::{
    attribute_area, attributes_written, extra_size, from_xattrs, get_xattr, list_xattrs,
    place_xattrs, remove_xattr, set_xattr, to_xattrs, Placement, Xattr,
};
use fio_ext4::volume::{Attrs, Inode};

fn attrs(list: &[(&str, &[u8])]) -> Vec<Xattr> {
    list.iter().map(|(n, v)| Xattr::new(n, v)).collect()
}

#[test]
fn what_is_set_is_what_is_read() {
    let list = attrs(&[("user.a", b"1"), ("user.b", b"2")]);
    let list = set_xattr(list, "user.b", b"two");
    let list = set_xattr(list, "user.c", b"3");
    assert_eq!(list, attrs(&[("user.a", b"1"), ("user.b", b"two"), ("user.c", b"3")]));
    assert_eq!(get_xattr(&list, "user.b"), Some(b"two".to_vec()));
    assert_eq!(get_xattr(&list, "user.a"), Some(b"1".to_vec()));
    assert_eq!(get_xattr(&list, "user.none"), None);
}

#[test]
fn what_is_removed_is_gone() {
    let list = attrs(&[("a", b"1"), ("b", b"2"), ("a", b"3")]);
    let list = remove_xattr(list, "a");
    assert_eq!(list, attrs(&[("b", b"2")]));
    assert_eq!(remove_xattr(list, "x"), attrs(&[("b", b"2")]));
}

#[test]
fn the_first_of_a_name_counts() {
    let list = list_xattrs(attrs(&[("a", b"inode")]), attrs(&[("a", b"block"), ("b", b"")]));
    assert_eq!(get_xattr(&list, "a"), Some(b"inode".to_vec()));
    assert_eq!(list.len(), 3);
    let list = set_xattr(list, "a", b"x");
    assert_eq!(list, attrs(&[("a", b"x"), ("a", b"block"), ("b", b"")]));
}

#[test]
fn archive_records_carry_over_both_ways() {
    let pairs = vec![("security.selinux".to_string(), b"label".to_vec())];
    let list = to_xattrs(&pairs);
    assert_eq!(list, attrs(&[("security.selinux", b"label")]));
    assert_eq!(from_xattrs(list), pairs);
}

fn file() -> Inode {
    Inode::new_file(&Attrs::default(), 9, true)
}

#[test]
fn attributes_spill_into_a_block_and_come_back() {
    let inode = file();
    assert_eq!(place_xattrs(&inode, true), Placement::Inode { free: None });
    assert_eq!(place_xattrs(&inode, false), Placement::NewBlock);
    let spilled = attributes_written(inode, Some(77), 4096, 10);
    assert_eq!(spilled.file_acl, 77);
    assert_eq!(spilled.blocks, 8);
    assert_eq!(spilled.ctime, 10);
    assert_eq!(place_xattrs(&spilled, false), Placement::Block(77));
    let again = attributes_written(spilled, Some(77), 4096, 11);
    assert_eq!((again.file_acl, again.blocks), (77, 8));
    assert_eq!(place_xattrs(&spilled, true), Placement::Inode { free: Some(77) });
    let back = attributes_written(spilled, None, 4096, 12);
    assert_eq!((back.file_acl, back.blocks, back.ctime), (0, 0, 12));
    assert_eq!(spilled.drop_attributes(4096), (Some(77), Inode { ctime: 10, ..inode }));
    assert_eq!(inode.drop_attributes(4096), (None, inode));
}

#[test]
fn the_attribute_area_stands_behind_all_fields() {
    let mut raw = vec![0u8; 256];
    raw[128] = 32;
    raw[160] = 5;
    raw[165] = 6;
    assert_eq!(extra_size(&raw, 256), 32);
    assert_eq!(extra_size(&raw, 128), 0);
    assert_eq!(attribute_area(&raw, 256, 32), [5, 0, 0, 0, 0, 6]);
    assert!(attribute_area(&raw, 256, 64).is_empty());
}
