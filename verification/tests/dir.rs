//! Directory blocks.

use fio_ext4::dir::{
    dot_entries, empty_block, file_type_of, insert_into_block, is_empty, rec_len,
    remove_from_block, repoint_dotdot, DirEntry, FT_DIR, FT_REG_FILE, FT_UNKNOWN, IFDIR, IFLNK,
    IFREG,
};
use fio_ext4::error::Error;

/// The live entries of a block.
fn names(block: &[u8], with_tail: bool) -> Vec<(u32, String)> {
    let limit = block.len() - if with_tail { 12 } else { 0 };
    let mut out = Vec::new();
    let mut at = 0;
    while at + 8 <= limit {
        let inode = u32::from_le_bytes(block[at..at + 4].try_into().unwrap());
        let len = u16::from_le_bytes(block[at + 4..at + 6].try_into().unwrap()) as usize;
        let name = &block[at + 8..at + 8 + block[at + 6] as usize];
        if inode != 0 {
            out.push((inode, String::from_utf8(name.to_vec()).unwrap()));
        }
        at += len;
    }
    assert_eq!(at, limit, "the chain of entries does not end where it should");
    out
}

#[test]
fn a_new_directory_holds_its_dots() {
    for with_tail in [false, true] {
        let block = dot_entries(1024, with_tail, 12, 2, true);
        assert_eq!(names(&block, with_tail), [(12, ".".into()), (2, "..".into())]);
        assert_eq!(block[7], FT_DIR);
    }
    assert_eq!(dot_entries(1024, false, 12, 2, false)[7], FT_UNKNOWN);
}

#[test]
fn names_go_in_and_come_out() {
    for with_tail in [false, true] {
        let mut block = dot_entries(1024, with_tail, 12, 2, true);
        for (i, name) in ["alpha", "b", "gamma-ray"].iter().enumerate() {
            assert!(insert_into_block(
                &mut block,
                with_tail,
                20 + i as u32,
                name.as_bytes(),
                FT_REG_FILE
            )
            .unwrap());
        }
        assert_eq!(names(&block, with_tail).len(), 5);
        assert_eq!(remove_from_block(&mut block, with_tail, b"b").unwrap(), Some(21));
        assert_eq!(remove_from_block(&mut block, with_tail, b"b").unwrap(), None);
        let left: Vec<String> = names(&block, with_tail).into_iter().map(|n| n.1).collect();
        assert_eq!(left, [".", "..", "alpha", "gamma-ray"]);
        // What was given back is used again.
        assert!(insert_into_block(&mut block, with_tail, 30, b"c", FT_REG_FILE).unwrap());
        assert!(names(&block, with_tail).contains(&(30, "c".into())));
    }
}

#[test]
fn a_full_block_takes_no_more_and_is_left_alone() {
    let mut block = empty_block(64, false);
    let mut n = 0;
    while insert_into_block(&mut block, false, 10 + n, b"name", FT_REG_FILE).unwrap() {
        n += 1;
    }
    assert_eq!(n, 5);
    let before = block.clone();
    assert!(!insert_into_block(&mut block, false, 99, b"x", FT_REG_FILE).unwrap());
    assert_eq!(block, before);
}

#[test]
fn the_first_entry_of_a_block_dies_in_place() {
    let mut block = empty_block(64, false);
    insert_into_block(&mut block, false, 5, b"only", FT_REG_FILE).unwrap();
    assert_eq!(remove_from_block(&mut block, false, b"only").unwrap(), Some(5));
    assert!(names(&block, false).is_empty());
    assert!(insert_into_block(&mut block, false, 6, b"next", FT_REG_FILE).unwrap());
    assert_eq!(names(&block, false), [(6, "next".into())]);
}

#[test]
fn a_malformed_entry_is_an_error() {
    let mut block = empty_block(64, false);
    block[4] = 200;
    for result in [
        insert_into_block(&mut block.clone(), false, 5, b"x", FT_REG_FILE).map(|_| ()),
        remove_from_block(&mut block.clone(), false, b"x").map(|_| ()),
        repoint_dotdot(&mut block.clone(), false, 9).map(|_| ()),
    ] {
        match result {
            Err(Error::Fs(m)) => assert_eq!(m, "malformed directory entry"),
            other => panic!("{other:?}"),
        }
    }
}

#[test]
fn dotdot_can_be_pointed_elsewhere() {
    let mut block = dot_entries(1024, true, 12, 2, true);
    assert!(repoint_dotdot(&mut block, true, 77).unwrap());
    assert_eq!(names(&block, true), [(12, ".".into()), (77, "..".into())]);
    let mut none = empty_block(1024, true);
    assert!(!repoint_dotdot(&mut none, true, 77).unwrap());
}

#[test]
fn lengths_and_types_are_what_they_should_be() {
    assert_eq!(rec_len(1), 12);
    assert_eq!(rec_len(4), 12);
    assert_eq!(rec_len(5), 16);
    assert_eq!(rec_len(255), 264);
    assert_eq!(file_type_of(true, IFDIR | 0o755), 2);
    assert_eq!(file_type_of(true, IFREG), 1);
    assert_eq!(file_type_of(true, IFLNK | 0o777), 7);
    assert_eq!(file_type_of(false, IFDIR), 0);
    assert_eq!(file_type_of(true, 0), 0);
}

#[test]
fn names_must_have_a_length_that_fits() {
    assert!(matches!(DirEntry::new(1, b"", 0), Err(Error::InvalidName(_))));
    assert!(matches!(DirEntry::new(1, &[b'x'; 256], 0), Err(Error::InvalidName(_))));
    assert!(DirEntry::new(1, &[b'x'; 255], 0).is_ok());
}

#[test]
fn a_directory_with_only_dots_is_empty() {
    let e = |name: &[u8]| DirEntry::new(3, name, 0).unwrap();
    assert!(is_empty(&[e(b"."), e(b"..")]));
    assert!(is_empty(&[]));
    assert!(!is_empty(&[e(b"."), e(b"..."), e(b"..")]));
}
