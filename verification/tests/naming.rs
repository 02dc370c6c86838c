//! Names entered into directories of several blocks, and taken out of them.

use fio_ext4::blockmap::HOLE;
use fio_ext4::dir::{dot_entries, empty_block, FT_REG_FILE};
use fio_ext4::error::Error;
use fio_ext4::volume::naming::{check_name, LinkStep, Linking, Repointing, Unlinking};
use std::collections::BTreeMap;

fn directory() -> (Vec<u64>, BTreeMap<u64, Vec<u8>>) {
    let list = vec![10, HOLE, 11];
    let disk = BTreeMap::from([
        (10, dot_entries(64, false, 5, 2, true)),
        (11, empty_block(64, false)),
    ]);
    (list, disk)
}

/// Enter a name: where it went, or what is to be done instead.
fn enter(
    disk: &mut BTreeMap<u64, Vec<u8>>,
    list: &[u64],
    name: &str,
    index: bool,
) -> Result<u64, LinkStep> {
    let mut linking =
        Linking::new(name.as_bytes(), 77, FT_REG_FILE, list.to_vec(), false, false, index).unwrap();
    loop {
        match linking.next() {
            LinkStep::Read(block) => {
                if linking.offer(disk.get_mut(&block).unwrap()).unwrap() {
                    return Ok(block);
                }
            }
            other => return Err(other),
        }
    }
}

fn take_out(disk: &mut BTreeMap<u64, Vec<u8>>, list: &[u64], name: &str) -> Option<u32> {
    let mut unlinking = Unlinking::new(name.as_bytes(), list.to_vec(), false);
    loop {
        match unlinking.next() {
            Ok(block) => {
                if let Some(inum) = unlinking.offer(disk.get_mut(&block).unwrap()).unwrap() {
                    return Some(inum);
                }
            }
            Err(Error::NotFound(m)) => {
                assert_eq!(m, name);
                return None;
            }
            Err(other) => panic!("{other:?}"),
        }
    }
}

#[test]
fn a_name_goes_to_the_first_block_with_room() {
    let (list, mut disk) = directory();
    assert_eq!(enter(&mut disk, &list, "a", false), Ok(10));
    assert_eq!(enter(&mut disk, &list, "a-much-longer-name-than-that", false), Ok(11));
    assert_eq!(enter(&mut disk, &list, "b", false), Ok(10));
    assert_eq!(take_out(&mut disk, &list, "a"), Some(77));
    assert_eq!(take_out(&mut disk, &list, "a"), None);
    assert_eq!(take_out(&mut disk, &list, "a-much-longer-name-than-that"), Some(77));
    assert_eq!(take_out(&mut disk, &list, "b"), Some(77));
}

#[test]
fn a_full_directory_grows_or_becomes_a_tree() {
    let (list, mut disk) = directory();
    let long = "n".repeat(200);
    assert_eq!(enter(&mut disk, &list, &long, false), Err(LinkStep::Grow(11)));
    assert_eq!(enter(&mut disk, &list, &long, true), Err(LinkStep::Rebuild));
    // The leaf an index leads to may be a hole.
    assert_eq!(enter(&mut disk, &[HOLE], "x", true), Err(LinkStep::Rebuild));
    assert_eq!(enter(&mut disk, &[], "x", false), Err(LinkStep::Grow(0)));
}

#[test]
fn a_new_block_holds_the_name_or_refuses_it() {
    let name = "n".repeat(200);
    let linking = Linking::new(name.as_bytes(), 9, 1, Vec::new(), true, false, false).unwrap();
    let block = linking.fresh_block(1024).unwrap();
    let mut disk = BTreeMap::from([(3, block)]);
    let mut unlinking = Unlinking::new(name.as_bytes(), vec![3], true);
    assert_eq!(unlinking.next().unwrap(), 3);
    assert_eq!(unlinking.offer(disk.get_mut(&3).unwrap()).unwrap(), Some(9));
    match linking.fresh_block(128) {
        Err(Error::InvalidName(m)) => {
            assert_eq!(m, "name does not fit in an empty directory block")
        }
        other => panic!("{other:?}"),
    }
}

#[test]
fn unusable_names_are_refused() {
    for name in [&b""[..], b"a/b", &[b'x'; 256]] {
        match check_name(name) {
            Err(Error::InvalidName(m)) => assert_eq!(m.as_bytes(), name),
            other => panic!("{other:?}"),
        }
        assert!(Linking::new(name, 1, 1, Vec::new(), false, false, false).is_err());
    }
    assert!(check_name(&[b'x'; 255]).is_ok());
}

#[test]
fn dotdot_is_pointed_elsewhere() {
    let (_, mut disk) = directory();
    // The names are not in the first block looked at.
    let list = vec![HOLE, 11, 10];
    let mut repointing = Repointing::new(9, list.clone(), false);
    assert_eq!(repointing.next(), Some(11));
    assert!(!repointing.offer(disk.get_mut(&11).unwrap()).unwrap());
    assert_eq!(repointing.next(), Some(10));
    assert!(repointing.offer(disk.get_mut(&10).unwrap()).unwrap());
    assert_eq!(disk[&10], dot_entries(64, false, 5, 9, true));
    assert_eq!(disk[&11], empty_block(64, false));
}

#[test]
fn a_directory_without_dotdot_is_left_alone() {
    let mut repointing = Repointing::new(9, vec![HOLE, 11], false);
    assert_eq!(repointing.next(), Some(11));
    let mut block = empty_block(64, false);
    assert!(!repointing.offer(&mut block).unwrap());
    assert_eq!(block, empty_block(64, false));
    assert_eq!(repointing.next(), None);

    // A record of no length at all ends the block; one that is cut short does
    // not pass.
    let mut broken = vec![0u8; 64];
    broken[4] = 3;
    let mut repointing = Repointing::new(9, vec![11], false);
    assert_eq!(repointing.next(), Some(11));
    assert!(matches!(repointing.offer(&mut broken), Err(Error::Fs(_))));
}

#[test]
fn in_a_tree_only_the_first_leaf_is_tried() {
    let linking = |list: Vec<u64>| Linking::new(b"n", 7, 1, list, false, true, false).unwrap();
    let mut full = linking(vec![20, 21, 22]);
    assert_eq!(full.next(), LinkStep::Read(20));
    let mut block = dot_entries(64, false, 5, 2, true);
    let mut filler = Linking::new(&[b'x'; 32], 8, 1, vec![20], false, false, false).unwrap();
    assert_eq!(filler.next(), LinkStep::Read(20));
    assert!(filler.offer(&mut block).unwrap());
    assert!(!full.offer(&mut block).unwrap());
    assert_eq!(full.next(), LinkStep::Rebuild);
    assert_eq!(linking(vec![HOLE, 21]).next(), LinkStep::Rebuild);
}

#[test]
fn the_root_of_a_tree_is_repointed_under_checksums() {
    // The `..` of such a block runs to its end, past where a checksum would be.
    let mut block = dot_entries(4096, false, 5, 2, true);
    let mut repointing = Repointing::new(9, vec![30], true);
    assert_eq!(repointing.next(), Some(30));
    assert!(repointing.offer(&mut block).unwrap());
    assert_eq!(block, dot_entries(4096, false, 5, 9, true));
}
