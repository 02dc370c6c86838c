//! Hash indexes of directories.

use fio_ext4::dir::{rec_len, DirEntry, FT_REG_FILE, TAIL_LEN};
use fio_ext4::error::Error;
use fio_ext4::index::{
    find, lay_out, leaf_run, leaf_run_below, names_to_index, pack_leaves, parent_of, plan_index,
    rebuild_index, run_of, sort_names, IndexBlock, Lookup, Sorted, SLACK_PERCENT,
};

fn sorted(names: &[(&str, u32)]) -> Vec<Sorted> {
    names
        .iter()
        .map(|&(name, hash)| Sorted {
            hash,
            minor: 0,
            entry: DirEntry::new(12, name.as_bytes(), FT_REG_FILE).unwrap(),
        })
        .collect()
}

fn entry(inode: u32, name: &str) -> DirEntry {
    DirEntry::new(inode, name.as_bytes(), FT_REG_FILE).unwrap()
}

#[test]
fn a_leaf_that_continues_a_run_of_equal_hashes_is_marked() {
    // Enough names on one hash to spill past a block, which is the case the
    // low bit exists for.
    let mut names = Vec::new();
    for i in 0..80 {
        names.push((format!("name-that-is-fairly-long-{i:03}"), 0x1000u32));
    }
    let refs: Vec<(&str, u32)> = names.iter().map(|(n, h)| (n.as_str(), *h)).collect();
    let (leaves, hashes) = pack_leaves(&sorted(&refs), 1024, false).unwrap();

    assert!(leaves.len() > 1, "the names should not have fitted in one");
    assert_eq!(hashes[0] & 1, 0, "the first leaf continues nothing");
    for (i, &hash) in hashes.iter().enumerate().skip(1) {
        assert_eq!(
            hash & 1,
            1,
            "leaf {i} continues the same hash and must say so"
        );
    }
}

#[test]
fn distinct_hashes_do_not_set_the_continuation_bit() {
    let names: Vec<(String, u32)> = (0..80)
        .map(|i| (format!("name-that-is-fairly-long-{i:03}"), (i as u32 + 1) << 8))
        .collect();
    let refs: Vec<(&str, u32)> = names.iter().map(|(n, h)| (n.as_str(), *h)).collect();
    let (_, hashes) = pack_leaves(&sorted(&refs), 1024, false).unwrap();
    for (i, &hash) in hashes.iter().enumerate() {
        assert_eq!(hash & 1, 0, "leaf {i} does not continue anything");
    }
}

#[test]
fn leaves_are_left_with_room_to_grow() {
    let names: Vec<(String, u32)> = (0..200)
        .map(|i| (format!("file-{i:04}"), (i as u32 + 1) << 8))
        .collect();
    let refs: Vec<(&str, u32)> = names.iter().map(|(n, h)| (n.as_str(), *h)).collect();
    let (leaves, _) = pack_leaves(&sorted(&refs), 1024, true).unwrap();

    let usable = 1024 - TAIL_LEN;
    let slack = (usable * SLACK_PERCENT) / 100;
    // A leaf is closed once its free space drops below the slack, so what
    // is left is the slack less the entry that crossed the line — never
    // nothing, which is the point. A directory whose leaves were packed
    // full would rebuild itself on every single insert.
    let widest = rec_len("file-0000".len());
    for (i, leaf) in leaves.iter().enumerate().take(leaves.len() - 1) {
        let used: usize = leaf.iter().map(|e| rec_len(e.name.len())).sum();
        let free = usable - used;
        assert!(
            free >= slack - widest,
            "leaf {i} was packed to {used} of {usable}, leaving only {free}"
        );
        assert!(free >= rec_len(1), "leaf {i} has no usable room left");
    }
}

#[test]
fn an_empty_directory_still_gets_one_leaf() {
    let (leaves, hashes) = pack_leaves(&[], 1024, false).unwrap();
    assert_eq!(leaves.len(), 1);
    assert_eq!(hashes.len(), 1);
    assert!(leaves[0].is_empty());
}

#[test]
fn the_index_grows_a_level_only_when_the_root_runs_out() {
    // 4 KiB blocks with checksums: (4096 - 32 - 8) / 8 = 507 root entries.
    let flat = plan_index(507, 4096, true).unwrap();
    assert_eq!(flat.levels, 0);
    assert_eq!(flat.total, 508);

    let deep = plan_index(508, 4096, true).unwrap();
    assert_eq!(deep.levels, 1);
    // (4096 - 8 - 8) / 8 = 510 leaves per interior node.
    assert_eq!(deep.per_node, 510);
    assert_eq!(deep.nodes, 1);
    assert_eq!(deep.total, 1 + 508 + 1);

    // And a directory too large for one level is refused rather than
    // written wrong.
    assert!(plan_index(507 * 510 + 1, 4096, true).is_err());
}

#[test]
fn the_largest_directory_still_fits_one_level() {
    let plan = plan_index(507 * 510, 4096, true).unwrap();
    assert_eq!(plan.nodes, 507);
    assert_eq!(plan.total, 1 + 507 * 510 + 507);
    match plan_index(507 * 510 + 1, 4096, true) {
        Err(Error::Unsupported(m)) => {
            assert_eq!(m, "a directory of 258571 blocks needs a three-level index")
        }
        other => panic!("{other:?}"),
    }
}

#[test]
fn names_are_packed_in_order_and_none_is_lost() {
    let names: Vec<(String, u32)> = (0..300)
        .map(|i| (format!("entry-number-{i}"), (i as u32 / 3) << 4))
        .collect();
    let refs: Vec<(&str, u32)> = names.iter().map(|(n, h)| (n.as_str(), *h)).collect();
    let (leaves, hashes) = pack_leaves(&sorted(&refs), 1024, true).unwrap();
    assert_eq!(leaves.len(), hashes.len());
    let out: Vec<Vec<u8>> = leaves.iter().flatten().map(|e| e.name.clone()).collect();
    let want: Vec<Vec<u8>> = names.iter().map(|(n, _)| n.as_bytes().to_vec()).collect();
    assert_eq!(out, want);
    for leaf in &leaves {
        let used: usize = leaf.iter().map(|e| rec_len(e.name.len())).sum();
        assert!(used <= 1024 - TAIL_LEN);
        assert!(!leaf.is_empty());
    }
}

#[test]
fn a_name_too_long_for_a_block_is_refused() {
    let long = "n".repeat(255);
    match pack_leaves(&sorted(&[(&long, 2)]), 128, false) {
        Err(Error::InvalidName(m)) => {
            assert_eq!(m, "a name too long to fit in a directory block")
        }
        other => panic!("{other:?}"),
    }
}

#[test]
fn dots_stay_out_of_an_index() {
    let existing = vec![entry(2, "."), entry(2, ".."), entry(11, "a"), entry(12, "...")];
    let names = names_to_index(existing, Some(entry(13, "b"))).unwrap();
    let out: Vec<&[u8]> = names.iter().map(|e| e.name.as_slice()).collect();
    assert_eq!(out, [b"a".as_slice(), b"...", b"b"]);
}

#[test]
fn a_name_is_not_indexed_twice() {
    match names_to_index(vec![entry(11, "a")], Some(entry(13, "a"))) {
        Err(Error::AlreadyExists(m)) => assert_eq!(m, "a"),
        other => panic!("{other:?}"),
    }
    // A name that is no UTF-8 is shown repaired.
    let odd = || DirEntry::new(5, &[0x66, 0xff], 1).unwrap();
    match names_to_index(vec![odd()], Some(odd())) {
        Err(Error::AlreadyExists(m)) => assert_eq!(m, "f\u{fffd}"),
        other => panic!("{other:?}"),
    }
}

#[test]
fn hash_order_breaks_ties_by_minor_hash_and_then_name() {
    let mut list = sorted(&[("b", 4), ("c", 2), ("a", 4), ("d", 4)]);
    list[3].minor = 7;
    let out = sort_names(list);
    let names: Vec<&[u8]> = out.iter().map(|s| s.entry.name.as_slice()).collect();
    assert_eq!(names, [b"c".as_slice(), b"a", b"b", b"d"]);
}

#[test]
fn a_search_takes_the_last_entry_not_above_the_hash() {
    let entries = vec![(0, 1), (10, 2), (20, 3)];
    assert_eq!(find(&entries, 0), 0);
    assert_eq!(find(&entries, 9), 0);
    assert_eq!(find(&entries, 10), 1);
    assert_eq!(find(&entries, 19), 1);
    assert_eq!(find(&entries, u32::MAX), 2);
}

#[test]
fn a_run_goes_on_while_the_low_bit_says_so() {
    let entries = vec![(0, 1), (10, 2), (11, 3), (11, 4), (20, 5), (21, 6)];
    assert_eq!(run_of(&entries, 10), [2, 3, 4]);
    assert_eq!(run_of(&entries, 5), [1]);
    assert_eq!(run_of(&entries, 30), [6]);
    assert_eq!(run_of(&entries, 20), [5, 6]);
}

#[test]
fn a_root_leads_to_leaves_or_to_a_node() {
    let root = |levels: u8, offset: Option<usize>| {
        Some(IndexBlock {
            offset,
            levels,
            entries: vec![(0, 7), (8, 9)],
        })
    };
    match leaf_run(&root(0, Some(32)), 8).unwrap() {
        Lookup::Leaves(run) => assert_eq!(run, [9]),
        other => panic!("{other:?}"),
    }
    match leaf_run(&root(1, Some(32)), 3).unwrap() {
        Lookup::Nodes(run) => assert_eq!(run, [7]),
        other => panic!("{other:?}"),
    }
    assert_eq!(leaf_run_below(&vec![root(0, Some(8))], 9).unwrap(), [9]);
}

#[test]
fn a_broken_index_is_refused_by_name() {
    let block = |offset: Option<usize>| {
        Some(IndexBlock {
            offset,
            levels: 0,
            entries: vec![(0, 1)],
        })
    };
    let text = |e: Error| match e {
        Error::Unsupported(m) => m,
        other => panic!("{other:?}"),
    };
    assert_eq!(
        text(leaf_run(&None, 1).unwrap_err()),
        "an indexed directory with no root block"
    );
    assert_eq!(
        text(leaf_run(&block(None), 1).unwrap_err()),
        "a directory claims an index but its first block holds none"
    );
    assert_eq!(
        text(leaf_run(&block(Some(8)), 1).unwrap_err()),
        "a directory's first block is an interior node, not a root"
    );
    assert_eq!(
        text(leaf_run_below(&vec![None], 1).unwrap_err()),
        "an index points at a hole"
    );
    assert_eq!(
        text(leaf_run_below(&vec![block(None)], 1).unwrap_err()),
        "an index points at a block holding no index"
    );
}

#[test]
fn a_parent_is_what_dotdot_names() {
    assert_eq!(parent_of(&[entry(12, "."), entry(7, ".."), entry(9, "..")], 12), 7);
    assert_eq!(parent_of(&[entry(12, ".")], 12), 12);
}

#[test]
fn a_two_level_index_is_laid_out_root_leaves_nodes() {
    let mut plan = plan_index(3, 4096, true).unwrap();
    plan.levels = 1;
    plan.per_node = 2;
    plan.nodes = 2;
    let layout = lay_out(&vec![0, 6, 9], plan);
    // Nodes stand behind the root and the three leaves.
    assert_eq!(layout.root, [(0, 4), (9, 5)]);
    assert_eq!(layout.nodes, [vec![(0, 1), (6, 2)], vec![(0, 3)]]);
}

/// Every name of a rebuilt directory is in one of the leaves that the index
/// gives for its hash.
#[test]
fn a_rebuilt_index_leads_to_every_name() {
    let names: Vec<DirEntry> = (0..400).map(|i| entry(100 + i, &format!("file-{i}"))).collect();
    // Collisions on purpose: long runs of one hash.
    let hashes: Vec<(u32, u32)> = (0..400u32).map(|i| ((i % 7) * 0x20, i)).collect();
    let by_name: Vec<(Vec<u8>, u32)> = names
        .iter()
        .zip(&hashes)
        .map(|(e, h)| (e.name.clone(), h.0))
        .collect();
    let built = rebuild_index(names, &hashes, 1024, true).unwrap();
    assert_eq!(built.plan.levels, 0);
    assert_eq!(built.plan.total, 1 + built.leaves.len());
    let root = Some(IndexBlock {
        offset: Some(32),
        levels: built.plan.levels,
        entries: built.layout.root,
    });
    for (name, hash) in by_name {
        let run = match leaf_run(&root, hash).unwrap() {
            Lookup::Leaves(run) => run,
            other => panic!("{other:?}"),
        };
        assert!(
            run.iter()
                .any(|&leaf| built.leaves[leaf as usize - 1].iter().any(|e| e.name == name)),
            "{name:?} is not where its hash leads"
        );
    }
}

#[test]
fn a_deep_index_leads_to_every_name() {
    let names: Vec<DirEntry> = (0..8000).map(|i| entry(100 + i, &format!("f{i}"))).collect();
    let hashes: Vec<(u32, u32)> = (0..8000u32)
        .map(|i| (i.wrapping_mul(2_654_435_761) & !1, i))
        .collect();
    let by_name: Vec<(Vec<u8>, u32)> = names
        .iter()
        .zip(&hashes)
        .map(|(e, h)| (e.name.clone(), h.0))
        .collect();
    let built = rebuild_index(names, &hashes, 1024, true).unwrap();
    assert_eq!(built.plan.levels, 1);
    let first = 1 + built.leaves.len();
    let root = Some(IndexBlock {
        offset: Some(32),
        levels: 1,
        entries: built.layout.root.clone(),
    });
    for (name, hash) in by_name {
        let asked = match leaf_run(&root, hash).unwrap() {
            Lookup::Nodes(run) => run,
            other => panic!("{other:?}"),
        };
        let nodes: Vec<Option<IndexBlock>> = asked
            .iter()
            .map(|&n| {
                Some(IndexBlock {
                    offset: Some(8),
                    levels: 0,
                    entries: built.layout.nodes[n as usize - first].clone(),
                })
            })
            .collect();
        let run = leaf_run_below(&nodes, hash).unwrap();
        assert!(run
            .iter()
            .any(|&leaf| built.leaves[leaf as usize - 1].iter().any(|e| e.name == name)));
    }
}

#[test]
fn a_run_of_equal_hashes_goes_on_under_the_next_node() {
    let root = Some(IndexBlock {
        offset: Some(32),
        levels: 1,
        entries: vec![(0, 3), (0x1001, 4), (0x2000, 5)],
    });
    match leaf_run(&root, 0x1000).unwrap() {
        Lookup::Nodes(run) => assert_eq!(run, [3, 4]),
        other => panic!("{other:?}"),
    }
    let node = |entries: Vec<(u32, u32)>| {
        Some(IndexBlock {
            offset: Some(8),
            levels: 0,
            entries,
        })
    };
    let first = || node(vec![(0, 10), (0x1000, 11), (0x1001, 12)]);
    let next = || node(vec![(0, 13), (0x1001, 14), (0x1800, 15)]);
    assert_eq!(
        leaf_run_below(&vec![first(), next()], 0x1000).unwrap(),
        [11, 12, 13, 14]
    );
    // One that ends before its node does stays there, whatever comes next.
    assert_eq!(leaf_run_below(&vec![first(), None], 0x800).unwrap(), [10]);
    assert!(leaf_run_below(&vec![first(), None], 0x1000).is_err());
}

#[test]
fn names_with_one_hash_are_found_in_a_deep_index() {
    // Enough names with one hash to fill more leaves than a node covers.
    let names: Vec<DirEntry> = (0..12000).map(|i| entry(100 + i, &format!("f{i:05}"))).collect();
    let hashes: Vec<(u32, u32)> = (0..12000u32)
        .map(|i| if i < 8000 { (0x1000, i) } else { (i * 4, i) })
        .collect();
    let by_name: Vec<(Vec<u8>, u32)> = names
        .iter()
        .zip(&hashes)
        .map(|(e, h)| (e.name.clone(), h.0))
        .collect();
    let built = rebuild_index(names, &hashes, 1024, true).unwrap();
    assert_eq!(built.plan.levels, 1);
    assert!(built.layout.root.iter().any(|e| e.0 & 1 == 1));
    let first = 1 + built.leaves.len();
    let root = Some(IndexBlock {
        offset: Some(32),
        levels: 1,
        entries: built.layout.root.clone(),
    });
    for (name, hash) in by_name.into_iter().step_by(37) {
        let asked = match leaf_run(&root, hash).unwrap() {
            Lookup::Nodes(run) => run,
            other => panic!("{other:?}"),
        };
        let nodes: Vec<Option<IndexBlock>> = asked
            .iter()
            .map(|&n| {
                Some(IndexBlock {
                    offset: Some(8),
                    levels: 0,
                    entries: built.layout.nodes[n as usize - first].clone(),
                })
            })
            .collect();
        let run = leaf_run_below(&nodes, hash).unwrap();
        assert!(run
            .iter()
            .any(|&leaf| built.leaves[leaf as usize - 1].iter().any(|e| e.name == name)));
    }
}
