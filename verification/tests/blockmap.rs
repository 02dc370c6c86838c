//! Which blocks a file has, and how an inode maps them.

use fio_ext4::blockmap::{
    build_indirect_map, entries_per_leaf, extent_tail_offset, goal_of, indirect_blocks_needed,
    leaf_indices, map_metadata_blocks, plan_extent_map, read_block_list, to_extents, Extent,
    ExtentPlan, Visit, HOLE,
};
use fio_ext4::allocator::{Allocator, Geometry, Got, GroupDesc};
use fio_ext4::error::Error;

fn data(logical: u32, physical: u64) -> Visit {
    Visit {
        data: true,
        logical: Some(logical),
        physical,
    }
}

#[test]
fn a_list_has_holes_where_nothing_is_mapped() {
    let meta = Visit {
        data: false,
        logical: None,
        physical: 99,
    };
    let visits = [data(0, 10), meta, data(3, 13)];
    assert_eq!(read_block_list(&visits), [10, HOLE, HOLE, 13]);
    assert_eq!(map_metadata_blocks(&visits), [99]);
}

#[test]
fn contiguous_blocks_become_one_extent() {
    let list = [100, 101, 102, HOLE, 104, 200, 201];
    assert_eq!(
        to_extents(&list),
        [
            Extent { block: 0, len: 3, start: 100 },
            Extent { block: 4, len: 1, start: 104 },
            Extent { block: 5, len: 2, start: 200 },
        ]
    );
    assert_eq!(goal_of(&[HOLE, 7, 8]), 7);
    assert_eq!(goal_of(&[HOLE]), 0);
}

#[test]
fn an_extent_covers_no_more_than_it_can() {
    let list: Vec<u64> = (1000..1000 + 40_000).collect();
    let extents = to_extents(&list);
    assert_eq!(extents.len(), 2);
    assert_eq!(extents[0].len as usize + extents[1].len as usize, 40_000);
    assert!(extents[0].len < 32768);
    assert_eq!(extents[1].block, extents[0].len as u32);
}

#[test]
fn four_extents_fit_in_an_inode_and_five_take_a_leaf() {
    let list: Vec<u64> = (0..4).map(|i| 10 + 2 * i).collect();
    assert!(matches!(plan_extent_map(&list, 1024), Ok(ExtentPlan::Inline(e)) if e.len() == 4));
    let list: Vec<u64> = (0..90).map(|i| 10 + 2 * i).collect();
    match plan_extent_map(&list, 1024) {
        Ok(ExtentPlan::Leaves(leaves)) => {
            assert_eq!(entries_per_leaf(1024), 84);
            assert_eq!(leaves.len(), 2);
            assert_eq!((leaves[0].len(), leaves[1].len()), (84, 6));
            assert_eq!(leaf_indices(&leaves, &vec![500, 600]), [(0, 500), (84, 600)]);
        }
        other => panic!("{other:?}"),
    }
    // Five leaves would not fit in the inode.
    let list: Vec<u64> = (0..84 * 4 + 1).map(|i| 10 + 2 * i).collect();
    assert!(matches!(plan_extent_map(&list, 1024), Err(Error::Unsupported(_))));
}

#[test]
fn the_checksum_of_an_extent_leaf_stands_behind_its_entries() {
    assert_eq!(extent_tail_offset(84), 12 + 84 * 12);
    assert_eq!(extent_tail_offset(340), 4092);
}

#[test]
fn indirect_blocks_map_what_the_inode_cannot() {
    let list: Vec<u64> = (1000..1012).collect();
    assert_eq!(indirect_blocks_needed(&list, 1024), 0);
    let map = build_indirect_map(&list, 1024, &[]).unwrap();
    assert_eq!(map.pointers[..12], (1000..1012).collect::<Vec<u32>>()[..]);
    assert_eq!(map.pointers[12..], [0, 0, 0]);
    assert!(map.writes.is_empty());

    // One more than direct and single indirection reach: 12 + 256 + 1.
    let list: Vec<u64> = (1000..1269).collect();
    assert_eq!(indirect_blocks_needed(&list, 1024), 3);
    let map = build_indirect_map(&list, 1024, &[5, 6, 7]).unwrap();
    assert_eq!(map.pointers[12], 5);
    assert_ne!(map.pointers[13], 0);
    assert_eq!(map.pointers[14], 0);
    assert_eq!(map.writes.len(), 3);
    let single = &map.writes.iter().find(|(b, _)| *b == 5).unwrap().1;
    assert_eq!(single.len(), 1024);
    assert_eq!(single[..4], 1012u32.to_le_bytes());
    assert_eq!(single[1020..], 1267u32.to_le_bytes());
}

#[test]
fn a_map_by_pointers_reads_back() {
    let list: Vec<u64> = (0..5000).map(|i| if i % 3 == 1 { HOLE } else { 10_000 + i }).collect();
    let needed = indirect_blocks_needed(&list, 1024);
    let meta: Vec<u64> = (100..100 + needed).collect();
    let map = build_indirect_map(&list, 1024, &meta).unwrap();
    let blocks: std::collections::BTreeMap<u64, Vec<u8>> = map.writes.into_iter().collect();
    fn walk(
        blocks: &std::collections::BTreeMap<u64, Vec<u8>>,
        at: u64,
        level: u32,
        out: &mut Vec<u64>,
    ) {
        if level == 0 {
            out.push(at);
        } else if at == HOLE {
            out.extend(vec![HOLE; 256usize.pow(level)]);
        } else {
            for p in blocks[&at].chunks(4) {
                let p = u32::from_le_bytes([p[0], p[1], p[2], p[3]]) as u64;
                walk(blocks, p, level - 1, out);
            }
        }
    }
    let mut out = Vec::new();
    for (i, &p) in map.pointers.iter().enumerate() {
        walk(&blocks, p as u64, i.saturating_sub(11) as u32, &mut out);
        if out.len() > list.len() {
            break;
        }
    }
    assert_eq!(out[..list.len()], list[..]);
    assert!(out[list.len()..].iter().all(|&b| b == HOLE));
}

#[test]
fn a_map_is_kept_in_blocks_that_were_free() {
    let p = 256;
    for (n, needed) in [(0, 0), (12, 0), (13, 1), (268, 1), (269, 3), (524, 3), (525, 4)] {
        let list: Vec<u64> = (0..n).map(|i| 100 + i).collect();
        assert_eq!(indirect_blocks_needed(&list, 4 * p), needed);
    }

    let geometry = Geometry {
        first_data_block: 1,
        blocks_count: 8193,
        blocks_per_group: 8192,
        inodes_count: 16,
        inodes_per_group: 16,
        first_ino: 11,
    };
    let desc = GroupDesc {
        free_blocks_count: 8192,
        free_inodes_count: 16,
        used_dirs_count: 0,
        itable_unused: 0,
        flags: 0,
    };
    let mut alloc = Allocator::new(geometry, vec![desc], 8192, 16);
    alloc.load_block_bitmap(0, vec![0; 1024]);
    let take = |alloc: &mut Allocator, count: u64| {
        let mut blocks = Vec::new();
        assert!(matches!(alloc.alloc_blocks(50, count, &mut blocks).unwrap(), Got::Done(())));
        blocks
    };
    let list = take(&mut alloc, 700);
    let meta = take(&mut alloc, indirect_blocks_needed(&list, 1024));
    assert_eq!(meta.len(), 4);
    assert!(meta.iter().all(|b| *b != HOLE && !list.contains(b)));
    let map = build_indirect_map(&list, 1024, &meta).unwrap();
    let mut written: Vec<u64> = map.writes.iter().map(|w| w.0).collect();
    written.sort();
    assert_eq!(written, meta);
}
