//! Blocks and inodes, allocated and given back.

use fio_ext4::allocator::{Allocator, Geometry, Got, GroupDesc, BLOCK_UNINIT, INODE_UNINIT};
use fio_ext4::bitmap::test_bit;
use fio_ext4::error::Error;

fn geometry() -> Geometry {
    Geometry {
        first_data_block: 1,
        blocks_count: 33,
        blocks_per_group: 16,
        inodes_count: 32,
        inodes_per_group: 16,
        first_ino: 11,
    }
}

fn desc() -> GroupDesc {
    GroupDesc {
        free_blocks_count: 16,
        free_inodes_count: 16,
        used_dirs_count: 0,
        itable_unused: 16,
        flags: BLOCK_UNINIT | INODE_UNINIT,
    }
}

fn fresh() -> Allocator {
    Allocator::new(geometry(), vec![desc(), desc()], 32, 32)
}

fn ready() -> Allocator {
    let mut alloc = fresh();
    for g in 0..2 {
        alloc.load_block_bitmap(g, vec![0, 0]);
        alloc.load_inode_bitmap(g, vec![0, 0]);
    }
    alloc
}

fn block(alloc: &mut Allocator, goal: u64) -> u64 {
    match alloc.alloc_block(goal).unwrap() {
        Got::Done(b) => b,
        Got::Unread(g) => panic!("group {g} has been read"),
    }
}

fn inode(alloc: &mut Allocator, near: u32, is_dir: bool) -> u32 {
    match alloc.alloc_inode(near, is_dir).unwrap() {
        Got::Done(i) => i,
        Got::Unread(g) => panic!("group {g} has been read"),
    }
}

#[test]
fn the_goal_itself_is_handed_out_when_it_is_free() {
    let mut alloc = ready();
    assert_eq!(block(&mut alloc, 20), 20);
    assert_eq!(block(&mut alloc, 20), 21);
    assert_eq!(block(&mut alloc, 0), 1);
    assert_eq!(block(&mut alloc, 99), 2);
}

#[test]
fn a_search_wraps_within_its_group_and_goes_on_to_the_next() {
    let mut alloc = ready();
    for want in 30..33 {
        assert_eq!(block(&mut alloc, 30), want);
    }
    // The end of the group is full; its start is not.
    assert_eq!(block(&mut alloc, 30), 17);
    for _ in 0..12 {
        block(&mut alloc, 30);
    }
    // The group is full; the other one is not.
    assert_eq!(block(&mut alloc, 30), 1);
}

#[test]
fn counters_move_with_the_bitmaps() {
    let mut alloc = ready();
    let b = block(&mut alloc, 5);
    assert_eq!(alloc.totals(), (31, 32));
    assert_eq!(alloc.group(0).free_blocks_count, 15);
    assert_eq!(alloc.group(0).flags & BLOCK_UNINIT, 0);
    assert_eq!(alloc.group(1).flags & BLOCK_UNINIT, BLOCK_UNINIT);
    assert!(matches!(alloc.free_block(b), Got::Done(())));
    assert_eq!(alloc.totals(), (32, 32));
    assert_eq!(alloc.group(0).free_blocks_count, 16);
}

#[test]
fn freeing_twice_counts_once() {
    let mut alloc = ready();
    let b = block(&mut alloc, 5);
    alloc.free_block(b);
    alloc.free_block(b);
    alloc.free_block(0);
    alloc.free_block(1000);
    assert_eq!(alloc.totals(), (32, 32));
}

#[test]
fn a_full_filesystem_says_so() {
    let mut alloc = ready();
    for _ in 0..32 {
        block(&mut alloc, 0);
    }
    assert!(matches!(alloc.alloc_block(0), Err(Error::NoSpace)));
    assert_eq!(alloc.totals().0, 0);
    for _ in 0..22 {
        inode(&mut alloc, 1, false);
    }
    assert!(matches!(alloc.alloc_inode(1, false), Err(Error::NoInodes)));
}

#[test]
fn a_run_of_blocks_is_contiguous_where_it_can_be() {
    let mut alloc = ready();
    block(&mut alloc, 6);
    let mut blocks = Vec::new();
    assert!(matches!(alloc.alloc_blocks(4, 4, &mut blocks), Ok(Got::Done(()))));
    assert_eq!(blocks, [4, 5, 7, 8]);
}

#[test]
fn reserved_inodes_are_never_handed_out() {
    let mut alloc = ready();
    assert_eq!(inode(&mut alloc, 2, false), 11);
    assert_eq!(inode(&mut alloc, 2, true), 12);
    assert_eq!(alloc.group(0).used_dirs_count, 1);
    assert_eq!(alloc.group(0).free_inodes_count, 14);
    assert_eq!(alloc.group(0).flags & INODE_UNINIT, 0);
    // Near an inode of the other group.
    assert_eq!(inode(&mut alloc, 20, false), 17);
    assert!(matches!(alloc.free_inode(12, true), Got::Done(())));
    assert_eq!(alloc.group(0).used_dirs_count, 0);
    assert_eq!(alloc.totals(), (32, 30));
    assert_eq!(inode(&mut alloc, 2, false), 12);
}

#[test]
fn bitmaps_are_asked_for_when_they_are_needed() {
    let mut alloc = fresh();
    assert!(matches!(alloc.alloc_block(20), Ok(Got::Unread(1))));
    alloc.load_block_bitmap(1, vec![0xff, 0xff]);
    assert!(matches!(alloc.alloc_block(20), Ok(Got::Unread(0))));
    assert!(matches!(alloc.free_block(3), Got::Unread(0)));
    assert!(matches!(alloc.alloc_inode(3, false), Ok(Got::Unread(0))));
    assert!(matches!(alloc.free_inode(30, false), Got::Unread(1)));
    assert!(!alloc.cache().is_dirty());
}

#[test]
fn only_changed_bitmaps_are_written_back() {
    let mut alloc = ready();
    assert!(!alloc.cache().is_dirty());
    let b = block(&mut alloc, 20);
    assert!(alloc.cache().is_dirty());
    let (blocks, inodes) = alloc.flush();
    assert_eq!(blocks.len(), 1);
    assert!(inodes.is_empty());
    assert_eq!(blocks[0].group, 1);
    assert_eq!(blocks[0].covered, 2);
    assert!(test_bit(&blocks[0].bitmap, b - 17));
    alloc.flushed();
    assert!(!alloc.cache().is_dirty());
    assert!(alloc.flush().0.is_empty());
}

#[test]
fn a_geometry_has_to_fit_together() {
    assert!(geometry().is_valid());
    assert_eq!(geometry().group_count(), 2);
    let mut none = geometry();
    none.blocks_per_group = 0;
    assert!(!none.is_valid());
    let mut none = geometry();
    none.inodes_per_group = 0;
    assert!(!none.is_valid());
    let mut empty = geometry();
    empty.blocks_count = 1;
    assert!(!empty.is_valid());
}

#[test]
fn counters_at_their_end_are_noticed() {
    assert!(fresh().can_count_inodes());
    let mut full = desc();
    full.used_dirs_count = u32::MAX;
    assert!(!Allocator::new(geometry(), vec![desc(), full], 32, 32).can_count_inodes());
    assert!(!Allocator::new(geometry(), vec![desc(), desc()], 32, u32::MAX).can_count_inodes());
}

#[test]
fn after_a_flush_there_is_nothing_to_write() {
    let mut alloc = ready();
    block(&mut alloc, 0);
    inode(&mut alloc, 1, false);
    assert!(alloc.cache().is_dirty());
    let (blocks, inodes) = alloc.flush();
    assert_eq!((blocks.len(), inodes.len()), (1, 1));
    alloc.flushed();
    assert!(!alloc.cache().is_dirty());
    let (blocks, inodes) = alloc.flush();
    assert!(blocks.is_empty() && inodes.is_empty());
}

#[test]
fn a_free_block_is_left_alone_however_full_the_counter() {
    let mut full = desc();
    full.free_blocks_count = u32::MAX;
    let mut alloc = Allocator::new(geometry(), vec![full, desc()], u64::MAX, 32);
    alloc.load_block_bitmap(0, vec![0, 0]);
    assert!(matches!(alloc.free_block(3), Got::Done(())));
    assert_eq!(alloc.totals().0, u64::MAX);
}

#[test]
fn what_is_flushed_is_found_again() {
    let mut alloc = ready();
    let mut disk = [vec![0u8, 0], vec![0, 0], vec![0, 0], vec![0, 0]];
    for goal in [3, 20, 21] {
        block(&mut alloc, goal);
    }
    inode(&mut alloc, 1, true);
    let (blocks, inodes) = alloc.flush();
    for d in blocks {
        disk[d.group as usize] = d.bitmap;
    }
    for d in inodes {
        disk[2 + d.group as usize] = d.bitmap;
    }
    alloc.flushed();
    let (free_blocks, free_inodes) = alloc.totals();
    let groups = vec![alloc.group(0), alloc.group(1)];
    let mut again = Allocator::new(geometry(), groups, free_blocks, free_inodes);
    for g in 0..2 {
        again.load_block_bitmap(g, disk[g as usize].clone());
        again.load_inode_bitmap(g, disk[2 + g as usize].clone());
    }
    assert_eq!(again.totals(), (29, 31));
    assert_eq!(again.group(0).used_dirs_count, 1);
    assert!(!again.cache().is_dirty());
    for goal in [3, 20, 21, 22] {
        assert_eq!(block(&mut again, goal), block(&mut alloc, goal));
    }
    assert_eq!(inode(&mut again, 1, false), inode(&mut alloc, 1, false));
}
