//! Contents and the blocks that hold them.

use fio_ext4::allocator::{Allocator, Geometry, Got, GroupDesc};
use fio_ext4::error::Error;
use fio_ext4::volume::contents::{
    append, block_at, blocks_needed, has_room_to_free, splice, Next, Resize, Stream, CHUNK,
    INLINE_LIMIT,
};

/// Two groups of eight blocks each, all bitmaps read, the first `used` blocks
/// in use.
fn allocator(used: u32) -> Allocator {
    let geometry = Geometry {
        first_data_block: 1,
        blocks_count: 17,
        blocks_per_group: 8,
        inodes_count: 16,
        inodes_per_group: 8,
        first_ino: 11,
    };
    let desc = |free: u32| GroupDesc {
        free_blocks_count: free,
        free_inodes_count: 8,
        used_dirs_count: 0,
        itable_unused: 0,
        flags: 0,
    };
    let first = used.min(8);
    let mut alloc = Allocator::new(
        geometry,
        vec![desc(8 - first), desc(16 - used - (8 - first))],
        16 - used as u64,
        16,
    );
    alloc.load_block_bitmap(0, vec![((1u32 << first) - 1) as u8]);
    alloc.load_block_bitmap(1, vec![((1u32 << (used - first)) - 1) as u8]);
    alloc
}

fn settle(resize: &mut Resize, alloc: &mut Allocator) {
    match resize.settle(alloc).unwrap() {
        Got::Done(()) => {}
        Got::Unread(g) => panic!("group {g} has been read"),
    }
}

#[test]
fn contents_take_whole_blocks() {
    assert_eq!(blocks_needed(0, 1024), 0);
    assert_eq!(blocks_needed(1, 1024), 1);
    assert_eq!(blocks_needed(1024, 1024), 1);
    assert_eq!(blocks_needed(1025, 1024), 2);
}

#[test]
fn the_last_block_is_padded_with_zeroes() {
    let data: Vec<u8> = (0..10).collect();
    assert_eq!(block_at(&data, 0, 4), [0, 1, 2, 3]);
    assert_eq!(block_at(&data, 2, 4), [8, 9, 0, 0]);
    assert_eq!(block_at(&data, 3, 4), [0; 4]);
}

#[test]
fn what_is_written_in_blocks_reads_back() {
    let data: Vec<u8> = (0..2500u32).map(|i| (i % 251) as u8).collect();
    let n = blocks_needed(data.len(), 1024);
    let mut back = Vec::new();
    for i in 0..n {
        back.extend(block_at(&data, i, 1024));
    }
    back.truncate(data.len());
    assert_eq!(back, data);
}

#[test]
fn a_write_in_the_middle_leaves_the_rest_alone() {
    assert_eq!(splice(b"abcdef".to_vec(), 2, b"XY"), b"abXYef");
    assert_eq!(splice(b"abc".to_vec(), 2, b"XYZ"), b"abXYZ");
    assert_eq!(splice(b"a".to_vec(), 3, b"Z"), [b'a', 0, 0, b'Z']);
    assert_eq!(splice(Vec::new(), 0, b""), b"");
    assert_eq!(splice(b"abc".to_vec(), 3, b"d"), append(b"abc".to_vec(), b"d"));
}

#[test]
fn a_file_shrinks_from_its_end() {
    let mut alloc = allocator(8);
    let mut resize = Resize::file(vec![3, 4, 0, 5], 1);
    assert_eq!(resize.list, [3]);
    // The hole is not given back.
    assert_eq!(resize.surplus, [5, 4]);
    assert!(has_room_to_free(&alloc, 2));
    settle(&mut resize, &mut alloc);
    assert_eq!(resize.list, [3]);
    assert_eq!(alloc.totals().0, 10);
    assert_eq!(alloc.group(0).free_blocks_count, 2);
}

#[test]
fn a_file_grows_near_its_last_block() {
    let mut alloc = allocator(3);
    let mut resize = Resize::file(vec![2], 4);
    settle(&mut resize, &mut alloc);
    assert_eq!(resize.list, [2, 4, 5, 6]);
    assert_eq!(alloc.totals().0, 10);
}

#[test]
fn a_directory_keeps_its_blocks_in_place() {
    let mut alloc = allocator(5);
    let mut resize = Resize::directory(vec![2, 3, 4], 2);
    assert_eq!((resize.list.clone(), resize.surplus.clone()), (vec![2, 3], vec![4]));
    settle(&mut resize, &mut alloc);
    let mut resize = Resize::directory(vec![2, 3], 4);
    settle(&mut resize, &mut alloc);
    assert_eq!(resize.list, [2, 3, 4, 6]);
}

#[test]
fn running_out_of_blocks_says_so() {
    let mut alloc = allocator(15);
    let mut resize = Resize::file(Vec::new(), 2);
    match resize.settle(&mut alloc) {
        Err(Error::NoSpace) => {}
        other => panic!("{other:?}"),
    }
}

#[test]
fn resizing_goes_on_once_a_bitmap_has_been_read() {
    let geometry = allocator(0).geometry();
    let desc = GroupDesc {
        free_blocks_count: 8,
        free_inodes_count: 8,
        used_dirs_count: 0,
        itable_unused: 0,
        flags: 0,
    };
    let mut alloc = Allocator::new(geometry, vec![desc, desc], 16, 16);
    let mut resize = Resize::file(vec![3, 12], 1);
    assert!(matches!(resize.settle(&mut alloc), Ok(Got::Unread(1))));
    alloc.load_block_bitmap(1, vec![0xff]);
    assert!(matches!(resize.settle(&mut alloc), Ok(Got::Done(()))));
    assert_eq!(alloc.group(1).free_blocks_count, 9);
}

/// Run a stream over contents, keeping what is written where.
fn run(data: &[u8], block_size: usize) -> (Stream, std::collections::BTreeMap<u64, Vec<u8>>, bool) {
    let mut stream = Stream::new(block_size);
    let mut disk = std::collections::BTreeMap::new();
    let mut free = 100u64;
    let mut at = 0;
    let mut whole = false;
    loop {
        match stream.next(block_size) {
            Next::Read => {
                let n = (data.len() - at).min(CHUNK - 7);
                stream.read(&data[at..at + n], block_size);
                at += n;
            }
            Next::Whole => {
                whole = true;
                break;
            }
            Next::Create => stream.created(block_size),
            Next::Blocks(n) => {
                let blocks: Vec<u64> = (free..free + n as u64).collect();
                free += n as u64;
                for (block, contents) in stream.flush(&blocks, block_size) {
                    assert!(disk.insert(block, contents).is_none(), "written twice");
                }
            }
            Next::Tail => {
                let contents = stream.tail(free, block_size);
                disk.insert(free, contents);
                free += 1;
            }
            Next::Finish => break,
        }
    }
    (stream, disk, whole)
}

#[test]
fn a_small_file_is_gathered() {
    let data: Vec<u8> = (0..200_000u32).map(|i| (i % 253) as u8).collect();
    let (stream, disk, whole) = run(&data, 4096);
    assert!(whole && disk.is_empty());
    assert_eq!(stream.pending, data);
}

#[test]
fn a_large_file_is_streamed_block_by_block() {
    for extra in [0usize, 1, 4095, 5000] {
        let data: Vec<u8> = (0..INLINE_LIMIT + 70_000 + extra)
            .map(|i| (i % 251) as u8)
            .collect();
        let (stream, disk, whole) = run(&data, 4096);
        assert!(!whole);
        assert_eq!(stream.size, data.len() as u64);
        assert_eq!(stream.list.len(), blocks_needed(data.len(), 4096));
        let mut back: Vec<u8> = Vec::new();
        for block in &stream.list {
            back.extend(&disk[block]);
        }
        assert!(back[data.len()..].iter().all(|&b| b == 0));
        back.truncate(data.len());
        assert!(back == data, "contents differ");
    }
}

#[test]
fn contents_of_exactly_the_limit_are_streamed() {
    let data = vec![7u8; INLINE_LIMIT];
    let (stream, _, whole) = run(&data, 1024);
    assert!(!whole);
    assert_eq!(stream.list.len(), 1024);
}

#[test]
fn what_is_written_fills_the_holes() {
    let mut alloc = allocator(5);
    let mut resize = Resize::file(vec![2, 0, 0, 3], 4);
    assert_eq!(resize.list, [2, 3]);
    settle(&mut resize, &mut alloc);
    assert_eq!(resize.list, [2, 3, 6, 7]);
}
