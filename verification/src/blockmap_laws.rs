//! What holds of block maps.

use vstd::prelude::*;

use crate::allocator::{self, AllocView};
use crate::allocator_laws;
use crate::blockmap::{self, Extent, Visit};
use crate::bytes;

verus! {

/// The block an extent map gives for a place in the file, or a hole.
pub open spec fn mapped(extents: Seq<Extent>, logical: int) -> u64
    decreases extents.len(),
{
    if extents.len() == 0 {
        blockmap::HOLE
    } else {
        let e = extents.last();
        if e.block <= logical < e.block + e.len {
            (e.start + (logical - e.block)) as u64
        } else {
            mapped(extents.drop_last(), logical)
        }
    }
}

/// Whether every extent is within what one can cover, and they follow each
/// other without overlapping, ending before `n`.
pub open spec fn in_order(extents: Seq<Extent>, n: int) -> bool {
    &&& forall|i: int| 0 <= i < extents.len() ==> 1 <= (#[trigger] extents[i]).len < blockmap::INIT_MAX_LEN
    &&& forall|i: int, j: int|
        0 <= i < j < extents.len() ==> (#[trigger] extents[i]).block + extents[i].len <= (
        #[trigger] extents[j]).block
    &&& extents.len() > 0 ==> extents.last().block + extents.last().len <= n
}

proof fn lemma_mapped_past(extents: Seq<Extent>, n: int, logical: int)
    requires
        in_order(extents, n),
        n <= logical,
    ensures
        mapped(extents, logical) == blockmap::HOLE,
    decreases extents.len(),
{
    if extents.len() > 0 {
        let init = extents.drop_last();
        let last = extents[extents.len() - 1];
        assert forall|i: int, j: int| 0 <= i < j < init.len() implies (#[trigger] init[i]).block
            + init[i].len <= (#[trigger] init[j]).block by {
            assert(extents[i].block + extents[i].len <= extents[j].block);
        }
        assert(1 <= extents[extents.len() - 1].len);
        if init.len() > 0 {
            assert(extents[init.len() - 1].block + extents[init.len() - 1].len <= last.block);
        }
        assert forall|i: int| 0 <= i < init.len() implies 1 <= (#[trigger] init[i]).len
            < blockmap::INIT_MAX_LEN by {
            assert(1 <= extents[i].len);
        }
        lemma_mapped_past(init, n, logical);
    }
}

proof fn lemma_coalesced(list: Seq<u64>, n: int)
    requires
        0 <= n <= list.len(),
        list.len() <= 0x1_0000_0000,
    ensures
        in_order(blockmap::coalesced(list, n), n),
        forall|i: int| 0 <= i < n ==> mapped(blockmap::coalesced(list, n), i) == #[trigger] list[i],
    decreases n,
{
    if n > 0 {
        lemma_coalesced(list, n - 1);
        let before = blockmap::coalesced(list, n - 1);
        let after = blockmap::coalesced(list, n);
        let physical = list[n - 1];
        if physical == blockmap::HOLE {
            lemma_mapped_past(before, n - 1, n - 1);
        } else if blockmap::continues(before, n - 1, physical) {
            let k = before.len() - 1;
            let last = before[k];
            assert(after.drop_last() =~= before.drop_last());
            assert forall|i: int, j: int| 0 <= i < j < after.len() implies (
            #[trigger] after[i]).block + after[i].len <= (#[trigger] after[j]).block by {
                assert(before[i].block + before[i].len <= before[j].block);
            }
            assert forall|i: int| 0 <= i < after.len() implies 1 <= (#[trigger] after[i]).len
                < blockmap::INIT_MAX_LEN by {
                assert(1 <= before[i].len);
            }
            assert forall|i: int| 0 <= i < n implies mapped(after, i) == #[trigger] list[i] by {
                if i < n - 1 {
                    assert(mapped(before, i) == list[i]);
                }
            }
        } else {
            assert(after.drop_last() =~= before);
            assert forall|i: int, j: int| 0 <= i < j < after.len() implies (
            #[trigger] after[i]).block + after[i].len <= (#[trigger] after[j]).block by {
                if j < before.len() {
                    assert(before[i].block + before[i].len <= before[j].block);
                } else if i < before.len() - 1 {
                    let k = before.len() - 1;
                    assert(before[i].block + before[i].len <= before[k].block);
                    assert(1 <= before[k].len);
                }
            }
            assert forall|i: int| 0 <= i < after.len() implies 1 <= (#[trigger] after[i]).len
                < blockmap::INIT_MAX_LEN by {
                if i < before.len() {
                    assert(1 <= before[i].len);
                }
            }
            assert forall|i: int| 0 <= i < n implies mapped(after, i) == #[trigger] list[i] by {
                if i < n - 1 {
                    assert(mapped(before, i) == list[i]);
                }
            }
        }
    }
}

/// Extents made of a block list give back every block of it, holes where it
/// has holes and past its end; they follow each other without overlapping, and
/// none is longer than an extent can be.
pub proof fn law_extents_give_the_list_back(list: Seq<u64>)
    requires
        list.len() <= 0x1_0000_0000,
    ensures
        ({
            let extents = blockmap::coalesced(list, list.len() as int);
            &&& in_order(extents, list.len() as int)
            &&& forall|i: int| 0 <= i < list.len() ==> mapped(extents, i) == #[trigger] list[i]
            &&& forall|i: int|
                i >= list.len() ==> #[trigger] mapped(extents, i) == blockmap::HOLE
        }),
{
    let extents = blockmap::coalesced(list, list.len() as int);
    lemma_coalesced(list, list.len() as int);
    assert forall|i: int| i >= list.len() implies #[trigger] mapped(extents, i) == blockmap::HOLE by {
        lemma_mapped_past(extents, list.len() as int, i);
    }
}

/// All the extents in all the leaves.
pub open spec fn flattened(leaves: Seq<Seq<Extent>>) -> Seq<Extent>
    decreases leaves.len(),
{
    if leaves.len() == 0 {
        Seq::empty()
    } else {
        leaves[0] + flattened(leaves.skip(1))
    }
}

/// Leaves hold every extent, in order, none is empty and none holds more than
/// fits.
pub proof fn law_leaves_hold_every_extent(extents: Seq<Extent>, per_leaf: int)
    requires
        per_leaf > 0,
    ensures
        ({
            let leaves = blockmap::chunked(extents, per_leaf);
            &&& flattened(leaves) == extents
            &&& leaves.len() == blockmap::leaf_count(extents.len(), per_leaf as nat)
            &&& forall|i: int|
                0 <= i < leaves.len() ==> 0 < (#[trigger] leaves[i]).len() <= per_leaf
        }),
    decreases extents.len(),
{
    let leaves = blockmap::chunked(extents, per_leaf);
    let n = extents.len() as int;
    if extents.len() == 0 {
        assert(flattened(leaves) =~= extents);
        assert((n + per_leaf - 1) / per_leaf == 0) by (nonlinear_arith)
            requires
                n == 0,
                per_leaf > 0,
        ;
    } else if extents.len() <= per_leaf {
        assert(leaves.skip(1) =~= Seq::empty());
        assert(flattened(leaves.skip(1)) =~= Seq::empty());
        assert(flattened(leaves) =~= extents);
        assert((n + per_leaf - 1) / per_leaf == 1) by (nonlinear_arith)
            requires
                1 <= n <= per_leaf,
        ;
    } else {
        let rest = extents.skip(per_leaf);
        law_leaves_hold_every_extent(rest, per_leaf);
        let more = blockmap::chunked(rest, per_leaf);
        assert(leaves.skip(1) =~= more);
        assert(flattened(leaves) =~= extents.take(per_leaf) + rest);
        assert(extents.take(per_leaf) + rest =~= extents);
        let m = n - per_leaf;
        assert((n + per_leaf - 1) / per_leaf == (m + per_leaf - 1) / per_leaf + 1)
            by (nonlinear_arith)
            requires
                m == n - per_leaf,
                per_leaf > 0,
        ;
        assert forall|i: int| 0 <= i < leaves.len() implies 0 < (#[trigger] leaves[i]).len()
            <= per_leaf by {
            if i > 0 {
                assert(leaves[i] == more[i - 1]);
            }
        }
    }
}

/// The checksum of an extent leaf stands behind the last entry and inside the
/// block, whatever power of two the block size is.
pub proof fn law_leaf_checksum_fits(block_size: nat)
    requires
        block_size >= 1024,
        block_size % 12 >= 4,
    ensures
        blockmap::tail_offset(blockmap::leaf_entries(block_size)) + 4 <= block_size,
        blockmap::tail_offset(blockmap::leaf_entries(block_size)) == 12 + 12 * blockmap::leaf_entries(block_size),
{
}

/// Follow pointers down `level` levels from `root` to the block that stands
/// in place `i`. A pointer to nothing stands for holes all the way down.
pub open spec fn followed(
    level: nat,
    root: u64,
    i: int,
    store: Map<u64, Seq<u8>>,
    per_block: nat,
) -> u64
    decreases level,
{
    if level == 0 || root == blockmap::HOLE {
        root
    } else {
        let size = blockmap::reach((level - 1) as nat, per_block) as int;
        followed(
            (level - 1) as nat,
            bytes::get32(store[root], 4 * (i / size)) as u64,
            i % size,
            store,
            per_block,
        )
    }
}

/// The block that an inode's pointers lead to for a place in the file: the
/// direct ones first, then those with one level, two and three between.
pub open spec fn walked(
    pointers: Seq<u32>,
    store: Map<u64, Seq<u8>>,
    logical: int,
    per_block: nat,
) -> u64 {
    if logical < 12 {
        pointers[logical] as u64
    } else {
        let level: nat = if logical < blockmap::level_start(2, per_block) {
            1
        } else if logical < blockmap::level_start(3, per_block) {
            2
        } else {
            3
        };
        followed(
            level,
            pointers[(11 + level) as int] as u64,
            logical - blockmap::level_start(level, per_block),
            store,
            per_block,
        )
    }
}

/// What stands where after writing blocks one after the other.
pub open spec fn stored(writes: Seq<(u64, Seq<u8>)>) -> Map<u64, Seq<u8>>
    decreases writes.len(),
{
    if writes.len() == 0 {
        Map::empty()
    } else {
        stored(writes.drop_last()).insert(writes.last().0, writes.last().1)
    }
}

/// The block of a list in a place, and a hole past its end.
pub open spec fn block_at(list: Seq<u64>, logical: int) -> u64 {
    if logical < list.len() {
        list[logical]
    } else {
        blockmap::HOLE
    }
}

/// Whether a store holds everything that was written.
spec fn holds_all(store: Map<u64, Seq<u8>>, writes: Seq<(u64, Seq<u8>)>) -> bool {
    forall|i: int| 0 <= i < writes.len() ==> store[(#[trigger] writes[i]).0] == writes[i].1
}

/// Whether no two writes go to one block, and each goes to one of `blocks`.
spec fn spread_over(writes: Seq<(u64, Seq<u8>)>, blocks: Seq<u64>) -> bool {
    &&& forall|i: int| 0 <= i < writes.len() ==> blocks.contains((#[trigger] writes[i]).0)
    &&& forall|i: int, j: int|
        0 <= i < j < writes.len() ==> (#[trigger] writes[i]).0 != (#[trigger] writes[j]).0
}

proof fn lemma_stored(writes: Seq<(u64, Seq<u8>)>, blocks: Seq<u64>)
    requires
        spread_over(writes, blocks),
    ensures
        holds_all(stored(writes), writes),
    decreases writes.len(),
{
    if writes.len() > 0 {
        let front = writes.drop_last();
        assert(spread_over(front, blocks)) by {
            assert forall|i: int| 0 <= i < front.len() implies blocks.contains(
                (#[trigger] front[i]).0,
            ) by {
                assert(front[i] == writes[i]);
            }
            assert forall|i: int, j: int| 0 <= i < j < front.len() implies (
            #[trigger] front[i]).0 != (#[trigger] front[j]).0 by {
                assert(front[i] == writes[i] && front[j] == writes[j]);
            }
        }
        lemma_stored(front, blocks);
        assert forall|i: int| 0 <= i < writes.len() implies stored(writes)[(
        #[trigger] writes[i]).0] == writes[i].1 by {
            if i < front.len() {
                assert(front[i] == writes[i]);
                assert(writes[i].0 != writes[writes.len() - 1].0);
            }
        }
    }
}

/// Writes that go to two runs of blocks, one behind the other.
proof fn lemma_spread_join(
    one: Seq<(u64, Seq<u8>)>,
    other: Seq<(u64, Seq<u8>)>,
    blocks: Seq<u64>,
    at: int,
    end: int,
)
    requires
        0 <= at <= end <= blocks.len(),
        blocks.no_duplicates(),
        spread_over(one, blocks.take(at)),
        spread_over(other, blocks.subrange(at, end)),
    ensures
        spread_over(one + other, blocks.take(end)),
{
    let both = one + other;
    let head = blocks.take(at);
    let tail = blocks.subrange(at, end);
    let all = blocks.take(end);
    assert forall|i: int| 0 <= i < both.len() implies all.contains((#[trigger] both[i]).0) by {
        if i < one.len() {
            assert(head.contains(one[i].0));
            let k = choose|k: int| 0 <= k < head.len() && head[k] == one[i].0;
            assert(all[k] == both[i].0);
        } else {
            assert(tail.contains(other[i - one.len()].0));
            let k = choose|k: int| 0 <= k < tail.len() && tail[k] == other[i - one.len()].0;
            assert(all[at + k] == both[i].0);
        }
    }
    assert forall|i: int, j: int| 0 <= i < j < both.len() implies (#[trigger] both[i]).0 != (
    #[trigger] both[j]).0 by {
        if j < one.len() {
            assert(one[i].0 != one[j].0);
        } else if i >= one.len() {
            assert(other[i - one.len()].0 != other[j - one.len()].0);
        } else {
            assert(head.contains(one[i].0));
            assert(tail.contains(other[j - one.len()].0));
            let k = choose|k: int| 0 <= k < head.len() && head[k] == one[i].0;
            let l = choose|l: int| 0 <= l < tail.len() && tail[l] == other[j - one.len()].0;
            assert(blocks[k] == both[i].0 && blocks[at + l] == both[j].0);
        }
    }
}

proof fn lemma_tree_spread(level: nat, part: Seq<u64>, meta: Seq<u64>, per_block: nat)
    requires
        level >= 1,
        per_block >= 1,
        blockmap::tree_size(level, part.len(), per_block) <= meta.len(),
        meta.no_duplicates(),
    ensures
        spread_over(
            blockmap::tree(level, part, meta, per_block).blocks,
            meta.take(blockmap::tree_size(level, part.len(), per_block) as int),
        ),
    decreases level, 0nat,
{
    let t = blockmap::tree(level, part, meta, per_block);
    let n = blockmap::tree_size(level, part.len(), per_block) as int;
    let all = meta.take(n);
    if level == 1 {
        assert(all[0] == t.blocks[0].0);
    } else {
        let lower = (level - 1) as nat;
        let metas = meta.skip(1);
        let k = blockmap::kids(lower, part, metas, per_block);
        assert forall|i: int, j: int| 0 <= i < metas.len() && 0 <= j < metas.len() && i
            != j implies metas[i] != metas[j] by {
            assert(metas[i] == meta[i + 1] && metas[j] == meta[j + 1]);
        }
        lemma_kids_spread(lower, part, metas, per_block);
        let top = seq![(meta[0], blockmap::pointer_block(k.roots, 4 * per_block))];
        let below = metas.take(n - 1);
        assert(below =~= meta.subrange(1, n));
        assert(meta.take(1)[0] == top[0].0);
        assert(spread_over(top, meta.take(1)));
        lemma_spread_join(top, k.blocks, meta, 1, n);
        let joined = top + k.blocks;
        assert forall|i: int| 0 <= i < t.blocks.len() implies all.contains(
            (#[trigger] t.blocks[i]).0,
        ) by {
            let at = if i < k.blocks.len() {
                i + 1
            } else {
                0
            };
            assert(joined[at] == t.blocks[i]);
        }
        assert forall|i: int, j: int| 0 <= i < j < t.blocks.len() implies (
        #[trigger] t.blocks[i]).0 != (#[trigger] t.blocks[j]).0 by {
            assert(joined[i + 1] == t.blocks[i]);
            if j < k.blocks.len() {
                assert(joined[j + 1] == t.blocks[j]);
            } else {
                assert(joined[0] == t.blocks[j]);
            }
        }
    }
}

proof fn lemma_kids_spread(level: nat, part: Seq<u64>, meta: Seq<u64>, per_block: nat)
    requires
        level >= 1,
        per_block >= 1,
        blockmap::kids_size(level, part.len(), per_block) <= meta.len(),
        meta.no_duplicates(),
    ensures
        spread_over(
            blockmap::kids(level, part, meta, per_block).blocks,
            meta.take(blockmap::kids_size(level, part.len(), per_block) as int),
        ),
    decreases level, part.len() + 1,
{
    lemma_reach_positive(level, per_block);
    let size = blockmap::reach(level, per_block) as int;
    if part.len() > 0 {
        let n = if part.len() <= size {
            part.len() as int
        } else {
            size
        };
        let head = part.take(n);
        let first = blockmap::tree(level, head, meta, per_block);
        blockmap::lemma_tree_used(level, head, meta, per_block);
        let rest_meta = meta.skip(first.used as int);
        let tail = part.skip(n);
        assert(part.len() <= size ==> tail.len() == 0);
        let more = blockmap::kids_size(level, tail.len(), per_block) as int;
        let total = blockmap::kids_size(level, part.len(), per_block) as int;
        assert(more + first.used == total);
        assert forall|i: int, j: int| 0 <= i < rest_meta.len() && 0 <= j < rest_meta.len() && i
            != j implies rest_meta[i] != rest_meta[j] by {
            assert(rest_meta[i] == meta[i + first.used] && rest_meta[j] == meta[j + first.used]);
        }
        lemma_tree_spread(level, head, meta, per_block);
        lemma_kids_spread(level, tail, rest_meta, per_block);
        assert(rest_meta.take(more) =~= meta.subrange(first.used as int, total));
        lemma_spread_join(
            first.blocks,
            blockmap::kids(level, tail, rest_meta, per_block).blocks,
            meta,
            first.used as int,
            total,
        );
    }
}

proof fn lemma_pointer_read(entries: Seq<u64>, per_block: nat, j: int)
    requires
        entries.len() <= per_block,
        0 <= j < per_block,
        all_small(entries),
    ensures
        bytes::get32(blockmap::pointer_block(entries, 4 * per_block), 4 * j) as u64 == block_at(
            entries,
            j,
        ),
{
    let b = blockmap::pointer_block(entries, 4 * per_block);
    assert((4 * j) / 4 == j && (4 * j + 1) / 4 == j && (4 * j + 2) / 4 == j && (4 * j + 3) / 4
        == j);
    assert((4 * j) % 4 == 0 && (4 * j + 1) % 4 == 1 && (4 * j + 2) % 4 == 2 && (4 * j + 3) % 4
        == 3);
    if j < entries.len() {
        let p = blockmap::pointer(entries[j]);
        assert(b[4 * j] == bytes::le32(p)[0]);
        assert(b[4 * j + 1] == bytes::le32(p)[1]);
        assert(b[4 * j + 2] == bytes::le32(p)[2]);
        assert(b[4 * j + 3] == bytes::le32(p)[3]);
    } else {
        assert(b[4 * j] == 0 && b[4 * j + 1] == 0 && b[4 * j + 2] == 0 && b[4 * j + 3] == 0);
    }
}

proof fn lemma_reach_positive(level: nat, per_block: nat)
    requires
        per_block >= 1,
    ensures
        blockmap::reach(level, per_block) >= 1,
    decreases level,
{
    if level > 0 {
        lemma_reach_positive((level - 1) as nat, per_block);
        let r = blockmap::reach((level - 1) as nat, per_block);
        assert(per_block * r >= 1) by (nonlinear_arith)
            requires
                per_block >= 1,
                r >= 1,
        ;
    }
}

/// Every number in `s` fits in 32 bits.
pub open spec fn all_small(s: Seq<u64>) -> bool {
    forall|i: int| 0 <= i < s.len() ==> #[trigger] s[i] < 0x1_0000_0000
}

/// Blocks that pointers can be kept in: each fits in 32 bits and is one.
pub open spec fn all_blocks(s: Seq<u64>) -> bool {
    forall|i: int| 0 <= i < s.len() ==> blockmap::HOLE < #[trigger] s[i] < 0x1_0000_0000
}

proof fn lemma_blocks_behind(meta: Seq<u64>, n: int)
    requires
        all_blocks(meta),
        0 <= n <= meta.len(),
    ensures
        all_blocks(meta.skip(n)),
{
    let rest = meta.skip(n);
    assert forall|j: int| 0 <= j < rest.len() implies blockmap::HOLE < #[trigger] rest[j]
        < 0x1_0000_0000 by {
        assert(rest[j] == meta[j + n]);
    }
}

proof fn lemma_tree_followed(
    level: nat,
    part: Seq<u64>,
    meta: Seq<u64>,
    per_block: nat,
    store: Map<u64, Seq<u8>>,
    i: int,
)
    requires
        level >= 1,
        per_block >= 1,
        part.len() <= blockmap::reach(level, per_block),
        blockmap::tree_size(level, part.len(), per_block) <= meta.len(),
        all_small(part),
        all_blocks(meta),
        holds_all(store, blockmap::tree(level, part, meta, per_block).blocks),
        0 <= i < blockmap::reach(level, per_block),
    ensures
        followed(level, meta[0], i, store, per_block) == block_at(part, i),
    decreases level, 0nat,
{
    let t = blockmap::tree(level, part, meta, per_block);
    let size = blockmap::reach((level - 1) as nat, per_block) as int;
    assert(meta[0] != blockmap::HOLE);
    if level == 1 {
        assert(blockmap::reach(0, per_block) == 1);
        assert(blockmap::reach(1, per_block) == per_block * 1);
        assert(store[t.blocks[0].0] == t.blocks[0].1);
        lemma_pointer_read(part, per_block, i);
        assert(i / 1 == i);
        assert(i % 1 == 0);
        assert(followed(0, block_at(part, i), 0, store, per_block) == block_at(part, i));
    } else {
        let lower = (level - 1) as nat;
        let metas = meta.skip(1);
        let k = blockmap::kids(lower, part, metas, per_block);
        blockmap::lemma_kids_used(lower, part, metas, per_block);
        assert(t.blocks.last() == (meta[0], blockmap::pointer_block(k.roots, 4 * per_block)));
        assert(store[t.blocks[t.blocks.len() - 1].0] == t.blocks[t.blocks.len() - 1].1);
        assert(holds_all(store, k.blocks)) by {
            assert forall|j: int| 0 <= j < k.blocks.len() implies store[(#[trigger] k.blocks[j]).0]
                == k.blocks[j].1 by {
                assert(t.blocks[j] == k.blocks[j]);
            }
        }
        lemma_blocks_behind(meta, 1);
        lemma_reach_positive(lower, per_block);
        lemma_kids_followed(lower, part, metas, per_block, store, i);
        let j = i / size;
        assert(0 <= j < per_block) by (nonlinear_arith)
            requires
                j == i / size,
                0 <= i < per_block * size,
                size >= 1,
        ;
        assert(k.roots.len() <= per_block) by {
            lemma_kids_roots(lower, part, metas, per_block);
            let r = k.roots.len() as int;
            if r > 0 {
                assert(r <= per_block) by (nonlinear_arith)
                    requires
                        (r - 1) * size < part.len(),
                        part.len() <= per_block * size,
                        size >= 1,
                ;
            }
        }
        lemma_kids_in(lower, part, metas, per_block);
        lemma_pointer_read(k.roots, per_block, j);
    }
}

proof fn lemma_kids_in(level: nat, part: Seq<u64>, meta: Seq<u64>, per_block: nat)
    requires
        level >= 1,
        per_block >= 1,
        blockmap::kids_size(level, part.len(), per_block) <= meta.len(),
        all_blocks(meta),
    ensures
        all_small(blockmap::kids(level, part, meta, per_block).roots),
    decreases part.len(),
{
    lemma_reach_positive(level, per_block);
    let size = blockmap::reach(level, per_block) as int;
    if part.len() > 0 {
        let n = if part.len() <= size {
            part.len() as int
        } else {
            size
        };
        let first = blockmap::tree(level, part.take(n), meta, per_block);
        blockmap::lemma_tree_used(level, part.take(n), meta, per_block);
        let rest_meta = meta.skip(first.used as int);
        assert(part.len() <= size ==> part.skip(n).len() == 0);
        assert(blockmap::kids_size(level, part.skip(n).len(), per_block) + first.used
            == blockmap::kids_size(level, part.len(), per_block));
        lemma_blocks_behind(meta, first.used as int);
        lemma_kids_in(level, part.skip(n), rest_meta, per_block);
        let rest = blockmap::kids(level, part.skip(n), rest_meta, per_block);
        let roots = blockmap::kids(level, part, meta, per_block).roots;
        assert(meta[0] < 0x1_0000_0000);
        assert forall|j: int| 0 <= j < roots.len() implies #[trigger] roots[j] < 0x1_0000_0000 by {
            if j > 0 {
                assert(roots[j] == rest.roots[j - 1]);
            }
        }
    }
}

proof fn lemma_kids_roots(level: nat, part: Seq<u64>, meta: Seq<u64>, per_block: nat)
    requires
        level >= 1,
        per_block >= 1,
    ensures
        ({
            let r = blockmap::kids(level, part, meta, per_block).roots.len() as int;
            r > 0 ==> (r - 1) * blockmap::reach(level, per_block) < part.len()
        }),
        part.len() == 0 ==> blockmap::kids(level, part, meta, per_block).roots.len() == 0,
    decreases part.len(),
{
    lemma_reach_positive(level, per_block);
    let size = blockmap::reach(level, per_block) as int;
    if part.len() > size {
        let first = blockmap::tree(level, part.take(size), meta, per_block);
        let rest = part.skip(size);
        lemma_kids_roots(level, rest, meta.skip(first.used as int), per_block);
        let r = blockmap::kids(level, rest, meta.skip(first.used as int), per_block).roots.len() as int;
        if r > 0 {
            assert(r * size == (r - 1) * size + size) by (nonlinear_arith);
        }
    } else if part.len() > 0 {
        let first = blockmap::tree(level, part.take(part.len() as int), meta, per_block);
        assert(part.skip(part.len() as int).len() == 0);
        lemma_kids_roots(
            level,
            part.skip(part.len() as int),
            meta.skip(first.used as int),
            per_block,
        );
        assert(0 * size == 0);
    }
}

proof fn lemma_kids_followed(
    level: nat,
    part: Seq<u64>,
    meta: Seq<u64>,
    per_block: nat,
    store: Map<u64, Seq<u8>>,
    i: int,
)
    requires
        level >= 1,
        per_block >= 1,
        blockmap::kids_size(level, part.len(), per_block) <= meta.len(),
        all_small(part),
        all_blocks(meta),
        holds_all(store, blockmap::kids(level, part, meta, per_block).blocks),
        0 <= i,
    ensures
        ({
            let k = blockmap::kids(level, part, meta, per_block);
            let size = blockmap::reach(level, per_block) as int;
            followed(level, block_at(k.roots, i / size), i % size, store, per_block) == block_at(
                part,
                i,
            )
        }),
    decreases level, part.len() + 1,
{
    lemma_reach_positive(level, per_block);
    let size = blockmap::reach(level, per_block) as int;
    let k = blockmap::kids(level, part, meta, per_block);
    assert(0 <= i / size && 0 <= i % size < size) by (nonlinear_arith)
        requires
            0 <= i,
            size >= 1,
    ;
    if part.len() > 0 {
        let n = if part.len() <= size {
            part.len() as int
        } else {
            size
        };
        let head = part.take(n);
        let first = blockmap::tree(level, head, meta, per_block);
        blockmap::lemma_tree_used(level, head, meta, per_block);
        let rest_meta = meta.skip(first.used as int);
        let rest = blockmap::kids(level, part.skip(n), rest_meta, per_block);
        assert(part.len() <= size ==> part.skip(n).len() == 0);
        assert(blockmap::kids_size(level, part.skip(n).len(), per_block) + first.used
            == blockmap::kids_size(level, part.len(), per_block));
        assert(holds_all(store, first.blocks)) by {
            assert forall|j: int| 0 <= j < first.blocks.len() implies store[(
            #[trigger] first.blocks[j]).0] == first.blocks[j].1 by {
                assert(k.blocks[j] == first.blocks[j]);
            }
        }
        assert(holds_all(store, rest.blocks)) by {
            assert forall|j: int| 0 <= j < rest.blocks.len() implies store[(
            #[trigger] rest.blocks[j]).0] == rest.blocks[j].1 by {
                assert(k.blocks[j + first.blocks.len()] == rest.blocks[j]);
            }
        }
        if i < size {
            assert(i / size == 0 && i % size == i) by (nonlinear_arith)
                requires
                    0 <= i < size,
            ;
            assert forall|j: int| 0 <= j < head.len() implies #[trigger] head[j]
                < 0x1_0000_0000 by {
                assert(head[j] == part[j]);
            }
            lemma_tree_followed(level, head, meta, per_block, store, i);
            assert(k.roots[0] == meta[0]);
            assert(block_at(head, i) == block_at(part, i));
        } else {
            let tail = part.skip(n);
            assert forall|j: int| 0 <= j < tail.len() implies #[trigger] tail[j]
                < 0x1_0000_0000 by {
                assert(tail[j] == part[j + n]);
            }
            lemma_blocks_behind(meta, first.used as int);
            lemma_kids_followed(level, tail, rest_meta, per_block, store, i - size);
            assert(i / size == (i - size) / size + 1 && i % size == (i - size) % size)
                by (nonlinear_arith)
                requires
                    size >= 1,
                    i >= size,
            ;
            assert(0 <= (i - size) / size) by (nonlinear_arith)
                requires
                    size >= 1,
                    i >= size,
            ;
            assert(block_at(k.roots, i / size) == block_at(rest.roots, i / size - 1));
            assert(block_at(tail, i - size) == block_at(part, i));
        }
    }
}

proof fn lemma_level_followed(
    list: Seq<u64>,
    meta: Seq<u64>,
    level: nat,
    per_block: nat,
    store: Map<u64, Seq<u8>>,
    i: int,
)
    requires
        1 <= level <= 3,
        per_block >= 1,
        meta.len() == blockmap::meta_needed(list, per_block),
        all_small(list),
        all_blocks(meta),
        holds_all(store, blockmap::level_blocks(list, meta, level, per_block)),
        0 <= i < blockmap::reach(level, per_block),
    ensures
        followed(
            level,
            blockmap::inode_pointers(list, meta, per_block)[(11 + level) as int] as u64,
            i,
            store,
            per_block,
        ) == block_at(list, blockmap::level_start(level, per_block) + i),
{
    let part = blockmap::level_part(list, level, per_block);
    let start = blockmap::level_start(level, per_block);
    reveal_with_fuel(blockmap::meta_before, 5);
    reveal_with_fuel(blockmap::level_start, 4);
    if part.len() == 0 {
        lemma_reach_positive(level, per_block);
        assert(start >= list.len());
    } else {
        let at = blockmap::meta_before(list, level, per_block) as int;
        let metas = meta.skip(at);
        assert forall|j: int| 0 <= j < part.len() implies #[trigger] part[j] < 0x1_0000_0000 by {
            assert(part[j] == list[start + j]);
        }
        lemma_blocks_behind(meta, at);
        blockmap::lemma_tree_used(level, part, metas, per_block);
        lemma_tree_followed(level, part, metas, per_block, store, i);
        assert(meta[at] == metas[0]);
        assert(meta[at] < 0x1_0000_0000);
    }
}

proof fn lemma_level_spread(list: Seq<u64>, meta: Seq<u64>, level: nat, per_block: nat)
    requires
        1 <= level <= 3,
        per_block >= 1,
        meta.len() == blockmap::meta_needed(list, per_block),
        meta.no_duplicates(),
    ensures
        ({
            let at = blockmap::meta_before(list, level, per_block) as int;
            let end = blockmap::meta_before(list, level + 1, per_block) as int;
            &&& 0 <= at <= end <= meta.len()
            &&& spread_over(
                blockmap::level_blocks(list, meta, level, per_block),
                meta.subrange(at, end),
            )
        }),
{
    reveal_with_fuel(blockmap::meta_before, 5);
    let part = blockmap::level_part(list, level, per_block);
    let at = blockmap::meta_before(list, level, per_block) as int;
    let end = blockmap::meta_before(list, level + 1, per_block) as int;
    assert(end == at + blockmap::level_size(list, level, per_block));
    if part.len() > 0 {
        let metas = meta.skip(at);
        assert forall|i: int, j: int| 0 <= i < metas.len() && 0 <= j < metas.len() && i
            != j implies metas[i] != metas[j] by {
            assert(metas[i] == meta[i + at] && metas[j] == meta[j + at]);
        }
        lemma_tree_spread(level, part, metas, per_block);
        assert(metas.take(end - at) =~= meta.subrange(at, end));
    }
}

/// A file's blocks can be read back from what an indirect map writes. Walking
/// from the inode's pointers through the blocks written gives every block of
/// the list, holes where it has holes and past its end.
pub proof fn law_indirect_map_gives_the_list_back(
    list: Seq<u64>,
    meta: Seq<u64>,
    per_block: nat,
    logical: int,
)
    requires
        per_block >= 1,
        meta.len() == blockmap::meta_needed(list, per_block),
        meta.no_duplicates(),
        all_small(list),
        all_blocks(meta),
        0 <= logical < blockmap::level_start(4, per_block),
    ensures
        walked(
            blockmap::inode_pointers(list, meta, per_block),
            stored(
                blockmap::level_blocks(list, meta, 1, per_block) + blockmap::level_blocks(
                    list,
                    meta,
                    2,
                    per_block,
                ) + blockmap::level_blocks(list, meta, 3, per_block),
            ),
            logical,
            per_block,
        ) == block_at(list, logical),
{
    reveal_with_fuel(blockmap::meta_before, 5);
    reveal_with_fuel(blockmap::level_start, 5);
    let one = blockmap::level_blocks(list, meta, 1, per_block);
    let two = blockmap::level_blocks(list, meta, 2, per_block);
    let three = blockmap::level_blocks(list, meta, 3, per_block);
    let writes = one + two + three;
    let second = blockmap::meta_before(list, 2, per_block) as int;
    let third = blockmap::meta_before(list, 3, per_block) as int;
    lemma_level_spread(list, meta, 1, per_block);
    lemma_level_spread(list, meta, 2, per_block);
    lemma_level_spread(list, meta, 3, per_block);
    assert(meta.subrange(0, second) =~= meta.take(second));
    lemma_spread_join(one, two, meta, second, third);
    lemma_spread_join(one + two, three, meta, third, meta.len() as int);
    lemma_stored(writes, meta.take(meta.len() as int));
    let store = stored(writes);
    assert(holds_all(store, one)) by {
        assert forall|j: int| 0 <= j < one.len() implies store[(#[trigger] one[j]).0]
            == one[j].1 by {
            assert(writes[j] == one[j]);
        }
    }
    assert(holds_all(store, two)) by {
        assert forall|j: int| 0 <= j < two.len() implies store[(#[trigger] two[j]).0]
            == two[j].1 by {
            assert(writes[one.len() + j] == two[j]);
        }
    }
    assert(holds_all(store, three)) by {
        assert forall|j: int| 0 <= j < three.len() implies store[(#[trigger] three[j]).0]
            == three[j].1 by {
            assert(writes[one.len() + two.len() + j] == three[j]);
        }
    }
    if logical < 12 {
        if logical < list.len() {
            assert(list[logical] < 0x1_0000_0000);
        }
    } else if logical < blockmap::level_start(2, per_block) {
        lemma_level_followed(list, meta, 1, per_block, store, logical - 12);
    } else if logical < blockmap::level_start(3, per_block) {
        lemma_level_followed(
            list,
            meta,
            2,
            per_block,
            store,
            logical - blockmap::level_start(2, per_block),
        );
    } else {
        lemma_level_followed(
            list,
            meta,
            3,
            per_block,
            store,
            logical - blockmap::level_start(3, per_block),
        );
    }
}

proof fn lemma_kids_counted(n: nat, per_block: nat)
    requires
        per_block >= 1,
    ensures
        blockmap::kids_size(1, n, per_block) == (n + per_block - 1) / per_block as int,
    decreases n,
{
    let p = per_block as int;
    reveal_with_fuel(blockmap::reach, 3);
    reveal_with_fuel(blockmap::kids_size, 2);
    reveal_with_fuel(blockmap::tree_size, 2);
    assert(blockmap::reach(1, per_block) == per_block);
    if n == 0 {
        assert((p - 1) / p == 0) by (nonlinear_arith)
            requires
                p >= 1,
        ;
    } else if n <= p {
        assert((n + p - 1) / p == 1) by (nonlinear_arith)
            requires
                1 <= n <= p,
        ;
    } else {
        lemma_kids_counted((n - per_block) as nat, per_block);
        assert((n + p - 1) / p == (n - p + p - 1) / p + 1) by (nonlinear_arith)
            requires
                p >= 1,
                n > p,
        ;
    }
}

/// How many blocks an indirect map itself takes, as far as two levels reach:
/// none while the inode's own pointers do, one for the first level, and for the
/// second its root and a block for each `per_block` blocks under it.
pub proof fn law_map_blocks_are_counted(list: Seq<u64>, per_block: nat)
    requires
        per_block >= 1,
        list.len() <= 12 + per_block + per_block * per_block,
    ensures
        list.len() <= 12 ==> blockmap::meta_needed(list, per_block) == 0,
        12 < list.len() <= 12 + per_block ==> blockmap::meta_needed(list, per_block) == 1,
        12 + per_block < list.len() ==> blockmap::meta_needed(list, per_block) == 2 + (list.len()
            - 12 - per_block + per_block - 1) / per_block as int,
{
    reveal_with_fuel(blockmap::meta_before, 5);
    reveal_with_fuel(blockmap::level_start, 4);
    reveal_with_fuel(blockmap::reach, 4);
    assert(per_block * (per_block * 1) == per_block * per_block) by (nonlinear_arith);
    assert(blockmap::level_start(3, per_block) == 12 + per_block + per_block * per_block);
    if list.len() > 12 + per_block {
        lemma_kids_counted((list.len() - 12 - per_block) as nat, per_block);
    }
}

/// What an indirect map is written to was free before, is none of the file's
/// own blocks, and holds the map: blocks allocated for it, and then written,
/// give every block of the list back, holes where it has holes and past its
/// end. `a` is the allocator before, with the file's blocks and the first one of
/// the filesystem in use, and as many blocks in all as pointers can tell apart.
pub proof fn law_map_is_kept_in_new_blocks(
    list: Seq<u64>,
    per_block: nat,
    a: AllocView,
    goal: int,
    logical: int,
)
    requires
        per_block >= 1,
        a.valid(),
        a.geometry.blocks_count <= 0x1_0000_0000,
        !allocator_laws::is_free(a, blockmap::HOLE as int),
        all_small(list),
        forall|i: int|
            0 <= i < list.len() ==> !allocator_laws::is_free(a, #[trigger] list[i] as int),
        0 <= logical < blockmap::level_start(4, per_block),
    ensures
        ({
            let n = blockmap::meta_needed(list, per_block);
            let (b, meta, run) = allocator::allocated(a, goal, Seq::empty(), n as int);
            run is Done ==> {
                &&& meta.len() == n
                &&& meta.no_duplicates()
                &&& forall|k: int|
                    0 <= k < meta.len() ==> allocator_laws::is_free(a, #[trigger] meta[k] as int)
                        && !list.contains(meta[k])
                &&& walked(
                    blockmap::inode_pointers(list, meta, per_block),
                    stored(
                        blockmap::level_blocks(list, meta, 1, per_block)
                            + blockmap::level_blocks(list, meta, 2, per_block)
                            + blockmap::level_blocks(list, meta, 3, per_block),
                    ),
                    logical,
                    per_block,
                ) == block_at(list, logical)
            }
        }),
{
    let n = blockmap::meta_needed(list, per_block);
    let none = Seq::<u64>::empty();
    let (b, meta, run) = allocator::allocated(a, goal, none, n as int);
    allocator_laws::law_allocated_blocks_are_new(a, goal, none, n as int);
    if run is Done {
        lemma_allocated_length(a, goal, none, n as int);
        assert forall|k: int| 0 <= k < meta.len() implies allocator_laws::is_free(
            a,
            #[trigger] meta[k] as int,
        ) && !list.contains(meta[k]) by {
            if list.contains(meta[k]) {
                let i = choose|i: int| 0 <= i < list.len() && list[i] == meta[k];
                assert(!allocator_laws::is_free(a, list[i] as int));
            }
        }
        assert(all_blocks(meta)) by {
            assert forall|k: int| 0 <= k < meta.len() implies blockmap::HOLE < #[trigger] meta[k]
                < 0x1_0000_0000 by {
                assert(allocator_laws::is_free(a, meta[k] as int));
            }
        }
        law_indirect_map_gives_the_list_back(list, meta, per_block, logical);
    }
}

proof fn lemma_allocated_length(a: AllocView, goal: int, blocks: Seq<u64>, count: int)
    requires
        blocks.len() <= count,
    ensures
        allocator::allocated(a, goal, blocks, count).2 is Done ==> allocator::allocated(
            a,
            goal,
            blocks,
            count,
        ).1.len() == count,
    decreases count - blocks.len(),
{
    if blocks.len() < count {
        let near = if blocks.len() > 0 {
            blocks.last() + 1
        } else {
            goal
        };
        if let allocator::Spot::At(g, i) = a.spot_near(near) {
            lemma_allocated_length(
                a.with_block(g, i),
                goal,
                blocks.push((a.geometry.first_block(g) + i) as u64),
                count,
            );
        }
    }
}

/// Blocks that follow each other in the file and on the device are one extent,
/// up to 32767 of them: an extent that the next one carries on is full.
pub proof fn law_neighbours_share_an_extent(list: Seq<u64>, n: int, i: int)
    requires
        0 <= n <= list.len() <= 0x1_0000_0000,
        0 <= i,
        i + 1 < blockmap::coalesced(list, n).len(),
    ensures
        ({
            let e = blockmap::coalesced(list, n);
            e[i].block + e[i].len == e[i + 1].block && e[i].start + e[i].len == e[i + 1].start
                ==> e[i].len >= 32767
        }),
    decreases n,
{
    if n > 0 {
        let before = blockmap::coalesced(list, n - 1);
        let e = blockmap::coalesced(list, n);
        if i + 1 < before.len() {
            law_neighbours_share_an_extent(list, n - 1, i);
        }
    }
}

/// A block list made in walking a map has each block of data where the map says
/// it stands, holes where it says nothing; blocks of the map itself are listed
/// apart.
pub proof fn law_walked_blocks_stand_in_their_places(visits: Seq<Visit>, v: Visit, i: int)
    requires
        0 <= i,
    ensures
        blockmap::block_list(Seq::empty()).len() == 0,
        blockmap::metadata_blocks(Seq::empty()).len() == 0,
        ({
            let before = blockmap::block_list(visits);
            let after = blockmap::block_list(visits.push(v));
            &&& v.data && v.logical is Some ==> {
                let at = v.logical->0 as int;
                &&& after.len() == (if before.len() > at {
                    before.len() as int
                } else {
                    at + 1
                })
                &&& after[at] == v.physical
                &&& i != at && i < before.len() ==> after[i] == before[i]
                &&& i != at && before.len() <= i < after.len() ==> after[i] == 0
            }
            &&& !v.data || v.logical is None ==> after == before
        }),
        v.data ==> blockmap::metadata_blocks(visits.push(v)) == blockmap::metadata_blocks(visits),
        !v.data ==> blockmap::metadata_blocks(visits.push(v)) == blockmap::metadata_blocks(
            visits,
        ).push(v.physical),
{
    assert(visits.push(v).drop_last() =~= visits);
}

/// The first mapped block of a list is the first that is no hole.
pub proof fn law_first_mapped_is_no_hole(list: Seq<u64>, i: int)
    requires
        0 <= i < list.len(),
        list[i] != 0,
        forall|j: int| 0 <= j < i ==> #[trigger] list[j] == 0,
    ensures
        blockmap::first_mapped(list) == list[i],
    decreases i,
{
    if i > 0 {
        assert(list[0] == 0);
        let rest = list.skip(1);
        assert forall|j: int| 0 <= j < i - 1 implies #[trigger] rest[j] == 0 by {
            assert(list[j + 1] == 0);
        }
        law_first_mapped_is_no_hole(rest, i - 1);
    }
}

/// A leaf holds as many extents as fit behind its header, each of twelve bytes
/// like the header itself.
pub proof fn law_leaves_hold_all_that_fits(block_size: nat)
    requires
        block_size >= 24,
    ensures
        ({
            let n = blockmap::leaf_entries(block_size);
            12 + 12 * n <= block_size < 12 + 12 * (n + 1)
        }),
{
}

/// The inode's own pointers reach twelve blocks, and each level of an indirect map
/// as many times more than the one before as there are pointers in a block.
pub proof fn law_levels_reach_further_each(per_block: nat)
    ensures
        blockmap::reach(1, per_block) == per_block,
        blockmap::reach(2, per_block) == per_block * per_block,
        blockmap::reach(3, per_block) == per_block * (per_block * per_block),
        blockmap::level_start(1, per_block) == 12,
        blockmap::level_start(2, per_block) == 12 + per_block,
        blockmap::level_start(3, per_block) == 12 + per_block + per_block * per_block,
        blockmap::level_start(4, per_block) == 12 + per_block + per_block * per_block + per_block
            * (per_block * per_block),
{
    reveal_with_fuel(blockmap::reach, 5);
    reveal_with_fuel(blockmap::level_start, 5);
    assert(per_block * 1 == per_block) by (nonlinear_arith);
}

/// A block of pointers holds each one in four bytes, low byte first, and zeroes
/// behind them.
pub proof fn law_pointers_stand_low_byte_first(entries: Seq<u64>, block_size: nat, i: int)
    requires
        4 * entries.len() <= block_size,
        0 <= i < entries.len(),
        entries[i] < 0x1_0000_0000,
    ensures
        ({
            let b = blockmap::pointer_block(entries, block_size);
            &&& b.len() == block_size
            &&& b[4 * i] + 256 * b[4 * i + 1] + 65536 * b[4 * i + 2] + 16777216 * b[4 * i + 3]
                == entries[i]
            &&& forall|k: int| 4 * entries.len() <= k < block_size ==> #[trigger] b[k] == 0
        }),
{
    let b = blockmap::pointer_block(entries, block_size);
    let p = bytes::le32(blockmap::pointer(entries[i]));
    assert((4 * i) / 4 == i && (4 * i + 1) / 4 == i && (4 * i + 2) / 4 == i && (4 * i + 3) / 4
        == i);
    assert((4 * i) % 4 == 0 && (4 * i + 1) % 4 == 1 && (4 * i + 2) % 4 == 2 && (4 * i + 3) % 4
        == 3);
    assert(b[4 * i] == p[0]);
    assert(b[4 * i + 1] == p[1]);
    assert(b[4 * i + 2] == p[2]);
    assert(b[4 * i + 3] == p[3]);
}

} // verus!
