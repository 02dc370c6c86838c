//! Block maps.
//!
//! An inode's block map is read out into a plain list of physical blocks in
//! logical order, modified, and written back. Rebuilding the whole map rather
//! than patching it in place costs a little work per write and buys one code
//! path, and no partially-updated tree if a write fails halfway.
//!
//! Both shapes are handled: extent trees, and indirect blocks for filesystems
//! without extents.

use vstd::prelude::*;

use crate::bytes;
use crate::error::{Error, Result};
use crate::text;

verus! {

/// A hole in a sparse file.
pub const HOLE: u64 = 0;

/// The longest run a single extent covers, plus one.
pub const INIT_MAX_LEN: u32 = 32768;

/// Bytes in an extent tree node's header.
pub const HEADER_LEN: usize = 12;

/// Bytes in an extent tree node's entry.
pub const ENTRY_LEN: usize = 12;

/// Extents, or indices of leaves, that fit in an inode.
pub const INLINE_MAX: usize = 4;

/// Pointers in an inode that are to data blocks.
pub const NDIR_BLOCKS: usize = 12;

/// Pointers in an inode.
pub const N_BLOCKS: usize = 15;

/// A block come across in walking an inode's map.
#[derive(Debug, Clone, Copy)]
pub struct Visit {
    /// Whether it holds data, rather than being part of the map itself.
    pub data: bool,
    /// Where in the file it stands, for a block that holds data.
    pub logical: Option<u32>,
    /// Where on the device it is.
    pub physical: u64,
}

/// `list` with `physical` in place `logical`, holes filling what is between.
pub open spec fn placed(list: Seq<u64>, logical: int, physical: u64) -> Seq<u64> {
    Seq::new(
        if list.len() <= logical {
            (logical + 1) as nat
        } else {
            list.len()
        },
        |i: int|
            if i == logical {
                physical
            } else if i < list.len() {
                list[i]
            } else {
                HOLE
            },
    )
}

/// The data blocks come across, in logical order.
pub open spec fn block_list(visits: Seq<Visit>) -> Seq<u64>
    decreases visits.len(),
{
    if visits.len() == 0 {
        Seq::empty()
    } else {
        let before = block_list(visits.drop_last());
        let v = visits.last();
        match v.logical {
            Some(logical) => if v.data {
                placed(before, logical as int, v.physical)
            } else {
                before
            },
            None => before,
        }
    }
}

/// The blocks come across that the map itself occupies.
pub open spec fn metadata_blocks(visits: Seq<Visit>) -> Seq<u64>
    decreases visits.len(),
{
    if visits.len() == 0 {
        Seq::empty()
    } else {
        let before = metadata_blocks(visits.drop_last());
        if visits.last().data {
            before
        } else {
            before.push(visits.last().physical)
        }
    }
}

/// Read an inode's block map as a list of physical blocks in logical order.
///
/// Holes read as [`HOLE`].
pub fn read_block_list(visits: &[Visit]) -> (list: Vec<u64>)
    ensures
        list@ == block_list(visits@),
{
    let mut list: Vec<u64> = Vec::new();
    let mut k: usize = 0;
    assert(visits@.take(0) =~= Seq::empty());
    while k < visits.len()
        invariant
            k <= visits@.len(),
            list@ == block_list(visits@.take(k as int)),
        decreases visits.len() - k,
    {
        let v: Visit = visits[k];
        let ghost before = list@;
        assert(visits@.take(k + 1).drop_last() =~= visits@.take(k as int));
        if v.data {
            if let Some(logical) = v.logical {
                let idx: usize = logical as usize;
                while list.len() <= idx
                    invariant
                        before.len() <= list@.len(),
                        list@.len() <= idx + 1 || list@.len() == before.len(),
                        forall|i: int|
                            0 <= i < list@.len() ==> #[trigger] list@[i] == (if i < before.len() {
                                before[i]
                            } else {
                                HOLE
                            }),
                    decreases idx + 1 - list@.len(),
                {
                    list.push(HOLE);
                }
                list.set(idx, v.physical);
                assert(list@ =~= placed(before, logical as int, v.physical));
            }
        }
        k += 1;
    }
    assert(visits@.take(k as int) =~= visits@);
    list
}

/// Every block the inode's map structure itself occupies.
pub fn map_metadata_blocks(visits: &[Visit]) -> (meta: Vec<u64>)
    ensures
        meta@ == metadata_blocks(visits@),
{
    let mut meta: Vec<u64> = Vec::new();
    let mut k: usize = 0;
    assert(visits@.take(0) =~= Seq::empty());
    while k < visits.len()
        invariant
            k <= visits@.len(),
            meta@ == metadata_blocks(visits@.take(k as int)),
        decreases visits.len() - k,
    {
        assert(visits@.take(k + 1).drop_last() =~= visits@.take(k as int));
        if !visits[k].data {
            meta.push(visits[k].physical);
        }
        k += 1;
    }
    assert(visits@.take(k as int) =~= visits@);
    meta
}

/// A run of blocks, contiguous both in the file and on the device.
#[derive(Debug, Clone, Copy, PartialEq, Eq, Structural)]
pub struct Extent {
    /// The first block of the file it covers.
    pub block: u32,
    /// How many it covers.
    pub len: u16,
    /// Where on the device the first of them is.
    pub start: u64,
}

/// Whether `physical` at `logical` carries the last of `extents` on.
pub open spec fn continues(extents: Seq<Extent>, logical: int, physical: u64) -> bool {
    &&& extents.len() > 0
    &&& extents.last().block + extents.last().len == logical
    &&& extents.last().start + extents.last().len == physical
    &&& extents.last().len < INIT_MAX_LEN - 1
}

/// The first `n` blocks of a list as extents, holes skipped.
pub open spec fn coalesced(list: Seq<u64>, n: int) -> Seq<Extent>
    decreases n,
{
    if n <= 0 {
        Seq::empty()
    } else {
        let before = coalesced(list, n - 1);
        let physical = list[n - 1];
        if physical == HOLE {
            before
        } else if continues(before, n - 1, physical) {
            let last = before.last();
            before.update(before.len() - 1, Extent { len: (last.len + 1) as u16, ..last })
        } else {
            before.push(Extent { block: (n - 1) as u32, len: 1, start: physical })
        }
    }
}

/// Coalesce a block list into extents, skipping holes.
pub fn to_extents(list: &[u64]) -> (out: Vec<Extent>)
    requires
        list@.len() <= 0x1_0000_0000,
    ensures
        out@ == coalesced(list@, list@.len() as int),
{
    let mut out: Vec<Extent> = Vec::new();
    let mut k: usize = 0;
    while k < list.len()
        invariant
            k <= list@.len() <= 0x1_0000_0000,
            out@ == coalesced(list@, k as int),
        decreases list.len() - k,
    {
        let physical: u64 = list[k];
        let ghost before = out@;
        if physical != HOLE {
            // Extend the previous extent when this block continues it, both
            // logically and physically.
            let mut grown: bool = false;
            if out.len() > 0 {
                let last: Extent = out[out.len() - 1];
                if last.block as u64 + last.len as u64 == k as u64 && physical >= last.len as u64
                    && physical - last.len as u64 == last.start && (last.len as u32)
                    < INIT_MAX_LEN - 1 {
                    let at: usize = out.len() - 1;
                    out.set(at, Extent { block: last.block, len: last.len + 1, start: last.start });
                    grown = true;
                }
            }
            if !grown {
                out.push(Extent { block: k as u32, len: 1, start: physical });
            }
        }
        k += 1;
    }
    out
}

/// The first block of a list that is not a hole.
pub open spec fn first_mapped(list: Seq<u64>) -> u64
    decreases list.len(),
{
    if list.len() == 0 {
        0
    } else if list[0] != HOLE {
        list[0]
    } else {
        first_mapped(list.skip(1))
    }
}

/// Where to look for blocks to hold a list's map: near its first block.
pub fn goal_of(list: &[u64]) -> (goal: u64)
    ensures
        goal == first_mapped(list@),
{
    let mut i: usize = 0;
    assert(list@.skip(0) =~= list@);
    while i < list.len()
        invariant
            i <= list@.len(),
            first_mapped(list@) == first_mapped(list@.skip(i as int)),
        decreases list.len() - i,
    {
        if list[i] != HOLE {
            return list[i];
        }
        assert(list@.skip(i as int).skip(1) =~= list@.skip(i + 1));
        i += 1;
    }
    0
}

/// Entries that fit in an extent leaf of this many bytes.
pub open spec fn leaf_entries(block_size: nat) -> nat {
    ((block_size - 12) / 12) as nat
}

/// Where the checksum of an extent block with room for `max` entries stands:
/// behind those entries, not at the end of the block.
pub open spec fn tail_offset(max: nat) -> nat {
    12 + 12 * max
}

/// Where the checksum of an extent block with room for `max` entries stands.
/// It covers everything in front of it.
pub fn extent_tail_offset(max: u16) -> (at: usize)
    ensures
        at == tail_offset(max as nat),
{
    HEADER_LEN + ENTRY_LEN * max as usize
}

/// Entries that fit in an extent leaf of `block_size` bytes, and the checksum
/// still fits behind them when the block has room for it.
pub fn entries_per_leaf(block_size: u32) -> (n: usize)
    requires
        block_size >= 1024,
    ensures
        n == leaf_entries(block_size as nat),
        n >= 84,
        tail_offset(n as nat) <= block_size,
{
    ((block_size - 12) / 12) as usize
}

/// How an inode maps its blocks by extents.
#[derive(Debug)]
pub enum ExtentPlan {
    /// The extents fit in the inode.
    Inline(Vec<Extent>),
    /// The extents go into leaves, and the inode holds their indices.
    Leaves(Vec<Vec<Extent>>),
}

/// `extents` cut into runs of `per_leaf`.
pub open spec fn chunked(extents: Seq<Extent>, per_leaf: int) -> Seq<Seq<Extent>>
    decreases extents.len(),
    when per_leaf > 0
{
    if extents.len() == 0 {
        Seq::empty()
    } else if extents.len() <= per_leaf {
        seq![extents]
    } else {
        seq![extents.take(per_leaf)] + chunked(extents.skip(per_leaf), per_leaf)
    }
}

/// Lists of extents as the contracts speak of them.
pub open spec fn leaves_view(leaves: Seq<Vec<Extent>>) -> Seq<Seq<Extent>> {
    leaves.map_values(|l: Vec<Extent>| l@)
}

/// What is reported of a file too fragmented for one level of leaves.
pub open spec fn fragmented_text(leaves: nat) -> Seq<char> {
    "a file this fragmented needs "@ + text::ascii(text::digits(leaves, 10))
        + " extent leaves, more than the 4 indices that fit in an inode; deeper trees are not built yet"@
}

/// Leaves needed for `n` extents.
pub open spec fn leaf_count(n: nat, per_leaf: nat) -> nat {
    ((n + per_leaf - 1) / per_leaf as int) as nat
}

/// Copy a run of extents.
fn copy_run(extents: &Vec<Extent>, from: usize, to: usize) -> (out: Vec<Extent>)
    requires
        from <= to <= extents@.len(),
    ensures
        out@ == extents@.subrange(from as int, to as int),
{
    let mut out: Vec<Extent> = Vec::new();
    let mut i: usize = from;
    while i < to
        invariant
            from <= i <= to <= extents@.len(),
            out@ == extents@.subrange(from as int, i as int),
        decreases to - i,
    {
        out.push(extents[i]);
        i += 1;
        assert(extents@.subrange(from as int, i as int) =~= extents@.subrange(
            from as int,
            i - 1,
        ).push(extents@[i - 1]));
    }
    out
}

/// Lay out an extent tree for `list`.
pub fn plan_extent_map(list: &[u64], block_size: u32) -> (r: Result<ExtentPlan>)
    requires
        list@.len() <= 0x1_0000_0000,
        block_size >= 1024,
    ensures
        ({
            let extents = coalesced(list@, list@.len() as int);
            let per_leaf = leaf_entries(block_size as nat);
            let leaves = leaf_count(extents.len(), per_leaf);
            match r {
                Ok(ExtentPlan::Inline(out)) => extents.len() <= 4 && out@ == extents,
                Ok(ExtentPlan::Leaves(out)) => extents.len() > 4 && leaves <= 4 && leaves_view(out@)
                    == chunked(extents, per_leaf as int),
                Err(e) => extents.len() > 4 && leaves > 4 && (e matches Error::Unsupported(m) && m@
                    == fragmented_text(leaves)),
            }
        }),
{
    let extents: Vec<Extent> = to_extents(list);
    if extents.len() <= INLINE_MAX {
        return Ok(ExtentPlan::Inline(extents));
    }
    // Too many for the inode: put them in leaves and point at those.
    let per_leaf: usize = entries_per_leaf(block_size);
    assert(2 * (extents@.len() as int / per_leaf as int) <= extents@.len()) by (nonlinear_arith)
        requires
            per_leaf >= 2,
    ;
    let leaves: u64 = (extents.len() as u64 / per_leaf as u64) + if extents.len() % per_leaf == 0 {
        0
    } else {
        1
    };
    proof {
        let n = extents@.len() as int;
        let d = per_leaf as int;
        assert((n + d - 1) / d == n / d + (if n % d == 0 {
            0int
        } else {
            1int
        })) by (nonlinear_arith)
            requires
                d > 0,
                n >= 0,
        ;
    }
    if leaves > INLINE_MAX as u64 {
        let mut m: String = "a file this fragmented needs ".to_owned();
        text::push_decimal(&mut m, leaves);
        m.append(
            " extent leaves, more than the 4 indices that fit in an inode; deeper trees are not built yet",
        );
        return Err(Error::Unsupported(m));
    }
    let mut out: Vec<Vec<Extent>> = Vec::new();
    let mut at: usize = 0;
    let ghost all = chunked(extents@, per_leaf as int);
    assert(extents@.skip(0) =~= extents@);
    assert(leaves_view(out@) + all =~= all);
    while at < extents.len()
        invariant
            at <= extents@.len(),
            per_leaf > 0,
            all == leaves_view(out@) + chunked(extents@.skip(at as int), per_leaf as int),
        decreases extents.len() - at,
    {
        let end: usize = if extents.len() - at <= per_leaf {
            extents.len()
        } else {
            at + per_leaf
        };
        let run: Vec<Extent> = copy_run(&extents, at, end);
        let ghost was = out@;
        let ghost rest = extents@.skip(at as int);
        out.push(run);
        proof {
            assert(leaves_view(out@) =~= leaves_view(was).push(run@));
            if rest.len() <= per_leaf {
                assert(run@ =~= rest);
                assert(extents@.skip(end as int) =~= Seq::empty());
                assert(leaves_view(was) + seq![rest] =~= leaves_view(out@) + Seq::empty());
            } else {
                assert(run@ =~= rest.take(per_leaf as int));
                assert(rest.skip(per_leaf as int) =~= extents@.skip(end as int));
                let tail = chunked(extents@.skip(end as int), per_leaf as int);
                assert(leaves_view(was) + (seq![run@] + tail) =~= leaves_view(out@) + tail);
            }
        }
        at = end;
    }
    assert(extents@.skip(at as int) =~= Seq::empty());
    assert(all =~= leaves_view(out@));
    Ok(ExtentPlan::Leaves(out))
}

/// The index an inode keeps of each leaf: the first block of the file the
/// leaf covers, and where the leaf is.
pub fn leaf_indices(leaves: &Vec<Vec<Extent>>, blocks: &Vec<u64>) -> (out: Vec<(u32, u64)>)
    requires
        leaves@.len() == blocks@.len(),
        forall|i: int| 0 <= i < leaves@.len() ==> (#[trigger] leaves@[i])@.len() > 0,
    ensures
        out@.len() == leaves@.len(),
        forall|i: int|
            0 <= i < leaves@.len() ==> #[trigger] out@[i] == (leaves@[i]@[0].block, blocks@[i]),
{
    let mut out: Vec<(u32, u64)> = Vec::new();
    let mut i: usize = 0;
    while i < leaves.len()
        invariant
            i <= leaves@.len(),
            leaves@.len() == blocks@.len(),
            out@.len() == i,
            forall|j: int| 0 <= j < leaves@.len() ==> (#[trigger] leaves@[j])@.len() > 0,
            forall|j: int|
                0 <= j < i ==> #[trigger] out@[j] == (leaves@[j]@[0].block, blocks@[j]),
        decreases leaves.len() - i,
    {
        assert(leaves@[i as int]@.len() > 0);
        out.push((leaves[i][0].block, blocks[i]));
        i += 1;
    }
    out
}

/// The last 32 bits of a block number, which is all an indirect map holds.
pub open spec fn pointer(block: u64) -> u32 {
    (block % 0x1_0000_0000) as u32
}

/// A block of pointers.
pub open spec fn pointer_block(entries: Seq<u64>, block_size: nat) -> Seq<u8> {
    Seq::new(
        block_size,
        |i: int|
            if i < 4 * entries.len() {
                bytes::le32(pointer(entries[i / 4]))[i % 4]
            } else {
                0u8
            },
    )
}

/// Data blocks under one pointer, with this many levels of pointer blocks
/// between.
pub open spec fn reach(level: nat, per_block: nat) -> nat
    decreases level,
{
    if level == 0 {
        1
    } else {
        per_block * reach((level - 1) as nat, per_block)
    }
}

/// Blocks to write for a tree of pointers, and how many it took.
pub struct Tree {
    /// The blocks, in the order they are written.
    pub blocks: Seq<(u64, Seq<u8>)>,
    /// How many blocks it took.
    pub used: nat,
}

/// Trees side by side.
pub struct Kids {
    /// The blocks they are rooted at.
    pub roots: Seq<u64>,
    /// The blocks to write, in order.
    pub blocks: Seq<(u64, Seq<u8>)>,
    /// How many blocks they took.
    pub used: nat,
}

/// A tree of pointers over `part`: one block of pointers at level one, and
/// above that a block of pointers to trees of the level below, each filled
/// before the next is begun. Blocks are taken from `meta` in turn, a parent
/// before its children, and written children first.
pub open spec fn tree(level: nat, part: Seq<u64>, meta: Seq<u64>, per_block: nat) -> Tree
    decreases level, 0nat,
{
    if level <= 1 {
        Tree { blocks: seq![(meta[0], pointer_block(part, 4 * per_block))], used: 1 }
    } else {
        let k = kids((level - 1) as nat, part, meta.skip(1), per_block);
        Tree {
            blocks: k.blocks.push((meta[0], pointer_block(k.roots, 4 * per_block))),
            used: k.used + 1,
        }
    }
}

/// Trees of one level side by side, covering `part`.
pub open spec fn kids(level: nat, part: Seq<u64>, meta: Seq<u64>, per_block: nat) -> Kids
    decreases level, part.len() + 1,
{
    let size = reach(level, per_block) as int;
    if part.len() == 0 || size <= 0 {
        Kids { roots: Seq::empty(), blocks: Seq::empty(), used: 0 }
    } else {
        let n = if part.len() <= size {
            part.len() as int
        } else {
            size
        };
        let first = tree(level, part.take(n), meta, per_block);
        let rest = kids(level, part.skip(n), meta.skip(first.used as int), per_block);
        Kids {
            roots: seq![meta[0]] + rest.roots,
            blocks: first.blocks + rest.blocks,
            used: first.used + rest.used,
        }
    }
}

/// Blocks a tree over `n` data blocks takes.
pub open spec fn tree_size(level: nat, n: nat, per_block: nat) -> nat
    decreases level, 0nat,
{
    if level <= 1 {
        1
    } else {
        1 + kids_size((level - 1) as nat, n, per_block)
    }
}

/// Blocks trees side by side over `n` data blocks take.
pub open spec fn kids_size(level: nat, n: nat, per_block: nat) -> nat
    decreases level, n + 1,
{
    let size = reach(level, per_block);
    if n == 0 || size == 0 {
        0
    } else if n <= size {
        tree_size(level, n, per_block)
    } else {
        tree_size(level, size, per_block) + kids_size(level, (n - size) as nat, per_block)
    }
}

/// The part of a list from `from` to `to`, as far as it goes.
pub open spec fn slice(list: Seq<u64>, from: int, to: int) -> Seq<u64> {
    if from >= list.len() {
        Seq::empty()
    } else if to >= list.len() {
        list.skip(from)
    } else {
        list.subrange(from, to)
    }
}

/// Where the part of a list under the pointer with `level` levels begins: the
/// direct pointers first, then one level, two, three.
pub open spec fn level_start(level: nat, per_block: nat) -> int
    decreases level,
{
    if level <= 1 {
        12
    } else {
        level_start((level - 1) as nat, per_block) + reach((level - 1) as nat, per_block)
    }
}

/// The part of a list under the pointer with `level` levels.
pub open spec fn level_part(list: Seq<u64>, level: nat, per_block: nat) -> Seq<u64> {
    slice(
        list,
        level_start(level, per_block),
        level_start(level, per_block) + reach(level, per_block),
    )
}

/// Metadata blocks that the levels below `level` take.
pub open spec fn meta_before(list: Seq<u64>, level: nat, per_block: nat) -> nat
    decreases level,
{
    if level <= 1 {
        0
    } else {
        meta_before(list, (level - 1) as nat, per_block) + level_size(
            list,
            (level - 1) as nat,
            per_block,
        )
    }
}

/// Metadata blocks one level takes: none when nothing is left for it.
pub open spec fn level_size(list: Seq<u64>, level: nat, per_block: nat) -> nat {
    if level_part(list, level, per_block).len() == 0 {
        0
    } else {
        tree_size(level, level_part(list, level, per_block).len(), per_block)
    }
}

/// Metadata blocks a list takes.
pub open spec fn meta_needed(list: Seq<u64>, per_block: nat) -> nat {
    meta_before(list, 4, per_block)
}

/// The blocks written for one level.
pub open spec fn level_blocks(
    list: Seq<u64>,
    meta: Seq<u64>,
    level: nat,
    per_block: nat,
) -> Seq<(u64, Seq<u8>)> {
    if level_part(list, level, per_block).len() == 0 {
        Seq::empty()
    } else {
        tree(
            level,
            level_part(list, level, per_block),
            meta.skip(meta_before(list, level, per_block) as int),
            per_block,
        ).blocks
    }
}

/// The fifteen pointers of an inode: twelve direct, then the roots of one,
/// two and three levels.
pub open spec fn inode_pointers(list: Seq<u64>, meta: Seq<u64>, per_block: nat) -> Seq<u32> {
    Seq::new(
        15,
        |i: int|
            if i < 12 {
                if i < list.len() {
                    pointer(list[i])
                } else {
                    0u32
                }
            } else if level_part(list, (i - 11) as nat, per_block).len() == 0 {
                0u32
            } else {
                pointer(meta[meta_before(list, (i - 11) as nat, per_block) as int])
            },
    )
}

/// What is reported of a file too long for three levels.
pub open spec fn too_long_text(blocks: nat, block_size: nat) -> Seq<char> {
    "a "@ + text::ascii(text::digits(blocks, 10))
        + "-block file exceeds what triple indirection addresses at "@ + text::ascii(
        text::digits(block_size, 10),
    ) + "-byte blocks"@
}

/// A tree takes as many blocks as its size says.
pub proof fn lemma_tree_used(level: nat, part: Seq<u64>, meta: Seq<u64>, per_block: nat)
    ensures
        tree(level, part, meta, per_block).used == tree_size(level, part.len(), per_block),
        tree(level, part, meta, per_block).used >= 1,
    decreases level, 0nat,
{
    if level > 1 {
        lemma_kids_used((level - 1) as nat, part, meta.skip(1), per_block);
    }
}

/// Trees side by side take as many blocks as their size says.
pub proof fn lemma_kids_used(level: nat, part: Seq<u64>, meta: Seq<u64>, per_block: nat)
    ensures
        kids(level, part, meta, per_block).used == kids_size(level, part.len(), per_block),
    decreases level, part.len() + 1,
{
    let size = reach(level, per_block) as int;
    if part.len() > 0 && size > 0 {
        let n = if part.len() <= size {
            part.len() as int
        } else {
            size
        };
        let first = tree(level, part.take(n), meta, per_block);
        lemma_tree_used(level, part.take(n), meta, per_block);
        lemma_kids_used(level, part.skip(n), meta.skip(first.used as int), per_block);
        if part.len() <= size {
            assert(part.skip(n).len() == 0);
        }
    }
}

/// Written blocks as the contracts speak of them.
pub open spec fn writes_view(writes: Seq<(u64, Vec<u8>)>) -> Seq<(u64, Seq<u8>)> {
    writes.map_values(|w: (u64, Vec<u8>)| (w.0, w.1@))
}

/// `reach`, for the levels there are.
fn reach_of(level: u32, per_block: u64) -> (n: u64)
    requires
        level <= 3,
        1 <= per_block <= 16384,
    ensures
        n == reach(level as nat, per_block as nat),
        n >= 1,
        level == 1 ==> n == per_block,
        n <= 0x400_0000_0000,
{
    reveal_with_fuel(reach, 4);
    let one: u64 = per_block;
    assert(per_block * 1 == per_block);
    let two: u64 = {
        assert(1 <= per_block * one <= 0x1000_0000) by (nonlinear_arith)
            requires
                1 <= per_block <= 16384,
                one == per_block,
        ;
        per_block * one
    };
    let three: u64 = {
        assert(1 <= per_block * two <= 0x400_0000_0000) by (nonlinear_arith)
            requires
                1 <= per_block <= 16384,
                1 <= two <= 0x1000_0000,
        ;
        per_block * two
    };
    if level == 0 {
        1
    } else if level == 1 {
        one
    } else if level == 2 {
        two
    } else {
        three
    }
}

/// Lay out a block of pointers.
fn pointers_in(entries: &[u64], from: usize, to: usize, per_block: usize) -> (buf: Vec<u8>)
    requires
        from <= to <= entries@.len(),
        to - from <= per_block,
        per_block <= 16384,
    ensures
        buf@ == pointer_block(entries@.subrange(from as int, to as int), 4 * per_block as nat),
{
    let size: usize = 4 * per_block;
    let mut buf: Vec<u8> = vec![0u8; size];
    let ghost part = entries@.subrange(from as int, to as int);
    let mut i: usize = 0;
    while i < to - from
        invariant
            i <= to - from,
            from <= to <= entries@.len(),
            to - from <= per_block,
            per_block <= 16384,
            size == 4 * per_block,
            buf@.len() == size,
            part == entries@.subrange(from as int, to as int),
            forall|j: int|
                0 <= j < size ==> #[trigger] buf@[j] == (if j < 4 * i {
                    bytes::le32(pointer(part[j / 4]))[j % 4]
                } else {
                    0u8
                }),
        decreases to - from - i,
    {
        let n: u32 = (entries[from + i] % 0x1_0000_0000) as u32;
        let ghost was = buf@;
        bytes::put32(&mut buf, i * 4, n);
        assert(n == pointer(part[i as int]));
        assert forall|j: int| 0 <= j < size implies #[trigger] buf@[j] == (if j < 4 * (i + 1) {
            bytes::le32(pointer(part[j / 4]))[j % 4]
        } else {
            0u8
        }) by {
            if 4 * i <= j < 4 * i + 4 {
                assert(j / 4 == i);
                assert(j % 4 == j - 4 * i);
                assert(buf@[j] == bytes::le32(n)[j - 4 * i]);
            } else {
                assert(buf@[j] == was[j]);
            }
        }
        i += 1;
    }
    assert(buf@ =~= pointer_block(part, 4 * per_block as nat));
    buf
}

/// Lay out a tree of pointers over part of a list, taking blocks from `meta`
/// at `next` on; returns where the next block is to be taken.
fn build_tree(
    level: u32,
    list: &[u64],
    from: usize,
    to: usize,
    meta: &[u64],
    next: usize,
    per_block: usize,
    writes: &mut Vec<(u64, Vec<u8>)>,
) -> (after: usize)
    requires
        1 <= level <= 3,
        1 <= per_block <= 16384,
        from <= to <= list@.len(),
        to - from <= reach(level as nat, per_block as nat),
        next + tree_size(level as nat, (to - from) as nat, per_block as nat) <= meta@.len(),
    ensures
        after == next + tree_size(level as nat, (to - from) as nat, per_block as nat),
        writes_view(final(writes)@) == writes_view(old(writes)@) + tree(
            level as nat,
            list@.subrange(from as int, to as int),
            meta@.skip(next as int),
            per_block as nat,
        ).blocks,
    decreases level,
{
    let ghost part = list@.subrange(from as int, to as int);
    let ghost metas = meta@.skip(next as int);
    let ghost pb = per_block as nat;
    let root: u64 = meta[next];
    if level == 1 {
        proof {
            lemma_reach_one(per_block as nat);
        }
        let buf: Vec<u8> = pointers_in(list, from, to, per_block);
        writes.push((root, buf));
        assert(writes_view(writes@) =~= writes_view(old(writes)@) + seq![(root, buf@)]);
        return next + 1;
    }
    let size: u64 = reach_of(level - 1, per_block as u64);
    let ghost lower = (level - 1) as nat;
    let mut roots: Vec<u64> = Vec::new();
    let mut at: usize = from;
    let mut free: usize = next + 1;
    let ghost all = kids(lower, part, metas.skip(1), pb);
    proof {
        lemma_kids_used(lower, part, metas.skip(1), pb);
        assert(metas.skip(1) =~= meta@.skip(next + 1));
        assert(roots@ + all.roots =~= all.roots);
        assert(writes_view(writes@) + all.blocks =~= writes_view(old(writes)@) + all.blocks);
    }
    let ghost mut done = Seq::<(u64, Seq<u8>)>::empty();
    proof {
        assert(done + all.blocks =~= all.blocks);
        assert(writes_view(old(writes)@) + done =~= writes_view(old(writes)@));
    }
    while at < to
        invariant
            from <= at <= to <= list@.len(),
            2 <= level <= 3,
            lower == level - 1,
            1 <= per_block <= 16384,
            pb == per_block,
            size == reach(lower, pb),
            size >= 1,
            next < free,
            free + kids_size(lower, (to - at) as nat, pb) <= meta@.len(),
            free + kids_size(lower, (to - at) as nat, pb) == next + 1 + kids_size(
                lower,
                (to - from) as nat,
                pb,
            ),
            ({
                let rest = kids(
                    lower,
                    list@.subrange(at as int, to as int),
                    meta@.skip(free as int),
                    pb,
                );
                &&& all.roots == roots@ + rest.roots
                &&& all.blocks == done + rest.blocks
            }),
            writes_view(writes@) == writes_view(old(writes)@) + done,
            at < to ==> roots@.len() * size == at - from,
            at == to ==> (roots@.len() - 1) * size < to - from || roots@.len() == 0,
        decreases to - at,
    {
        let ghost rest = list@.subrange(at as int, to as int);
        let ghost here = meta@.skip(free as int);
        let end: usize = if (to - at) as u64 <= size {
            to
        } else {
            at + size as usize
        };
        let ghost head = rest.take(end - at);
        let ghost first = tree(lower, head, here, pb);
        let ghost tail = kids(lower, rest.skip(end - at), here.skip(first.used as int), pb);
        proof {
            lemma_tree_used(lower, head, here, pb);
            assert(head =~= list@.subrange(at as int, end as int));
            assert(rest.skip(end - at) =~= list@.subrange(end as int, to as int));
        }
        roots.push(meta[free]);
        let ghost before = writes@;
        let ghost was = free;
        free = build_tree(level - 1, list, at, end, meta, free, per_block, writes);
        proof {
            assert(here.skip(first.used as int) =~= meta@.skip(free as int));
            assert(roots@.drop_last() + (seq![here[0]] + tail.roots) =~= roots@ + tail.roots);
            assert(done + (first.blocks + tail.blocks) =~= (done + first.blocks) + tail.blocks);
            assert((writes_view(old(writes)@) + done) + first.blocks =~= writes_view(old(writes)@)
                + (done + first.blocks));
            done = done + first.blocks;
            let k = roots@.len() as int;
            assert(k * size == (k - 1) * size + size) by (nonlinear_arith);
        }
        at = end;
    }
    proof {
        let rest = kids(lower, list@.subrange(at as int, to as int), meta@.skip(free as int), pb);
        assert(list@.subrange(at as int, to as int).len() == 0);
        assert(all.roots =~= roots@);
        assert(all.blocks =~= done);
        let k = roots@.len() as int;
        let whole = reach(level as nat, pb) as int;
        assert(whole == pb * size);
        if k > 0 {
            assert(k <= pb) by (nonlinear_arith)
                requires
                    (k - 1) * size < to - from,
                    to - from <= pb * size,
                    size >= 1,
            ;
        }
    }
    let count: usize = roots.len();
    let buf: Vec<u8> = pointers_in(roots.as_slice(), 0, count, per_block);
    assert(roots@.subrange(0, count as int) =~= roots@);
    let ghost before = writes@;
    writes.push((root, buf));
    proof {
        assert(writes_view(writes@) =~= writes_view(before).push((root, buf@)));
        assert((writes_view(old(writes)@) + done).push((root, buf@)) =~= writes_view(old(writes)@)
            + done.push((root, buf@)));
    }
    free
}

/// One level of pointers reaches as many blocks as fit in a pointer block.
proof fn lemma_reach_one(per_block: nat)
    ensures
        reach(1, per_block) == per_block,
{
    reveal_with_fuel(reach, 2);
    assert(per_block * 1 == per_block);
}

/// Pointer blocks over `n` data blocks: as many as it takes to hold them.
proof fn lemma_kids_size_one(n: nat, per_block: nat)
    requires
        per_block >= 1,
    ensures
        kids_size(1, n, per_block) == (n + per_block - 1) / per_block as int,
    decreases n,
{
    lemma_reach_one(per_block);
    let d = per_block as int;
    assert(tree_size(1, n, per_block) == 1);
    assert(tree_size(1, per_block, per_block) == 1);
    if n == 0 {
        assert((d - 1) / d == 0) by (nonlinear_arith)
            requires
                d >= 1,
        ;
    } else if n <= per_block {
        assert((n + d - 1) / d == 1) by (nonlinear_arith)
            requires
                1 <= n <= d,
        ;
    } else {
        lemma_kids_size_one((n - per_block) as nat, per_block);
        assert((n + d - 1) / d == (n - d + d - 1) / d + 1) by (nonlinear_arith)
            requires
                d >= 1,
                n > d,
        ;
    }
}

/// How many blocks trees of one or two levels take, and no more than two for
/// each data block.
fn size_of_tree(level: u32, n: u64, per_block: u64) -> (size: u64)
    requires
        1 <= level <= 3,
        1 <= per_block <= 16384,
        1 <= n <= reach(level as nat, per_block as nat),
    ensures
        size == tree_size(level as nat, n as nat, per_block as nat),
        size <= 3 * n,
        level <= 2 ==> size <= 2 * n,
        level <= 1 ==> size <= n,
{
    let ghost pb = per_block as nat;
    if level == 1 {
        return 1;
    }
    let whole: u64 = reach_of(level, per_block);
    if level == 2 {
        proof {
            lemma_kids_size_one(n as nat, pb);
            let d = per_block as int;
            assert((n + d - 1) / d <= n) by (nonlinear_arith)
                requires
                    d >= 1,
                    n >= 1,
            ;
        }
        return 1 + (n + per_block - 1) / per_block;
    }
    let part: u64 = reach_of(2, per_block);
    let mut left: u64 = n;
    let mut size: u64 = 1;
    while left > 0
        invariant
            left <= n <= 0x400_0000_0000,
            1 <= per_block <= 16384,
            pb == per_block,
            part == reach(2, pb),
            part >= 1,
            size <= 1 + 2 * (n - left),
            tree_size(3, n as nat, pb) == size + kids_size(2, left as nat, pb),
        decreases left,
    {
        let here: u64 = if left <= part {
            left
        } else {
            part
        };
        // A tree of two levels holds a pointer to each of its pointer blocks.
        let blocks: u64 = (here + per_block - 1) / per_block;
        proof {
            lemma_kids_size_one(here as nat, pb);
            let d = per_block as int;
            assert((here + d - 1) / d <= here) by (nonlinear_arith)
                requires
                    d >= 1,
                    here >= 1,
            ;
            assert(tree_size(2, here as nat, pb) == 1 + kids_size(1, here as nat, pb));
            if left <= part {
                assert(kids_size(2, 0, pb) == 0);
                assert(kids_size(2, left as nat, pb) == tree_size(2, left as nat, pb));
            } else {
                assert(kids_size(2, left as nat, pb) == tree_size(2, part as nat, pb) + kids_size(
                    2,
                    (left - part) as nat,
                    pb,
                ));
            }
        }
        size = size + 1 + blocks;
        left = left - here;
    }
    size
}

/// The part of a list under the pointer with `level` levels: from where to
/// where.
fn level_bounds(level: u32, len: usize, per_block: u64) -> (r: (usize, usize))
    requires
        1 <= level <= 3,
        1 <= per_block <= 16384,
    ensures
        r.0 <= r.1 <= len,
        r.1 - r.0 <= reach(level as nat, per_block as nat),
        forall|list: Seq<u64>|
            list.len() == len ==> #[trigger] level_part(list, level as nat, per_block as nat)
                == list.subrange(r.0 as int, r.1 as int),
{
    let ghost pb = per_block as nat;
    reveal_with_fuel(level_start, 4);
    let one: u64 = reach_of(1, per_block);
    let two: u64 = reach_of(2, per_block);
    let size: u64 = reach_of(level, per_block);
    let start: u64 = if level == 1 {
        12
    } else if level == 2 {
        12 + one
    } else {
        12 + one + two
    };
    assert(start == level_start(level as nat, pb));
    let from: usize = if start >= len as u64 {
        len
    } else {
        start as usize
    };
    let to: usize = if start + size >= len as u64 {
        len
    } else {
        (start + size) as usize
    };
    assert forall|list: Seq<u64>| list.len() == len implies #[trigger] level_part(
        list,
        level as nat,
        pb,
    ) == list.subrange(from as int, to as int) by {
        assert(level_part(list, level as nat, pb) =~= list.subrange(from as int, to as int));
    }
    (from, to)
}

/// Blocks the map of `list` takes besides the data: what to allocate before
/// it is built.
pub fn indirect_blocks_needed(list: &[u64], block_size: u32) -> (n: u64)
    requires
        1024 <= block_size <= 65536,
    ensures
        n == meta_needed(list@, (block_size / 4) as nat),
{
    let per_block: u64 = (block_size / 4) as u64;
    let ghost pb = (block_size / 4) as nat;
    let mut n: u64 = 0;
    let mut level: u32 = 1;
    while level <= 3
        invariant
            1 <= level <= 4,
            per_block == pb,
            1 <= per_block <= 16384,
            n == meta_before(list@, level as nat, pb),
            n <= (level - 1) * 0xc00_0000_0000,
        decreases 4 - level,
    {
        let (from, to) = level_bounds(level, list.len(), per_block);
        let ghost part = level_part(list@, level as nat, pb);
        assert(part.len() == to - from);
        if from < to {
            let reached: u64 = reach_of(level, per_block);
            let size: u64 = size_of_tree(level, (to - from) as u64, per_block);
            n = n + size;
        }
        level += 1;
    }
    n
}

/// An inode's map by pointers, laid out.
#[derive(Debug)]
pub struct IndirectMap {
    /// The inode's own pointers.
    pub pointers: Vec<u32>,
    /// The blocks of pointers, in the order they are to be written.
    pub writes: Vec<(u64, Vec<u8>)>,
}

/// Build direct and indirect pointers for `list`, in blocks allocated before.
pub fn build_indirect_map(list: &[u64], block_size: u32, meta: &[u64]) -> (r: Result<IndirectMap>)
    requires
        1024 <= block_size <= 65536,
        meta@.len() == meta_needed(list@, (block_size / 4) as nat),
    ensures
        ({
            let pb = (block_size / 4) as nat;
            let limit = level_start(3, pb) + reach(3, pb);
            match r {
                Ok(map) => {
                    &&& list@.len() <= limit
                    &&& map.pointers@ == inode_pointers(list@, meta@, pb)
                    &&& writes_view(map.writes@) == level_blocks(list@, meta@, 1, pb)
                        + level_blocks(list@, meta@, 2, pb) + level_blocks(list@, meta@, 3, pb)
                },
                Err(e) => list@.len() > limit && (e matches Error::Unsupported(m) && m@
                    == too_long_text(list@.len(), block_size as nat)),
            }
        }),
{
    let per_block: usize = (block_size / 4) as usize;
    let ghost pb = (block_size / 4) as nat;
    let one: u64 = reach_of(1, per_block as u64);
    let two: u64 = reach_of(2, per_block as u64);
    let three: u64 = reach_of(3, per_block as u64);
    proof {
        reveal_with_fuel(level_start, 4);
    }
    if list.len() as u64 > 12 + one + two + three {
        let mut m: String = "a ".to_owned();
        text::push_decimal(&mut m, list.len() as u64);
        m.append("-block file exceeds what triple indirection addresses at ");
        text::push_decimal(&mut m, block_size as u64);
        m.append("-byte blocks");
        return Err(Error::Unsupported(m));
    }
    let mut pointers: Vec<u32> = Vec::new();
    // Direct blocks.
    let mut i: usize = 0;
    while i < NDIR_BLOCKS
        invariant
            i <= 12,
            pointers@.len() == i,
            forall|j: int|
                0 <= j < i ==> #[trigger] pointers@[j] == inode_pointers(list@, meta@, pb)[j],
        decreases 12 - i,
    {
        if i < list.len() {
            pointers.push((list[i] % 0x1_0000_0000) as u32);
        } else {
            pointers.push(0);
        }
        i += 1;
    }
    // One level, two levels, three.
    let mut writes: Vec<(u64, Vec<u8>)> = Vec::new();
    let mut next: usize = 0;
    let mut level: u32 = 1;
    let ghost b1 = level_blocks(list@, meta@, 1, pb);
    let ghost b2 = level_blocks(list@, meta@, 2, pb);
    let ghost b3 = level_blocks(list@, meta@, 3, pb);
    assert(writes_view(writes@) =~= Seq::empty());
    while level <= 3
        invariant
            1 <= level <= 4,
            per_block == pb,
            1 <= per_block <= 16384,
            meta@.len() == meta_needed(list@, pb),
            pointers@.len() == 11 + level,
            forall|j: int|
                0 <= j < 11 + level ==> #[trigger] pointers@[j] == inode_pointers(
                    list@,
                    meta@,
                    pb,
                )[j],
            next == meta_before(list@, level as nat, pb),
            b1 == level_blocks(list@, meta@, 1, pb),
            b2 == level_blocks(list@, meta@, 2, pb),
            b3 == level_blocks(list@, meta@, 3, pb),
            writes_view(writes@) == (if level == 1 {
                Seq::empty()
            } else if level == 2 {
                b1
            } else if level == 3 {
                b1 + b2
            } else {
                b1 + b2 + b3
            }),
        decreases 4 - level,
    {
        let (from, to) = level_bounds(level, list.len(), per_block as u64);
        let ghost part = level_part(list@, level as nat, pb);
        let ghost before = writes_view(writes@);
        assert(part == list@.subrange(from as int, to as int));
        proof {
            reveal_with_fuel(meta_before, 5);
        }
        if from < to {
            pointers.push((meta[next] % 0x1_0000_0000) as u32);
            next = build_tree(level, list, from, to, meta, next, per_block, &mut writes);
        } else {
            pointers.push(0);
        }
        proof {
            assert(writes_view(writes@) =~= before + level_blocks(list@, meta@, level as nat, pb));
            assert(Seq::<(u64, Seq<u8>)>::empty() + b1 =~= b1);
        }
        level += 1;
    }
    assert(pointers@ =~= inode_pointers(list@, meta@, pb));
    Ok(IndirectMap { pointers, writes })
}

} // verus!
