//! What holds of allocating and freeing.

use vstd::prelude::*;

use crate::allocator::{self, AllocView, GroupDesc, Spot};
use crate::bitmap;

verus! {

/// Free blocks over all groups.
pub open spec fn sum_blocks(groups: Seq<GroupDesc>) -> nat
    decreases groups.len(),
{
    if groups.len() == 0 {
        0
    } else {
        sum_blocks(groups.drop_last()) + groups.last().free_blocks_count as nat
    }
}

/// Free inodes over all groups.
pub open spec fn sum_inodes(groups: Seq<GroupDesc>) -> nat
    decreases groups.len(),
{
    if groups.len() == 0 {
        0
    } else {
        sum_inodes(groups.drop_last()) + groups.last().free_inodes_count as nat
    }
}

/// Whether the counters tell the truth: each group's descriptor counts the
/// clear bits of its bitmaps, and the totals count what the descriptors do.
pub open spec fn in_step(a: AllocView) -> bool {
    &&& a.valid()
    &&& forall|g: int|
        0 <= g < a.groups.len() ==> (#[trigger] a.block[g] matches Some(map)
            ==> a.groups[g].free_blocks_count == bitmap::clear_bits(
            map,
            a.geometry.block_count(g) as nat,
        ))
    &&& forall|g: int|
        0 <= g < a.groups.len() ==> (#[trigger] a.inode[g] matches Some(map)
            ==> a.groups[g].free_inodes_count == bitmap::clear_bits(
            map,
            a.geometry.inodes_per_group as nat,
        ))
    &&& a.free_blocks == sum_blocks(a.groups)
    &&& a.free_inodes == sum_inodes(a.groups)
}

proof fn lemma_sum_update(groups: Seq<GroupDesc>, g: int, d: GroupDesc)
    requires
        0 <= g < groups.len(),
    ensures
        sum_blocks(groups.update(g, d)) == sum_blocks(groups) - groups[g].free_blocks_count
            + d.free_blocks_count,
        sum_inodes(groups.update(g, d)) == sum_inodes(groups) - groups[g].free_inodes_count
            + d.free_inodes_count,
        groups[g].free_blocks_count <= sum_blocks(groups),
        groups[g].free_inodes_count <= sum_inodes(groups),
    decreases groups.len(),
{
    let new = groups.update(g, d);
    if g == groups.len() - 1 {
        assert(new.drop_last() =~= groups.drop_last());
    } else {
        lemma_sum_update(groups.drop_last(), g, d);
        assert(new.drop_last() =~= groups.drop_last().update(g, d));
    }
}

proof fn lemma_some_clear(map: Seq<u8>, i: int, n: nat)
    requires
        0 <= i < n,
        !bitmap::bit(map, i),
    ensures
        bitmap::clear_bits(map, n) >= 1,
    decreases n,
{
    if i < n - 1 {
        lemma_some_clear(map, i, (n - 1) as nat);
    }
}

/// Where the search for a block ends, it ends at a free one.
pub proof fn law_block_found_was_free(a: AllocView, start: int, from: int, step: int)
    requires
        a.valid(),
        0 <= start < a.geometry.groups(),
        0 <= from <= a.geometry.block_count(start),
        0 <= step,
    ensures
        match a.block_spot(start, from, step) {
            Spot::At(g, i) => {
                &&& 0 <= g < a.geometry.groups()
                &&& a.block[g] is Some
                &&& 0 <= i < a.geometry.block_count(g)
                &&& !bitmap::bit(a.block[g]->0, i)
            },
            Spot::Unread(g) => 0 <= g < a.geometry.groups() && a.block[g] is None,
            Spot::Full => true,
        },
    decreases a.geometry.groups() - step,
{
    let n = a.geometry.groups();
    if step < n {
        let g = (start + step) % n;
        vstd::arithmetic::div_mod::lemma_mod_bound(start + step, n);
        a.geometry.lemma_group(g);
        if step == 0 {
            vstd::arithmetic::div_mod::lemma_small_mod(start as nat, n as nat);
        }
        let at = if step == 0 {
            from
        } else {
            0
        };
        if a.block[g] is Some {
            bitmap::lemma_clear_near(a.block[g]->0, at, a.geometry.block_count(g));
            law_block_found_was_free(a, start, from, step + 1);
        }
    }
}

/// A search starts within its group.
proof fn lemma_start(a: AllocView, goal: int)
    requires
        a.valid(),
    ensures
        ({
            let (start, from) = a.block_start(goal);
            &&& 0 <= start < a.geometry.groups()
            &&& 0 <= from <= a.geometry.block_count(start)
        }),
{
    a.geometry.lemma_some_group();
    a.geometry.lemma_group(0);
    if a.geometry.holds(goal) {
        a.geometry.lemma_block(goal);
        a.geometry.lemma_group(a.geometry.group_of(goal));
    }
}

/// Allocating a block keeps the bitmap, the descriptor and the totals in step.
pub proof fn law_alloc_block_stays_in_step(a: AllocView, goal: int)
    requires
        in_step(a),
    ensures
        a.spot_near(goal) matches Spot::At(g, i) ==> in_step(a.with_block(g, i)),
{
    let (start, from) = a.block_start(goal);
    lemma_start(a, goal);
    law_block_found_was_free(a, start, from, 0);
    if let Spot::At(g, i) = a.spot_near(goal) {
        a.geometry.lemma_group(g);
        let b = a.with_block(g, i);
        let map = a.block[g]->0;
        let n = a.geometry.block_count(g) as nat;
        bitmap::lemma_with_bit(map, i, true);
        bitmap::lemma_count_with_bit(map, i, true, n);
        lemma_some_clear(map, i, n);
        lemma_sum_update(a.groups, g, b.groups[g]);
        assert forall|h: int| 0 <= h < b.groups.len() implies (#[trigger] b.block[h] matches Some(
            m,
        ) ==> b.groups[h].free_blocks_count == bitmap::clear_bits(
            m,
            b.geometry.block_count(h) as nat,
        )) by {
            assert(a.block[h] == a.block[h]);
        }
        assert forall|h: int| 0 <= h < b.groups.len() implies (#[trigger] b.inode[h] matches Some(
            m,
        ) ==> b.groups[h].free_inodes_count == bitmap::clear_bits(
            m,
            b.geometry.inodes_per_group as nat,
        )) by {
            assert(a.inode[h] == b.inode[h]);
        }
    }
}

/// Freeing a block in use keeps everything in step.
pub proof fn law_free_block_stays_in_step(a: AllocView, g: int, i: int)
    requires
        in_step(a),
        0 <= g < a.geometry.groups(),
        a.block[g] is Some,
        0 <= i < a.geometry.block_count(g),
        bitmap::bit(a.block[g]->0, i),
        a.groups[g].free_blocks_count < u32::MAX,
        a.free_blocks < u64::MAX,
    ensures
        in_step(a.without_block(g, i)),
{
    a.geometry.lemma_group(g);
    let b = a.without_block(g, i);
    let map = a.block[g]->0;
    let n = a.geometry.block_count(g) as nat;
    bitmap::lemma_with_bit(map, i, false);
    bitmap::lemma_count_with_bit(map, i, false, n);
    lemma_sum_update(a.groups, g, b.groups[g]);
    assert forall|h: int| 0 <= h < b.groups.len() implies (#[trigger] b.block[h] matches Some(m)
        ==> b.groups[h].free_blocks_count == bitmap::clear_bits(
        m,
        b.geometry.block_count(h) as nat,
    )) by {
        assert(a.block[h] == a.block[h]);
    }
    assert forall|h: int| 0 <= h < b.groups.len() implies (#[trigger] b.inode[h] matches Some(m)
        ==> b.groups[h].free_inodes_count == bitmap::clear_bits(
        m,
        b.geometry.inodes_per_group as nat,
    )) by {
        assert(a.inode[h] == b.inode[h]);
    }
}

/// Freeing what was just allocated puts the bitmap and the counters back.
pub proof fn law_free_undoes_alloc_block(a: AllocView, goal: int)
    requires
        in_step(a),
    ensures
        a.spot_near(goal) matches Spot::At(g, i) ==> {
            let b = a.with_block(g, i).without_block(g, i);
            &&& b.block == a.block
            &&& b.inode == a.inode
            &&& b.free_blocks == a.free_blocks
            &&& b.free_inodes == a.free_inodes
            &&& b.groups == a.groups.update(
                g,
                GroupDesc {
                    flags: a.groups[g].flags & !allocator::BLOCK_UNINIT,
                    ..a.groups[g]
                },
            )
        },
{
    let (start, from) = a.block_start(goal);
    lemma_start(a, goal);
    law_block_found_was_free(a, start, from, 0);
    if let Spot::At(g, i) = a.spot_near(goal) {
        a.geometry.lemma_group(g);
        let map = a.block[g]->0;
        let n = a.geometry.block_count(g) as nat;
        bitmap::lemma_bit_back(map, i, true);
        lemma_some_clear(map, i, n);
        let c = a.with_block(g, i);
        let b = c.without_block(g, i);
        lemma_sum_update(a.groups, g, c.groups[g]);
        assert(b.block =~= a.block);
        assert(b.groups =~= a.groups.update(
            g,
            GroupDesc { flags: a.groups[g].flags & !allocator::BLOCK_UNINIT, ..a.groups[g] },
        ));
    }
}

/// Whether every bit of a group's blocks is set.
pub open spec fn group_full(a: AllocView, g: int) -> bool {
    a.block[g] matches Some(map) && forall|i: int|
        0 <= i < a.geometry.block_count(g) ==> bitmap::bit(map, i)
}

/// A search that finds nothing has looked at every group it has left.
proof fn lemma_full_from(a: AllocView, start: int, from: int, step: int)
    requires
        a.valid(),
        0 <= start < a.geometry.groups(),
        0 <= from <= a.geometry.block_count(start),
        0 <= step,
    ensures
        a.block_spot(start, from, step) is Full <==> forall|s: int|
            step <= s < a.geometry.groups() ==> group_full(
                a,
                #[trigger] ((start + s) % a.geometry.groups()),
            ),
    decreases a.geometry.groups() - step,
{
    let n = a.geometry.groups();
    if step < n {
        let g = (start + step) % n;
        vstd::arithmetic::div_mod::lemma_mod_bound(start + step, n);
        a.geometry.lemma_group(g);
        if step == 0 {
            vstd::arithmetic::div_mod::lemma_small_mod(start as nat, n as nat);
        }
        let at = if step == 0 {
            from
        } else {
            0
        };
        lemma_full_from(a, start, from, step + 1);
        if a.block[g] is Some {
            bitmap::lemma_clear_near(a.block[g]->0, at, a.geometry.block_count(g));
        }
        if group_full(a, g) {
            assert(a.block_spot(start, from, step) == a.block_spot(start, from, step + 1));
        } else {
            assert(!(a.block_spot(start, from, step) is Full));
            assert(!group_full(a, (start + step) % n));
        }
    }
}

/// There is no space exactly when every block of every group is in use.
pub proof fn law_no_space_means_full(a: AllocView, goal: int)
    requires
        a.valid(),
    ensures
        a.spot_near(goal) is Full <==> forall|g: int|
            0 <= g < a.geometry.groups() ==> #[trigger] group_full(a, g),
{
    let (start, from) = a.block_start(goal);
    let n = a.geometry.groups();
    lemma_start(a, goal);
    lemma_full_from(a, start, from, 0);
    if a.spot_near(goal) is Full {
        assert forall|g: int| 0 <= g < n implies #[trigger] group_full(a, g) by {
            let s = if g >= start {
                g - start
            } else {
                g - start + n
            };
            assert((start + s) % n == g) by {
                if g >= start {
                    vstd::arithmetic::div_mod::lemma_small_mod(g as nat, n as nat);
                } else {
                    vstd::arithmetic::div_mod::lemma_mod_add_multiples_vanish(g, n);
                    vstd::arithmetic::div_mod::lemma_small_mod(g as nat, n as nat);
                }
            }
            assert(group_full(a, (start + s) % n));
        }
    }
    if forall|g: int| 0 <= g < n ==> #[trigger] group_full(a, g) {
        assert forall|s: int| 0 <= s < n implies group_full(a, #[trigger] ((start + s) % n)) by {
            vstd::arithmetic::div_mod::lemma_mod_bound(start + s, n);
        }
    }
}

/// The goal itself is handed out whenever it is free.
pub proof fn law_goal_is_preferred(a: AllocView, goal: int)
    requires
        a.valid(),
        a.geometry.holds(goal),
        ({
            let g = a.geometry.group_of(goal);
            a.block[g] matches Some(map) && !bitmap::bit(map, goal - a.geometry.first_block(g))
        }),
    ensures
        a.spot_near(goal) == Spot::At(
            a.geometry.group_of(goal),
            goal - a.geometry.first_block(a.geometry.group_of(goal)),
        ),
{
    a.geometry.lemma_block(goal);
    let n = a.geometry.groups();
    let g = a.geometry.group_of(goal);
    vstd::arithmetic::div_mod::lemma_small_mod(g as nat, n as nat);
}

/// Whether the bitmap that holds a block has been read and shows it free.
pub open spec fn is_free(a: AllocView, block: int) -> bool {
    let g = a.geometry.group_of(block);
    &&& a.geometry.holds(block)
    &&& a.block[g] matches Some(map) && !bitmap::bit(map, block - a.geometry.first_block(g))
}

/// Allocating a block takes one that is free, and leaves every other block as
/// it was.
pub proof fn law_alloc_block_takes_one(a: AllocView, goal: int)
    requires
        a.valid(),
    ensures
        a.spot_near(goal) matches Spot::At(g, i) ==> {
            let b = a.geometry.first_block(g) + i;
            &&& 0 <= b < u64::MAX
            &&& is_free(a, b)
            &&& a.with_block(g, i).valid()
            &&& !is_free(a.with_block(g, i), b)
            &&& forall|c: int|
                c != b ==> #[trigger] is_free(a.with_block(g, i), c) == is_free(a, c)
        },
{
    let (start, from) = a.block_start(goal);
    lemma_start(a, goal);
    law_block_found_was_free(a, start, from, 0);
    if let Spot::At(g, i) = a.spot_near(goal) {
        a.geometry.lemma_group(g);
        a.geometry.lemma_group_of(g, i);
        let w = a.with_block(g, i);
        let b = a.geometry.first_block(g) + i;
        let map = a.block[g]->0;
        bitmap::lemma_with_bit(map, i, true);
        assert forall|h: int| 0 <= h < w.geometry.groups() implies (#[trigger] w.block[h] matches
            Some(m) ==> w.geometry.blocks_per_group <= 8 * m.len()) by {
            assert(a.block[h] == a.block[h]);
        }
        assert forall|h: int| 0 <= h < w.geometry.groups() implies (#[trigger] w.inode[h] matches
            Some(m) ==> w.geometry.inodes_per_group <= 8 * m.len()) by {
            assert(a.inode[h] == w.inode[h]);
        }
        assert forall|c: int| c != b implies #[trigger] is_free(w, c) == is_free(a, c) by {
            if a.geometry.holds(c) {
                a.geometry.lemma_block(c);
                let h = a.geometry.group_of(c);
                a.geometry.lemma_group(h);
                if h == g {
                    let j = c - a.geometry.first_block(h);
                    assert(bitmap::bit(bitmap::with_bit(map, i, true), j) == bitmap::bit(map, j));
                }
            }
        }
    }
}

/// Blocks allocated one after the other were all free, and no two are the
/// same.
pub proof fn law_allocated_blocks_are_new(a: AllocView, goal: int, blocks: Seq<u64>, count: int)
    requires
        a.valid(),
    ensures
        ({
            let out = allocator::allocated(a, goal, blocks, count).1;
            &&& blocks.len() <= out.len()
            &&& out.take(blocks.len() as int) == blocks
            &&& forall|k: int|
                blocks.len() <= k < out.len() ==> is_free(a, #[trigger] out[k] as int)
            &&& forall|j: int, k: int|
                #![trigger out[j], out[k]]
                blocks.len() <= j < k < out.len() ==> out[j] != out[k]
        }),
    decreases count - blocks.len(),
{
    let out = allocator::allocated(a, goal, blocks, count).1;
    let near = if blocks.len() > 0 {
        blocks.last() + 1
    } else {
        goal
    };
    law_alloc_block_takes_one(a, near);
    if blocks.len() < count && a.spot_near(near) is At {
        if let Spot::At(g, i) = a.spot_near(near) {
            let b = a.geometry.first_block(g) + i;
            let next = blocks.push(b as u64);
            law_allocated_blocks_are_new(a.with_block(g, i), goal, next, count);
            assert(out.take(next.len() as int)[blocks.len() as int] == b);
            assert(out.take(blocks.len() as int) =~= out.take(next.len() as int).take(
                blocks.len() as int,
            ));
            assert(next.take(blocks.len() as int) =~= blocks);
        }
    } else {
        assert(out.take(blocks.len() as int) =~= blocks);
    }
}

/// What looking for an inode finds: one that exists, is free and is not
/// reserved.
proof fn lemma_inode_from(a: AllocView, map: Seq<u8>, g: int, i: int)
    requires
        0 <= i,
    ensures
        a.free_inode_from(map, g, i) matches Some(k) ==> {
            &&& i <= k < a.geometry.inodes_per_group
            &&& !bitmap::bit(map, k)
            &&& a.geometry.first_ino <= a.inode_number(g, k) <= a.geometry.inodes_count
        },
    decreases a.geometry.inodes_per_group - i,
{
    if i < a.geometry.inodes_per_group {
        lemma_inode_from(a, map, g, i + 1);
    }
}

/// An inode handed out was free, exists, and is never a reserved one.
pub proof fn law_inode_found_was_free(a: AllocView, start: int, step: int)
    requires
        a.valid(),
        0 <= start,
        0 <= step,
    ensures
        match a.inode_spot(start, step) {
            Spot::At(g, i) => {
                &&& 0 <= g < a.geometry.groups()
                &&& a.inode[g] is Some
                &&& 0 <= i < a.geometry.inodes_per_group
                &&& !bitmap::bit(a.inode[g]->0, i)
                &&& a.geometry.first_ino <= a.inode_number(g, i) <= a.geometry.inodes_count
            },
            Spot::Unread(g) => 0 <= g < a.geometry.groups() && a.inode[g] is None,
            Spot::Full => true,
        },
    decreases a.geometry.groups() - step,
{
    let n = a.geometry.groups();
    if step < n {
        let g = (start + step) % n;
        vstd::arithmetic::div_mod::lemma_mod_bound(start + step, n);
        if a.inode[g] is Some {
            lemma_inode_from(a, a.inode[g]->0, g, 0);
            law_inode_found_was_free(a, start, step + 1);
        }
    }
}

/// Allocating an inode keeps the bitmap, the descriptor and the totals in
/// step.
pub proof fn law_alloc_inode_stays_in_step(a: AllocView, near: int, is_dir: bool)
    requires
        in_step(a),
    ensures
        a.inode_spot(a.inode_start(near), 0) matches Spot::At(g, i) ==> in_step(
            a.with_inode(g, i, is_dir),
        ),
{
    assert(a.inode_start(near) >= 0) by (nonlinear_arith)
        requires
            a.geometry.inodes_per_group > 0,
    {
        if 0 < near <= a.geometry.inodes_count {
            assert((near - 1) / a.geometry.inodes_per_group as int >= 0);
        }
    }
    law_inode_found_was_free(a, a.inode_start(near), 0);
    if let Spot::At(g, i) = a.inode_spot(a.inode_start(near), 0) {
        let b = a.with_inode(g, i, is_dir);
        let map = a.inode[g]->0;
        let n = a.geometry.inodes_per_group as nat;
        bitmap::lemma_with_bit(map, i, true);
        bitmap::lemma_count_with_bit(map, i, true, n);
        lemma_some_clear(map, i, n);
        lemma_sum_update(a.groups, g, b.groups[g]);
        assert forall|h: int| 0 <= h < b.groups.len() implies (#[trigger] b.inode[h] matches Some(
            m,
        ) ==> b.groups[h].free_inodes_count == bitmap::clear_bits(
            m,
            b.geometry.inodes_per_group as nat,
        )) by {
            assert(a.inode[h] == a.inode[h]);
        }
        assert forall|h: int| 0 <= h < b.groups.len() implies (#[trigger] b.block[h] matches Some(
            m,
        ) ==> b.groups[h].free_blocks_count == bitmap::clear_bits(
            m,
            b.geometry.block_count(h) as nat,
        )) by {
            assert(a.block[h] == b.block[h]);
        }
    }
}

/// Freeing an inode in use keeps everything in step.
pub proof fn law_free_inode_stays_in_step(a: AllocView, g: int, i: int, was_dir: bool)
    requires
        in_step(a),
        0 <= g < a.geometry.groups(),
        a.inode[g] is Some,
        0 <= i < a.geometry.inodes_per_group,
        bitmap::bit(a.inode[g]->0, i),
        a.groups[g].free_inodes_count < u32::MAX,
        a.free_inodes < u32::MAX,
    ensures
        in_step(a.without_inode(g, i, was_dir)),
{
    let b = a.without_inode(g, i, was_dir);
    let map = a.inode[g]->0;
    let n = a.geometry.inodes_per_group as nat;
    bitmap::lemma_with_bit(map, i, false);
    bitmap::lemma_count_with_bit(map, i, false, n);
    lemma_sum_update(a.groups, g, b.groups[g]);
    assert forall|h: int| 0 <= h < b.groups.len() implies (#[trigger] b.inode[h] matches Some(m)
        ==> b.groups[h].free_inodes_count == bitmap::clear_bits(
        m,
        b.geometry.inodes_per_group as nat,
    )) by {
        assert(a.inode[h] == a.inode[h]);
    }
    assert forall|h: int| 0 <= h < b.groups.len() implies (#[trigger] b.block[h] matches Some(m)
        ==> b.groups[h].free_blocks_count == bitmap::clear_bits(
        m,
        b.geometry.block_count(h) as nat,
    )) by {
        assert(a.block[h] == b.block[h]);
    }
}

proof fn lemma_nothing_changed(
    maps: Seq<Option<Seq<u8>>>,
    dirty: Seq<bool>,
    covered: nat,
    n: nat,
)
    requires
        n <= dirty.len(),
        forall|i: int| 0 <= i < dirty.len() ==> !#[trigger] dirty[i],
    ensures
        allocator::changed(maps, dirty, covered, n).len() == 0,
    decreases n,
{
    if n > 0 {
        assert(!dirty[n - 1]);
        lemma_nothing_changed(maps, dirty, covered, (n - 1) as nat);
    }
}

/// Once everything has been written back nothing waits to be: no bitmap is
/// dirty, a second flush hands nothing over, and what is free is as it was.
pub proof fn law_flushing_twice_is_flushing_once(a: AllocView)
    requires
        a.valid(),
    ensures
        ({
            let b = a.written_back();
            &&& b.valid()
            &&& !allocator::any_set(b.dirty_block)
            &&& !allocator::any_set(b.dirty_inode)
            &&& forall|covered: nat|
                #![trigger allocator::changed(b.block, b.dirty_block, covered, b.groups.len())]
                allocator::changed(b.block, b.dirty_block, covered, b.groups.len()).len() == 0
            &&& forall|covered: nat|
                #![trigger allocator::changed(b.inode, b.dirty_inode, covered, b.groups.len())]
                allocator::changed(b.inode, b.dirty_inode, covered, b.groups.len()).len() == 0
            &&& b.written_back() == b
            &&& in_step(a) ==> in_step(b)
        }),
{
    let b = a.written_back();
    assert forall|covered: nat|
        #![trigger allocator::changed(b.block, b.dirty_block, covered, b.groups.len())]
        allocator::changed(b.block, b.dirty_block, covered, b.groups.len()).len() == 0 by {
        lemma_nothing_changed(b.block, b.dirty_block, covered, b.groups.len());
    }
    assert forall|covered: nat|
        #![trigger allocator::changed(b.inode, b.dirty_inode, covered, b.groups.len())]
        allocator::changed(b.inode, b.dirty_inode, covered, b.groups.len()).len() == 0 by {
        lemma_nothing_changed(b.inode, b.dirty_inode, covered, b.groups.len());
    }
    assert(b.written_back() =~= b);
}

/// Whether a device holds every bitmap that was read and has not changed
/// since.
pub open spec fn maps_backed(
    maps: Seq<Option<Seq<u8>>>,
    dirty: Seq<bool>,
    disk: Seq<Seq<u8>>,
) -> bool {
    forall|g: int|
        0 <= g < maps.len() && !dirty[g] ==> (#[trigger] maps[g] matches Some(map) ==> map
            == disk[g])
}

/// Whether an allocator's bitmaps are those of a device, but for the ones that
/// wait to be written back. `blocks` and `inodes` are the bitmaps of each group
/// there.
pub open spec fn is_backed(a: AllocView, blocks: Seq<Seq<u8>>, inodes: Seq<Seq<u8>>) -> bool {
    &&& blocks.len() == a.groups.len()
    &&& inodes.len() == a.groups.len()
    &&& maps_backed(a.block, a.dirty_block, blocks)
    &&& maps_backed(a.inode, a.dirty_inode, inodes)
}

/// The bitmaps of a device once some have been written.
pub open spec fn stored(disk: Seq<Seq<u8>>, list: Seq<(int, Seq<u8>, nat)>) -> Seq<Seq<u8>>
    decreases list.len(),
{
    if list.len() == 0 {
        disk
    } else {
        stored(disk, list.drop_last()).update(list.last().0, list.last().1)
    }
}

/// An allocator over the same descriptors and totals that has read all its
/// bitmaps from a device.
pub open spec fn reopened(a: AllocView, blocks: Seq<Seq<u8>>, inodes: Seq<Seq<u8>>) -> AllocView {
    AllocView {
        block: blocks.map_values(|m: Seq<u8>| Some(m)),
        inode: inodes.map_values(|m: Seq<u8>| Some(m)),
        dirty_block: Seq::new(a.groups.len(), |i: int| false),
        dirty_inode: Seq::new(a.groups.len(), |i: int| false),
        ..a
    }
}

/// An allocator over these descriptors and totals once the bitmaps of its first
/// `n` groups have been read.
pub open spec fn opened(
    a: AllocView,
    blocks: Seq<Seq<u8>>,
    inodes: Seq<Seq<u8>>,
    n: nat,
) -> AllocView
    decreases n,
{
    if n == 0 {
        AllocView {
            block: Seq::new(a.groups.len(), |i: int| None::<Seq<u8>>),
            inode: Seq::new(a.groups.len(), |i: int| None::<Seq<u8>>),
            dirty_block: Seq::new(a.groups.len(), |i: int| false),
            dirty_inode: Seq::new(a.groups.len(), |i: int| false),
            ..a
        }
    } else {
        let before = opened(a, blocks, inodes, (n - 1) as nat);
        AllocView {
            block: before.block.update(n - 1, Some(blocks[n - 1])),
            inode: before.inode.update(n - 1, Some(inodes[n - 1])),
            ..before
        }
    }
}

proof fn lemma_opened(a: AllocView, blocks: Seq<Seq<u8>>, inodes: Seq<Seq<u8>>, n: nat)
    requires
        n <= a.groups.len(),
    ensures
        ({
            let r = opened(a, blocks, inodes, n);
            &&& r == (AllocView {
                block: r.block,
                inode: r.inode,
                dirty_block: Seq::new(a.groups.len(), |i: int| false),
                dirty_inode: Seq::new(a.groups.len(), |i: int| false),
                ..a
            })
            &&& r.block.len() == a.groups.len()
            &&& r.inode.len() == a.groups.len()
            &&& forall|g: int| 0 <= g < n ==> #[trigger] r.block[g] == Some(blocks[g])
            &&& forall|g: int| 0 <= g < n ==> #[trigger] r.inode[g] == Some(inodes[g])
        }),
    decreases n,
{
    if n > 0 {
        lemma_opened(a, blocks, inodes, (n - 1) as nat);
    }
}

/// Reading every bitmap, one group after the other, gives an allocator that has
/// read all of them.
pub proof fn law_reading_all_bitmaps_reopens(
    a: AllocView,
    blocks: Seq<Seq<u8>>,
    inodes: Seq<Seq<u8>>,
)
    requires
        blocks.len() == a.groups.len(),
        inodes.len() == a.groups.len(),
    ensures
        opened(a, blocks, inodes, a.groups.len()) == reopened(a, blocks, inodes),
{
    let r = opened(a, blocks, inodes, a.groups.len());
    lemma_opened(a, blocks, inodes, a.groups.len());
    assert(r.block =~= reopened(a, blocks, inodes).block);
    assert(r.inode =~= reopened(a, blocks, inodes).inode);
    assert(r =~= reopened(a, blocks, inodes));
}

proof fn lemma_stored(
    maps: Seq<Option<Seq<u8>>>,
    dirty: Seq<bool>,
    disk: Seq<Seq<u8>>,
    covered: nat,
    n: nat,
)
    requires
        n <= maps.len(),
        maps.len() == dirty.len(),
        maps.len() == disk.len(),
    ensures
        ({
            let new = stored(disk, allocator::changed(maps, dirty, covered, n));
            &&& new.len() == disk.len()
            &&& forall|g: int|
                0 <= g < disk.len() ==> #[trigger] new[g] == (if g < n && dirty[g]
                    && maps[g] is Some {
                    maps[g]->0
                } else {
                    disk[g]
                })
        }),
    decreases n,
{
    if n > 0 {
        let list = allocator::changed(maps, dirty, covered, n);
        let before = allocator::changed(maps, dirty, covered, (n - 1) as nat);
        lemma_stored(maps, dirty, disk, covered, (n - 1) as nat);
        if maps[n - 1] is Some && dirty[n - 1] {
            assert(list.drop_last() =~= before);
        }
    }
}

/// What is flushed survives: an allocator that reads its bitmaps again once
/// those handed out have been written has every bitmap that was known, finds
/// every other where it was on the device, counts the same, and nothing of it
/// waits to be written.
pub proof fn law_flushed_state_is_found_again(
    a: AllocView,
    blocks: Seq<Seq<u8>>,
    inodes: Seq<Seq<u8>>,
)
    requires
        a.valid(),
        is_backed(a, blocks, inodes),
        forall|g: int|
            0 <= g < blocks.len() ==> a.geometry.blocks_per_group <= 8 * (
            #[trigger] blocks[g]).len(),
        forall|g: int|
            0 <= g < inodes.len() ==> a.geometry.inodes_per_group <= 8 * (
            #[trigger] inodes[g]).len(),
    ensures
        ({
            let n = a.groups.len();
            let covered = allocator::bytes_for(a.geometry.blocks_per_group);
            let counted = allocator::bytes_for(a.geometry.inodes_per_group);
            let b = stored(blocks, allocator::changed(a.block, a.dirty_block, covered, n));
            let i = stored(inodes, allocator::changed(a.inode, a.dirty_inode, counted, n));
            let r = reopened(a, b, i);
            &&& r.valid()
            &&& is_backed(a.written_back(), b, i)
            &&& is_backed(r, b, i)
            &&& forall|g: int|
                0 <= g < n ==> #[trigger] r.block[g] == (match a.block[g] {
                    Some(map) => Some(map),
                    None => Some(blocks[g]),
                })
            &&& forall|g: int|
                0 <= g < n ==> #[trigger] r.inode[g] == (match a.inode[g] {
                    Some(map) => Some(map),
                    None => Some(inodes[g]),
                })
            &&& r.groups == a.groups
            &&& r.free_blocks == a.free_blocks
            &&& r.free_inodes == a.free_inodes
            &&& !allocator::any_set(r.dirty_block)
            &&& !allocator::any_set(r.dirty_inode)
            &&& (forall|g: int| 0 <= g < n ==> (#[trigger] a.block[g]) is Some) && (forall|g: int|
                0 <= g < n ==> (#[trigger] a.inode[g]) is Some) ==> r == a.written_back()
        }),
{
    let n = a.groups.len();
    let covered = allocator::bytes_for(a.geometry.blocks_per_group);
    let counted = allocator::bytes_for(a.geometry.inodes_per_group);
    let b = stored(blocks, allocator::changed(a.block, a.dirty_block, covered, n));
    let i = stored(inodes, allocator::changed(a.inode, a.dirty_inode, counted, n));
    let r = reopened(a, b, i);
    lemma_stored(a.block, a.dirty_block, blocks, covered, n);
    lemma_stored(a.inode, a.dirty_inode, inodes, counted, n);
    assert forall|g: int| 0 <= g < n implies #[trigger] r.block[g] == (match a.block[g] {
        Some(map) => Some(map),
        None => Some(blocks[g]),
    }) by {
        assert(r.block[g] == Some(b[g]));
    }
    assert forall|g: int| 0 <= g < n implies #[trigger] r.inode[g] == (match a.inode[g] {
        Some(map) => Some(map),
        None => Some(inodes[g]),
    }) by {
        assert(r.inode[g] == Some(i[g]));
    }
    let w = a.written_back();
    assert forall|g: int| 0 <= g < w.block.len() && !w.dirty_block[g] implies (
    #[trigger] w.block[g] matches Some(map) ==> map == b[g]) by {
        assert(r.block[g] == Some(b[g]));
    }
    assert forall|g: int| 0 <= g < w.inode.len() && !w.dirty_inode[g] implies (
    #[trigger] w.inode[g] matches Some(map) ==> map == i[g]) by {
        assert(r.inode[g] == Some(i[g]));
    }
    if (forall|g: int| 0 <= g < n ==> (#[trigger] a.block[g]) is Some) && (forall|g: int|
        0 <= g < n ==> (#[trigger] a.inode[g]) is Some) {
        assert(r.block =~= w.block);
        assert(r.inode =~= w.inode);
        assert(r =~= w);
    }
}

/// Whatever changes a bitmap marks it to be written back, and reading one that
/// was not known takes it as it is on the device: an allocator's bitmaps stay
/// those of its device, but for the ones that wait.
pub proof fn law_changes_wait_to_be_written(
    a: AllocView,
    blocks: Seq<Seq<u8>>,
    inodes: Seq<Seq<u8>>,
    g: int,
    i: int,
    is_dir: bool,
)
    requires
        a.valid(),
        is_backed(a, blocks, inodes),
        0 <= g < a.groups.len(),
    ensures
        is_backed(a.with_block(g, i), blocks, inodes),
        is_backed(a.without_block(g, i), blocks, inodes),
        is_backed(a.with_inode(g, i, is_dir), blocks, inodes),
        is_backed(a.without_inode(g, i, is_dir), blocks, inodes),
        is_backed(
            (AllocView { block: a.block.update(g, Some(blocks[g])), ..a }),
            blocks,
            inodes,
        ),
        is_backed(
            (AllocView { inode: a.inode.update(g, Some(inodes[g])), ..a }),
            blocks,
            inodes,
        ),
{
    lemma_still_backed(a.block, a.dirty_block, blocks, g);
    lemma_still_backed(a.inode, a.dirty_inode, inodes, g);
}

proof fn lemma_still_backed(
    maps: Seq<Option<Seq<u8>>>,
    dirty: Seq<bool>,
    disk: Seq<Seq<u8>>,
    g: int,
)
    requires
        maps.len() == dirty.len(),
        0 <= g < maps.len(),
        maps_backed(maps, dirty, disk),
    ensures
        forall|m: Seq<u8>| #[trigger]
            maps_backed(maps.update(g, Some(m)), dirty.update(g, true), disk),
        maps_backed(maps.update(g, Some(disk[g])), dirty, disk),
{
    assert forall|m: Seq<u8>| #[trigger]
        maps_backed(maps.update(g, Some(m)), dirty.update(g, true), disk) by {
        let new = maps.update(g, Some(m));
        let marked = dirty.update(g, true);
        assert forall|h: int| 0 <= h < new.len() && !marked[h] implies (
        #[trigger] new[h] matches Some(map) ==> map == disk[h]) by {
            assert(new[h] == maps[h]);
        }
    }
    let new = maps.update(g, Some(disk[g]));
    assert forall|h: int| 0 <= h < new.len() && !dirty[h] implies (
    #[trigger] new[h] matches Some(map) ==> map == disk[h]) by {
        if h != g {
            assert(new[h] == maps[h]);
        }
    }
}

/// Taking a block sets its bit and counts it in its group and in all; nothing else
/// of the group but the mark that its bitmap was never written, and nothing of any
/// other group, changes.
pub proof fn law_taking_a_block_touches_its_group_alone(a: AllocView, g: int, i: int)
    requires
        a.valid(),
        0 <= g < a.groups.len(),
        a.groups[g].free_blocks_count > 0,
        a.free_blocks > 0,
    ensures
        ({
            let b = a.with_block(g, i);
            let was = a.groups[g];
            &&& b.groups[g].free_blocks_count == was.free_blocks_count - 1
            &&& b.groups[g].free_inodes_count == was.free_inodes_count
            &&& b.groups[g].used_dirs_count == was.used_dirs_count
            &&& b.groups[g].itable_unused == was.itable_unused
            &&& b.groups[g].flags & 2 == 0
            &&& b.groups[g].flags | 2 == was.flags | 2
            &&& b.free_blocks == a.free_blocks - 1
            &&& b.free_inodes == a.free_inodes
            &&& b.inode == a.inode
            &&& b.dirty_inode == a.dirty_inode
            &&& b.dirty_block[g]
            &&& b.geometry == a.geometry
            &&& b.groups.len() == a.groups.len()
            &&& forall|h: int|
                0 <= h < a.groups.len() && h != g ==> b.groups[h] == a.groups[h]
                    && #[trigger] b.block[h] == a.block[h] && b.dirty_block[h] == a.dirty_block[h]
        }),
{
    let f = a.groups[g].flags;
    assert((f & !2u16) & 2 == 0 && (f & !2u16) | 2 == f | 2) by (bit_vector);
}

/// Giving a block back clears its bit and counts it in its group and in all;
/// nothing else of the group, and nothing of any other, changes.
pub proof fn law_giving_a_block_back_touches_its_group_alone(a: AllocView, g: int, i: int)
    requires
        a.valid(),
        0 <= g < a.groups.len(),
        a.groups[g].free_blocks_count < u32::MAX,
        a.free_blocks < u64::MAX,
    ensures
        ({
            let b = a.without_block(g, i);
            let was = a.groups[g];
            &&& b.groups[g].free_blocks_count == was.free_blocks_count + 1
            &&& b.groups[g].free_inodes_count == was.free_inodes_count
            &&& b.groups[g].used_dirs_count == was.used_dirs_count
            &&& b.groups[g].itable_unused == was.itable_unused
            &&& b.groups[g].flags == was.flags
            &&& b.free_blocks == a.free_blocks + 1
            &&& b.free_inodes == a.free_inodes
            &&& b.inode == a.inode
            &&& b.dirty_inode == a.dirty_inode
            &&& b.dirty_block[g]
            &&& b.geometry == a.geometry
            &&& b.groups.len() == a.groups.len()
            &&& forall|h: int|
                0 <= h < a.groups.len() && h != g ==> b.groups[h] == a.groups[h]
                    && #[trigger] b.block[h] == a.block[h] && b.dirty_block[h] == a.dirty_block[h]
        }),
{
}

/// Taking an inode counts it in its group and in all, a directory's as a
/// directory besides, and no inode behind it counts as one that was; nothing else
/// of the group but the mark that its bitmap was never written, and nothing of any
/// other group, changes.
pub proof fn law_taking_an_inode_touches_its_group_alone(
    a: AllocView,
    g: int,
    i: int,
    is_dir: bool,
)
    requires
        a.valid(),
        0 <= g < a.groups.len(),
        0 <= i < a.geometry.inodes_per_group,
        a.groups[g].free_inodes_count > 0,
        a.groups[g].used_dirs_count < u32::MAX,
        a.free_inodes > 0,
    ensures
        ({
            let b = a.with_inode(g, i, is_dir);
            let was = a.groups[g];
            &&& b.groups[g].free_blocks_count == was.free_blocks_count
            &&& b.groups[g].free_inodes_count == was.free_inodes_count - 1
            &&& is_dir ==> b.groups[g].used_dirs_count == was.used_dirs_count + 1
            &&& !is_dir ==> b.groups[g].used_dirs_count == was.used_dirs_count
            &&& b.groups[g].itable_unused <= was.itable_unused
            &&& b.groups[g].itable_unused + i < a.geometry.inodes_per_group
            &&& was.itable_unused + i < a.geometry.inodes_per_group ==> b.groups[g].itable_unused
                == was.itable_unused
            &&& was.itable_unused + i >= a.geometry.inodes_per_group ==> b.groups[g].itable_unused
                + i + 1 == a.geometry.inodes_per_group
            &&& b.groups[g].flags & 1 == 0
            &&& b.groups[g].flags | 1 == was.flags | 1
            &&& b.free_inodes == a.free_inodes - 1
            &&& b.free_blocks == a.free_blocks
            &&& b.block == a.block
            &&& b.dirty_block == a.dirty_block
            &&& b.dirty_inode[g]
            &&& b.geometry == a.geometry
            &&& b.groups.len() == a.groups.len()
            &&& forall|h: int|
                0 <= h < a.groups.len() && h != g ==> b.groups[h] == a.groups[h]
                    && #[trigger] b.inode[h] == a.inode[h] && b.dirty_inode[h] == a.dirty_inode[h]
        }),
{
    let f = a.groups[g].flags;
    assert((f & !1u16) & 1 == 0 && (f & !1u16) | 1 == f | 1) by (bit_vector);
}

/// Giving an inode back counts it in its group and in all, and a directory's as a
/// directory less; nothing else of the group, and nothing of any other, changes.
pub proof fn law_giving_an_inode_back_touches_its_group_alone(
    a: AllocView,
    g: int,
    i: int,
    was_dir: bool,
)
    requires
        a.valid(),
        0 <= g < a.groups.len(),
        a.groups[g].free_inodes_count < u32::MAX,
        was_dir ==> a.groups[g].used_dirs_count > 0,
        a.free_inodes < u32::MAX,
    ensures
        ({
            let b = a.without_inode(g, i, was_dir);
            let was = a.groups[g];
            &&& b.groups[g].free_blocks_count == was.free_blocks_count
            &&& b.groups[g].free_inodes_count == was.free_inodes_count + 1
            &&& was_dir ==> b.groups[g].used_dirs_count == was.used_dirs_count - 1
            &&& !was_dir ==> b.groups[g].used_dirs_count == was.used_dirs_count
            &&& b.groups[g].itable_unused == was.itable_unused
            &&& b.groups[g].flags == was.flags
            &&& b.free_inodes == a.free_inodes + 1
            &&& b.free_blocks == a.free_blocks
            &&& b.block == a.block
            &&& b.dirty_block == a.dirty_block
            &&& b.dirty_inode[g]
            &&& b.geometry == a.geometry
            &&& b.groups.len() == a.groups.len()
            &&& forall|h: int|
                0 <= h < a.groups.len() && h != g ==> b.groups[h] == a.groups[h]
                    && #[trigger] b.inode[h] == a.inode[h] && b.dirty_inode[h] == a.dirty_inode[h]
        }),
{
}

/// Taking an inode and giving it back set and clear its own bit, and no other.
pub proof fn law_inodes_have_their_own_bit(a: AllocView, g: int, i: int, is_dir: bool, j: int)
    requires
        a.valid(),
        0 <= g < a.groups.len(),
        a.inode[g] is Some,
        0 <= i < a.geometry.inodes_per_group,
        0 <= j < a.geometry.inodes_per_group,
    ensures
        a.with_inode(g, i, is_dir).inode[g] is Some,
        a.without_inode(g, i, is_dir).inode[g] is Some,
        bitmap::bit(a.with_inode(g, i, is_dir).inode[g]->0, i),
        !bitmap::bit(a.without_inode(g, i, is_dir).inode[g]->0, i),
        j != i ==> bitmap::bit(a.with_inode(g, i, is_dir).inode[g]->0, j) == bitmap::bit(
            a.inode[g]->0,
            j,
        ),
        j != i ==> bitmap::bit(a.without_inode(g, i, is_dir).inode[g]->0, j) == bitmap::bit(
            a.inode[g]->0,
            j,
        ),
{
    bitmap::lemma_with_bit(a.inode[g]->0, i, true);
    bitmap::lemma_with_bit(a.inode[g]->0, i, false);
}

/// An inode handed out is the lowest that is free and not reserved, of the group
/// of what it goes near to if that has one.
pub proof fn law_lowest_inode_is_handed_out(a: AllocView, near: int, j: int)
    requires
        a.valid(),
        0 < near <= a.geometry.inodes_count,
    ensures
        ({
            let home = (near - 1) / a.geometry.inodes_per_group as int;
            a.inode_spot(a.inode_start(near), 0) matches Spot::At(g, i) ==> {
                &&& 0 <= j < i && g * a.geometry.inodes_per_group + j + 1 >= a.geometry.first_ino
                    ==> bitmap::bit(a.inode[g]->0, j)
                &&& g != home % a.geometry.groups() && 0 <= j < a.geometry.inodes_per_group ==> {
                    let h = home % a.geometry.groups();
                    let number = h * a.geometry.inodes_per_group + j + 1;
                    a.geometry.first_ino <= number <= a.geometry.inodes_count ==> bitmap::bit(
                        a.inode[h]->0,
                        j,
                    )
                }
            }
        }),
{
    let home = a.inode_start(near);
    let n = a.geometry.groups();
    a.geometry.lemma_some_group();
    let h = (home + 0) % n;
    if let Spot::At(g, i) = a.inode_spot(home, 0) {
        if a.inode[h] is Some {
            lemma_lowest_from(a, a.inode[h]->0, h, 0, j);
        }
        lemma_lowest_found(a, home, 0, j);
    }
}

proof fn lemma_lowest_found(a: AllocView, start: int, step: int, j: int)
    requires
        0 <= step,
    ensures
        a.inode_spot(start, step) matches Spot::At(g, i) ==> (0 <= j < i && a.inode_number(g, j)
            >= a.geometry.first_ino ==> bitmap::bit(a.inode[g]->0, j)),
    decreases a.geometry.groups() - step,
{
    let n = a.geometry.groups();
    if step < n {
        let g = (start + step) % n;
        if a.inode[g] is Some {
            lemma_lowest_from(a, a.inode[g]->0, g, 0, j);
            lemma_lowest_found(a, start, step + 1, j);
        }
    }
}

proof fn lemma_lowest_from(a: AllocView, map: Seq<u8>, g: int, from: int, j: int)
    requires
        0 <= from,
    ensures
        match a.free_inode_from(map, g, from) {
            Some(k) => from <= j < k && a.inode_number(g, j) >= a.geometry.first_ino
                ==> bitmap::bit(map, j),
            None => from <= j < a.geometry.inodes_per_group && a.geometry.first_ino
                <= a.inode_number(g, j) <= a.geometry.inodes_count ==> bitmap::bit(map, j),
        },
    decreases a.geometry.inodes_per_group - from,
{
    if from < a.geometry.inodes_per_group && a.inode_number(g, from) <= a.geometry.inodes_count {
        lemma_lowest_from(a, map, g, from + 1, j);
    }
}

/// Groups follow each other, all of one size but the last, and every block and
/// every inode has its own number.
pub proof fn law_groups_follow_each_other(a: AllocView, g: int, i: int)
    requires
        a.valid(),
        0 <= g < a.groups.len(),
        0 <= i < a.geometry.block_count(g),
    ensures
        ({
            let geo = a.geometry;
            &&& geo.first_block(g) == geo.first_data_block + g * geo.blocks_per_group
            &&& geo.first_data_block <= geo.first_block(g) + i < geo.blocks_count
            &&& geo.group_of(geo.first_block(g) + i) == g
            &&& geo.block_count(g) <= geo.blocks_per_group
            &&& g + 1 < geo.groups() ==> geo.block_count(g) == geo.blocks_per_group
            &&& g + 1 == geo.groups() ==> geo.first_block(g) + geo.block_count(g)
                == geo.blocks_count
            &&& a.inode_number(g, i) == g * geo.inodes_per_group + i + 1
        }),
{
    let geo = a.geometry;
    geo.lemma_group(g);
    geo.lemma_group_of(g, i);
    let n = geo.groups();
    let p = geo.blocks_per_group as int;
    let total = geo.blocks_count - geo.first_data_block;
    vstd::arithmetic::div_mod::lemma_fundamental_div_mod(total + p - 1, p);
    vstd::arithmetic::div_mod::lemma_mod_bound(total + p - 1, p);
    assert(n * p == p * n) by (nonlinear_arith);
    if g + 1 < n {
        assert((g + 2) * p <= n * p) by (nonlinear_arith)
            requires
                g + 2 <= n,
                p > 0,
        ;
        assert((g + 2) * p == g * p + 2 * p) by (nonlinear_arith);
    } else {
        assert(n * p == g * p + p) by (nonlinear_arith)
            requires
                n == g + 1,
        ;
    }
}

/// Blocks allocated together start at the goal and go on behind each other, as
/// far as those are free.
pub proof fn law_allocated_blocks_go_on(a: AllocView, goal: int, blocks: Seq<u64>, count: int)
    requires
        a.valid(),
        blocks.len() < count,
        is_free(
            a,
            if blocks.len() > 0 {
                blocks.last() + 1
            } else {
                goal
            },
        ),
    ensures
        ({
            let out = allocator::allocated(a, goal, blocks, count).1;
            &&& out.len() > blocks.len()
            &&& blocks.len() > 0 ==> out[blocks.len() as int] == blocks.last() + 1
            &&& blocks.len() == 0 ==> out[0] == goal
        }),
{
    let near = if blocks.len() > 0 {
        blocks.last() + 1
    } else {
        goal
    };
    law_goal_is_preferred(a, near);
    law_alloc_block_takes_one(a, near);
    let g = a.geometry.group_of(near);
    let i = near - a.geometry.first_block(g);
    let next = blocks.push((a.geometry.first_block(g) + i) as u64);
    law_allocated_blocks_are_new(a.with_block(g, i), goal, next, count);
    let out = allocator::allocated(a, goal, blocks, count).1;
    assert(out.take(next.len() as int) == next);
    assert(out[blocks.len() as int] == out.take(next.len() as int)[blocks.len() as int]);
}

/// A bitmap takes as many bytes as hold all its bits, and no more.
pub proof fn law_bitmaps_hold_all_their_bits(n: u32)
    ensures
        8 * allocator::bytes_for(n) >= n,
        8 * allocator::bytes_for(n) < n + 8,
{
}

/// A block is in use exactly when it is one of the filesystem's, its group's bitmap
/// has been read, and it is not free there; an inode is in use when its bit is set,
/// the first one being the first of the first group.
pub proof fn law_in_use_is_not_free(a: AllocView, block: int, inum: int)
    requires
        a.valid(),
    ensures
        a.uses_block(block) <==> a.geometry.first_data_block <= block < a.geometry.blocks_count
            && a.block[(block - a.geometry.first_data_block)
            / a.geometry.blocks_per_group as int] is Some && !is_free(a, block),
        a.uses_inode(inum) <==> 1 <= inum <= a.geometry.inodes_count && (a.inode[(inum - 1)
            / a.geometry.inodes_per_group as int] matches Some(map) && bitmap::bit(
            map,
            (inum - 1) % a.geometry.inodes_per_group as int,
        )),
{
}

} // verus!
