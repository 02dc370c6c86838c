//! What reading gives back of writing.

use vstd::prelude::*;

use crate::allocator::{AllocView, Spot};
use crate::allocator_laws;
use crate::bitmap;
use crate::blockmap::HOLE;
use crate::volume::contents::{self, Resize, Stream};

verus! {

/// What a block reads as; a hole reads as zeroes.
pub open spec fn read_block(disk: Map<u64, Seq<u8>>, block: u64, block_size: nat) -> Seq<u8> {
    if block == HOLE {
        Seq::new(block_size, |i: int| 0u8)
    } else {
        disk[block]
    }
}

/// The first `n` blocks of a list, one behind the other.
pub open spec fn read_blocks(
    disk: Map<u64, Seq<u8>>,
    list: Seq<u64>,
    n: int,
    block_size: nat,
) -> Seq<u8>
    decreases n,
{
    if n <= 0 {
        Seq::empty()
    } else {
        read_blocks(disk, list, n - 1, block_size) + read_block(disk, list[n - 1], block_size)
    }
}

/// What a file reads as: its blocks, up to its size.
pub open spec fn read_file(
    disk: Map<u64, Seq<u8>>,
    list: Seq<u64>,
    size: nat,
    block_size: nat,
) -> Seq<u8> {
    read_blocks(disk, list, list.len() as int, block_size).take(size as int)
}

/// What is on a device once the first `n` blocks of contents have been written
/// to the blocks of a list.
pub open spec fn written(
    disk: Map<u64, Seq<u8>>,
    list: Seq<u64>,
    data: Seq<u8>,
    n: int,
    block_size: nat,
) -> Map<u64, Seq<u8>>
    decreases n,
{
    if n <= 0 {
        disk
    } else {
        written(disk, list, data, n - 1, block_size).insert(
            list[n - 1],
            contents::block_of(data, n - 1, block_size),
        )
    }
}

proof fn lemma_written(
    disk: Map<u64, Seq<u8>>,
    list: Seq<u64>,
    data: Seq<u8>,
    n: int,
    block_size: nat,
)
    requires
        list.no_duplicates(),
        0 <= n <= list.len(),
    ensures
        forall|i: int|
            0 <= i < n ==> written(disk, list, data, n, block_size)[#[trigger] list[i]]
                == contents::block_of(data, i, block_size),
        forall|b: u64|
            !list.contains(b) ==> #[trigger] written(disk, list, data, n, block_size)[b]
                == disk[b],
    decreases n,
{
    if n > 0 {
        lemma_written(disk, list, data, n - 1, block_size);
        let before = written(disk, list, data, n - 1, block_size);
        let after = written(disk, list, data, n, block_size);
        assert(list.contains(list[n - 1]));
        assert forall|b: u64| !list.contains(b) implies #[trigger] after[b] == disk[b] by {
            assert(before[b] == disk[b]);
        }
    }
}

proof fn lemma_read_blocks(
    disk: Map<u64, Seq<u8>>,
    list: Seq<u64>,
    data: Seq<u8>,
    n: int,
    block_size: nat,
)
    requires
        0 <= n <= list.len(),
        block_size > 0,
        forall|i: int|
            0 <= i < list.len() ==> read_block(disk, #[trigger] list[i], block_size)
                == contents::block_of(data, i, block_size),
    ensures
        0 <= n * block_size,
        read_blocks(disk, list, n, block_size) == Seq::new(
            (n * block_size) as nat,
            |k: int|
                if k < data.len() {
                    data[k]
                } else {
                    0
                },
        ),
    decreases n,
{
    if n > 0 {
        lemma_read_blocks(disk, list, data, n - 1, block_size);
        assert(n * block_size == (n - 1) * block_size + block_size) by (nonlinear_arith);
        assert(read_block(disk, list[n - 1], block_size) == contents::block_of(
            data,
            n - 1,
            block_size,
        ));
    } else {
        assert(n * block_size == 0) by (nonlinear_arith)
            requires
                n == 0,
        ;
    }
    assert(read_blocks(disk, list, n, block_size) =~= Seq::new(
        (n * block_size) as nat,
        |k: int|
            if k < data.len() {
                data[k]
            } else {
                0
            },
    ));
}

/// Reading a file gives back what was written to it, and no other block is
/// touched.
pub proof fn law_read_gives_back_what_was_written(
    disk: Map<u64, Seq<u8>>,
    list: Seq<u64>,
    data: Seq<u8>,
    block_size: nat,
)
    requires
        block_size > 0,
        list.len() == contents::blocks_for(data.len(), block_size),
        list.no_duplicates(),
        !list.contains(HOLE),
    ensures
        ({
            let after = written(disk, list, data, list.len() as int, block_size);
            &&& read_file(after, list, data.len(), block_size) == data
            &&& forall|b: u64| !list.contains(b) ==> #[trigger] after[b] == disk[b]
        }),
{
    let after = written(disk, list, data, list.len() as int, block_size);
    lemma_written(disk, list, data, list.len() as int, block_size);
    assert forall|i: int| 0 <= i < list.len() implies read_block(
        after,
        #[trigger] list[i],
        block_size,
    ) == contents::block_of(data, i, block_size) by {
        assert(list.contains(list[i]));
    }
    lemma_read_blocks(after, list, data, list.len() as int, block_size);
    lemma_enough(data.len() as int, block_size as int);
    assert(read_file(after, list, data.len(), block_size) =~= data);
}

proof fn lemma_enough(n: int, d: int)
    by (nonlinear_arith)
    requires
        n >= 0,
        d > 0,
    ensures
        n <= ((n + d - 1) / d) * d,
{
}

/// A write in the middle changes what it writes, and leaves the rest of the
/// file alone; what it leaves between the end and itself reads as zeroes.
pub proof fn law_write_at_leaves_the_rest_alone(
    whole: Seq<u8>,
    offset: int,
    data: Seq<u8>,
    i: int,
)
    requires
        0 <= offset,
        0 <= i < contents::spliced(whole, offset, data).len(),
    ensures
        ({
            let out = contents::spliced(whole, offset, data);
            &&& out.len() >= whole.len()
            &&& out.subrange(offset, offset + data.len()) == data
            &&& !(offset <= i < offset + data.len()) && i < whole.len() ==> out[i] == whole[i]
            &&& whole.len() <= i < offset ==> out[i] == 0
        }),
{
    let out = contents::spliced(whole, offset, data);
    assert(out.subrange(offset, offset + data.len()) =~= data);
}

/// A write at the end is an append.
pub proof fn law_write_at_the_end_appends(whole: Seq<u8>, data: Seq<u8>)
    ensures
        contents::spliced(whole, whole.len() as int, data) == whole + data,
{
    assert(contents::spliced(whole, whole.len() as int, data) =~= whole + data);
}

/// The blocks a file grows by were all free, and no two are the same; the ones
/// it had stay in front.
pub proof fn law_grown_blocks_are_new(
    a: AllocView,
    goal: Option<u64>,
    list: Seq<u64>,
    needed: int,
)
    requires
        a.valid(),
    ensures
        ({
            let out = contents::grown(a, goal, list, needed).1;
            &&& list.len() <= out.len()
            &&& out.take(list.len() as int) == list
            &&& forall|k: int|
                list.len() <= k < out.len() ==> allocator_laws::is_free(
                    a,
                    #[trigger] out[k] as int,
                )
            &&& forall|j: int, k: int|
                #![trigger out[j], out[k]]
                list.len() <= j < k < out.len() ==> out[j] != out[k]
        }),
    decreases needed - list.len(),
{
    let out = contents::grown(a, goal, list, needed).1;
    let near = contents::next_goal(goal, list);
    allocator_laws::law_alloc_block_takes_one(a, near);
    if list.len() < needed && a.spot_near(near) is At {
        if let Spot::At(g, i) = a.spot_near(near) {
            let b = a.geometry.first_block(g) + i;
            let next = list.push(b as u64);
            law_grown_blocks_are_new(a.with_block(g, i), goal, next, needed);
            assert(out.take(next.len() as int)[list.len() as int] == b);
            assert(out.take(list.len() as int) =~= out.take(next.len() as int).take(
                list.len() as int,
            ));
            assert(next.take(list.len() as int) =~= list);
        }
    } else {
        assert(out.take(list.len() as int) =~= list);
    }
}

/// A file whose blocks are all in use, and no two of them the same, keeps
/// that as it grows.
pub proof fn law_growing_shares_no_block(
    a: AllocView,
    goal: Option<u64>,
    list: Seq<u64>,
    needed: int,
)
    requires
        a.valid(),
        list.no_duplicates(),
        forall|k: int|
            0 <= k < list.len() ==> !allocator_laws::is_free(a, #[trigger] list[k] as int),
    ensures
        contents::grown(a, goal, list, needed).1.no_duplicates(),
{
    law_grown_blocks_are_new(a, goal, list, needed);
    let out = contents::grown(a, goal, list, needed).1;
    assert forall|k: int| 0 <= k < list.len() implies #[trigger] out[k] == list[k] by {
        assert(out.take(list.len() as int)[k] == list[k]);
    }
}

/// A block that was full when it was written still holds what it should once
/// more has been read.
pub proof fn law_full_blocks_stay(seen: Seq<u8>, more: Seq<u8>, i: int, block_size: nat)
    requires
        0 <= i,
        (i + 1) * block_size <= seen.len(),
    ensures
        contents::block_of(seen + more, i, block_size) == contents::block_of(
            seen,
            i,
            block_size,
        ),
{
    assert((i + 1) * block_size == i * block_size + block_size) by (nonlinear_arith);
    assert(contents::block_of(seen + more, i, block_size) =~= contents::block_of(
        seen,
        i,
        block_size,
    ));
}

/// A streamed file ends with everything that was read in it: its size is how
/// much that was, and it has the blocks that so much takes.
pub proof fn law_stream_holds_everything(stream: Stream, block_size: nat)
    requires
        block_size > 0,
        stream.inv(block_size),
        stream.wants(block_size) is Finish,
    ensures
        stream.size == stream.seen@.len(),
        stream.list@.len() == contents::blocks_for(stream.seen@.len(), block_size),
{
}

/// Contents gathered to be written whole are all that was read.
pub proof fn law_gathered_is_everything(stream: Stream, block_size: nat)
    requires
        stream.inv(block_size),
        stream.wants(block_size) is Whole,
    ensures
        stream.pending@ == stream.seen@,
{
    assert(stream.pending@ =~= stream.seen@);
}

/// A list that is cut or grown ends with as many blocks as are needed.
pub proof fn law_resized_list_is_as_long_as_needed(r: Resize, a: AllocView)
    requires
        r.valid(),
        r.list@.len() <= r.needed,
    ensures
        r.ends(a).3 is Done ==> r.ends(a).1.len() == r.needed,
{
    let (b, n, unread) = contents::released(a, r.surplus@, r.freed as int);
    lemma_grown_length(b, r.goal, r.list@, r.needed as int);
}

proof fn lemma_grown_length(a: AllocView, goal: Option<u64>, list: Seq<u64>, needed: int)
    requires
        list.len() <= needed,
    ensures
        contents::grown(a, goal, list, needed).2 is Done ==> contents::grown(
            a,
            goal,
            list,
            needed,
        ).1.len() == needed,
    decreases needed - list.len(),
{
    if list.len() < needed {
        if let Spot::At(g, i) = a.spot_near(contents::next_goal(goal, list)) {
            lemma_grown_length(
                a.with_block(g, i),
                goal,
                list.push((a.geometry.first_block(g) + i) as u64),
                needed,
            );
        }
    }
}

/// Leaving out the holes leaves the blocks of a list, in which there are no
/// holes: what is written over a file with holes is written to no block that
/// is not the file's.
pub proof fn law_holes_are_not_written_to(list: Seq<u64>)
    ensures
        !contents::solid(list).contains(HOLE),
        forall|b: u64|
            b != HOLE ==> (#[trigger] contents::solid(list).contains(b) <==> list.contains(b)),
        !list.contains(HOLE) ==> contents::solid(list) == list,
    decreases list.len(),
{
    if list.len() > 0 {
        let front = list.drop_last();
        let last = list.last();
        let kept = contents::solid(front);
        let all = contents::solid(list);
        law_holes_are_not_written_to(front);
        assert(list[list.len() - 1] == last);
        assert forall|b: u64| list.contains(b) <==> front.contains(b) || b == last by {
            if list.contains(b) {
                let i = choose|i: int| 0 <= i < list.len() && list[i] == b;
                assert(i < front.len() ==> front[i] == b);
            }
            if front.contains(b) {
                let i = choose|i: int| 0 <= i < front.len() && front[i] == b;
                assert(list[i] == b);
            }
        }
        if last != HOLE {
            assert forall|b: u64| all.contains(b) <==> kept.contains(b) || b == last by {
                assert(all[kept.len() as int] == last);
                if all.contains(b) {
                    let i = choose|i: int| 0 <= i < all.len() && all[i] == b;
                    assert(i < kept.len() ==> kept[i] == b);
                }
                if kept.contains(b) {
                    let i = choose|i: int| 0 <= i < kept.len() && kept[i] == b;
                    assert(all[i] == b);
                }
            }
        }
        if !list.contains(HOLE) {
            assert(all =~= list);
        }
    } else {
        assert(contents::solid(list) =~= list);
    }
}

/// Contents take as many blocks as are needed to hold them, and no more.
pub proof fn law_blocks_hold_the_contents(len: nat, block_size: nat)
    requires
        block_size > 0,
    ensures
        ({
            let n = contents::blocks_for(len, block_size);
            &&& n * block_size >= len
            &&& n > 0 ==> (n - 1) * block_size < len
            &&& len == 0 ==> n == 0
        }),
{
    let n = contents::blocks_for(len, block_size);
    let q = (len + block_size - 1) / block_size as int;
    let r = (len + block_size - 1) % block_size as int;
    vstd::arithmetic::div_mod::lemma_fundamental_div_mod(
        len + block_size - 1,
        block_size as int,
    );
    vstd::arithmetic::div_mod::lemma_mod_bound(len + block_size - 1, block_size as int);
    assert(q >= 0) by (nonlinear_arith)
        requires
            len + block_size - 1 >= 0,
            block_size > 0,
            q == (len + block_size - 1) / block_size as int,
    ;
    assert(n == q);
    assert(q * block_size == block_size * q) by (nonlinear_arith);
    assert((q - 1) * block_size == q * block_size - block_size) by (nonlinear_arith);
    if len == 0 {
        assert(q == 0) by (nonlinear_arith)
            requires
                len == 0,
                block_size > 0,
                q == (len + block_size - 1) / block_size as int,
        ;
    }
}

/// A block of a file holds that stretch of its contents, and zeroes where the
/// contents have ended.
pub proof fn law_blocks_are_stretches_of_the_contents(
    data: Seq<u8>,
    i: int,
    block_size: nat,
    k: int,
)
    requires
        0 <= i,
        0 <= k < block_size,
    ensures
        contents::block_of(data, i, block_size).len() == block_size,
        i * block_size + k < data.len() ==> contents::block_of(data, i, block_size)[k] == data[i
            * block_size + k],
        i * block_size + k >= data.len() ==> contents::block_of(data, i, block_size)[k] == 0,
{
}

/// Giving back one block makes that block free, and leaves every other as it was.
proof fn lemma_freed_one(a: AllocView, block: u64)
    requires
        a.valid(),
    ensures
        contents::freed(a, block) matches Some(b) ==> {
            &&& b.valid()
            &&& b.geometry == a.geometry
            &&& forall|c: int| #[trigger]
                allocator_laws::is_free(b, c) <==> allocator_laws::is_free(a, c) || (c == block
                    && a.geometry.holds(c))
        },
{
    let x = block as int;
    if a.geometry.holds(x) {
        a.geometry.lemma_block(x);
        let g = a.geometry.group_of(x);
        a.geometry.lemma_group(g);
        let i = x - a.geometry.first_block(g);
        if let Some(map) = a.block[g] {
            if bitmap::bit(map, i) {
                let w = a.without_block(g, i);
                bitmap::lemma_with_bit(map, i, false);
                assert forall|h: int| 0 <= h < w.geometry.groups() implies (
                #[trigger] w.block[h] matches Some(m) ==> w.geometry.blocks_per_group <= 8
                    * m.len()) by {
                    assert(a.block[h] == a.block[h]);
                }
                assert forall|h: int| 0 <= h < w.geometry.groups() implies (
                #[trigger] w.inode[h] matches Some(m) ==> w.geometry.inodes_per_group <= 8
                    * m.len()) by {
                    assert(a.inode[h] == w.inode[h]);
                }
                assert forall|c: int| #[trigger] allocator_laws::is_free(w, c)
                    <==> allocator_laws::is_free(a, c) || (c == x && a.geometry.holds(c)) by {
                    if a.geometry.holds(c) {
                        a.geometry.lemma_block(c);
                        let h = a.geometry.group_of(c);
                        a.geometry.lemma_group(h);
                        if h == g && c != x {
                            let j = c - a.geometry.first_block(h);
                            assert(bitmap::bit(bitmap::with_bit(map, i, false), j)
                                == bitmap::bit(map, j));
                        }
                    }
                }
            }
        }
    }
}

/// Giving blocks back makes exactly those free, holes left out, that it has come
/// by, and leaves every other block as it was; it comes by all of them unless a
/// bitmap is still to be read.
pub proof fn law_released_blocks_become_free(a: AllocView, blocks: Seq<u64>, at: int)
    requires
        a.valid(),
        0 <= at <= blocks.len(),
    ensures
        ({
            let (b, n, unread) = contents::released(a, blocks, at);
            &&& b.valid()
            &&& b.geometry == a.geometry
            &&& at <= n <= blocks.len()
            &&& unread is None ==> n == blocks.len()
            &&& unread matches Some(g) ==> a.geometry.group_of(blocks[n] as int) == g
            &&& forall|c: int| #[trigger]
                allocator_laws::is_free(b, c) <==> allocator_laws::is_free(a, c) || (
                a.geometry.holds(c) && c != 0 && exists|k: int|
                    at <= k < n && #[trigger] blocks[k] == c)
        }),
    decreases blocks.len() - at,
{
    if at < blocks.len() {
        let (b, n, unread) = contents::released(a, blocks, at);
        if blocks[at] == HOLE {
            law_released_blocks_become_free(a, blocks, at + 1);
            assert forall|c: int| #[trigger] allocator_laws::is_free(b, c)
                <==> allocator_laws::is_free(a, c) || (a.geometry.holds(c) && c != 0 && exists|
                k: int,
            | at <= k < n && #[trigger] blocks[k] == c) by {
                if c != 0 && exists|k: int| at <= k < n && #[trigger] blocks[k] == c {
                    let k = choose|k: int| at <= k < n && #[trigger] blocks[k] == c;
                    assert(k != at);
                    assert(at + 1 <= k < n && blocks[k] == c);
                }
            }
        } else if let Some(m) = contents::freed(a, blocks[at]) {
            lemma_freed_one(a, blocks[at]);
            law_released_blocks_become_free(m, blocks, at + 1);
            assert forall|c: int| #[trigger] allocator_laws::is_free(b, c)
                <==> allocator_laws::is_free(a, c) || (a.geometry.holds(c) && c != 0 && exists|
                k: int,
            | at <= k < n && #[trigger] blocks[k] == c) by {
                assert(allocator_laws::is_free(m, c) <==> allocator_laws::is_free(a, c) || (c
                    == blocks[at] && a.geometry.holds(c)));
                if c == blocks[at] {
                    assert(at <= at < n && blocks[at] == c);
                }
                if exists|k: int| at <= k < n && #[trigger] blocks[k] == c {
                    let k = choose|k: int| at <= k < n && #[trigger] blocks[k] == c;
                    if k != at {
                        assert(at + 1 <= k < n && blocks[k] == c);
                    }
                }
            }
        }
    }
}

/// A file goes on right behind its last block, if that is free.
pub proof fn law_files_go_on_behind_their_last_block(
    a: AllocView,
    list: Seq<u64>,
    needed: int,
)
    requires
        a.valid(),
        0 < list.len() < needed,
        ({
            let last = list.last() as int;
            let g = a.geometry.group_of(last);
            &&& a.geometry.holds(last)
            &&& a.uses_block(last)
            &&& a.geometry.group_of(last + 1) == g
            &&& allocator_laws::is_free(a, last + 1)
        }),
    ensures
        ({
            let out = contents::grown(a, None, list, needed).1;
            &&& out.len() > list.len()
            &&& out[list.len() as int] == list.last() + 1
        }),
{
    let last = list.last() as int;
    let g = a.geometry.group_of(last);
    a.geometry.lemma_block(last);
    a.geometry.lemma_block(last + 1);
    a.geometry.lemma_group(g);
    let i = last - a.geometry.first_block(g);
    let map = a.block[g]->0;
    let n = a.geometry.block_count(g);
    assert(bitmap::bit(map, i));
    assert(!bitmap::bit(map, i + 1));
    assert(bitmap::first_clear(map, i + 1, n) == i + 1);
    assert(bitmap::first_clear(map, i, n) == i + 1);
    vstd::arithmetic::div_mod::lemma_small_mod(g as nat, a.geometry.groups() as nat);
    assert(a.spot_near(last) == Spot::At(g, i + 1));
    allocator_laws::law_alloc_block_takes_one(a, last);
    let next = list.push((a.geometry.first_block(g) + (i + 1)) as u64);
    law_grown_blocks_are_new(a.with_block(g, i + 1), None, next, needed);
    let out = contents::grown(a, None, list, needed).1;
    assert(out.take(next.len() as int) == next);
    assert(out[list.len() as int] == out.take(next.len() as int)[list.len() as int]);
}

} // verus!
