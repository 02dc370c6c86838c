//! A file's contents, and the blocks that hold them.

use vstd::prelude::*;

use crate::allocator::{AllocView, Allocator, Got, Run, Spot};
use crate::bitmap;
use crate::blockmap::HOLE;
use crate::error::Result;

verus! {

/// Blocks that contents of this length take.
pub open spec fn blocks_for(len: nat, block_size: nat) -> nat {
    ((len + block_size - 1) / block_size as int) as nat
}

/// Blocks that contents of this length take.
pub fn blocks_needed(len: usize, block_size: usize) -> (n: usize)
    requires
        block_size > 0,
    ensures
        n == blocks_for(len as nat, block_size as nat),
{
    proof {
        lemma_blocks_for(len as int, block_size as int);
    }
    let full: usize = len / block_size;
    if len % block_size == 0 {
        full
    } else {
        full + 1
    }
}

proof fn lemma_blocks_for(n: int, d: int)
    by (nonlinear_arith)
    requires
        d > 0,
        n >= 0,
    ensures
        (n + d - 1) / d == n / d + (if n % d == 0 {
            0int
        } else {
            1int
        }),
        n / d <= n,
        n % d != 0 ==> n / d < n,
{
}

/// Blocks that are full are as many as were filled.
proof fn lemma_whole_blocks(n: int, d: int)
    requires
        d > 0,
        n >= 0,
    ensures
        0 <= n * d,
        blocks_for((n * d) as nat, d as nat) == n,
{
    assert((n * d + d - 1) / d == n && 0 <= n * d) by (nonlinear_arith)
        requires
            d > 0,
            n >= 0,
    ;
}

/// A block begun is a block more.
proof fn lemma_part_block(n: int, d: int, r: int)
    requires
        d > 0,
        n >= 0,
        0 < r <= d,
    ensures
        0 <= n * d,
        blocks_for((n * d + r) as nat, d as nat) == n + 1,
{
    assert((n * d + r + d - 1) / d == n + 1 && 0 <= n * d) by (nonlinear_arith)
        requires
            d > 0,
            n >= 0,
            0 < r <= d,
    ;
}

/// What becomes of the bitmaps when a block is given back; nothing, if they
/// have to be read first.
pub open spec fn freed(a: AllocView, block: u64) -> Option<AllocView> {
    let g = a.geometry.group_of(block as int);
    let i = block - a.geometry.first_block(g);
    if !a.geometry.holds(block as int) {
        Some(a)
    } else if a.block[g] is None {
        None
    } else if bitmap::bit(a.block[g]->0, i) {
        Some(a.without_block(g, i))
    } else {
        Some(a)
    }
}

/// Giving back one block after the other from `at` on, holes left out: what
/// becomes of the bitmaps, how far it got, and the group whose bitmap it
/// needs to go on.
pub open spec fn released(a: AllocView, blocks: Seq<u64>, at: int) -> (AllocView, int, Option<int>)
    decreases blocks.len() - at,
{
    if at >= blocks.len() {
        (a, at, None)
    } else if blocks[at] == HOLE {
        released(a, blocks, at + 1)
    } else {
        match freed(a, blocks[at]) {
            Some(b) => released(b, blocks, at + 1),
            None => (a, at, Some(a.geometry.group_of(blocks[at] as int))),
        }
    }
}

/// Whether the counters have room for `n` more free blocks.
pub open spec fn can_free(a: AllocView, n: int) -> bool {
    &&& a.free_blocks + n <= u64::MAX
    &&& forall|g: int|
        0 <= g < a.groups.len() ==> (#[trigger] a.groups[g]).free_blocks_count + n <= u32::MAX
}

/// Whether the counters have room for `n` more free blocks.
pub fn has_room_to_free(alloc: &Allocator, n: usize) -> (r: bool)
    requires
        alloc@.valid(),
    ensures
        r == can_free(alloc@, n as int),
{
    let (blocks, _) = alloc.totals();
    if blocks > u64::MAX - n as u64 || n > u32::MAX as usize {
        proof {
            alloc@.geometry.lemma_some_group();
            if n > u32::MAX {
                assert(alloc@.groups[0].free_blocks_count + n > u32::MAX);
            }
        }
        return false;
    }
    let groups: u32 = alloc.geometry().group_count();
    let mut g: u32 = 0;
    while g < groups
        invariant
            g <= groups,
            groups == alloc@.groups.len(),
            n <= u32::MAX,
            forall|k: int|
                0 <= k < g ==> (#[trigger] alloc@.groups[k]).free_blocks_count + n <= u32::MAX,
        decreases groups - g,
    {
        if alloc.group(g).free_blocks_count > u32::MAX - n as u32 {
            assert(alloc@.groups[g as int].free_blocks_count + n > u32::MAX);
            return false;
        }
        g += 1;
    }
    true
}

/// Give back the blocks from `at` on, leaving out holes. `Unread` leaves `at`
/// where it goes on from.
pub fn release(alloc: &mut Allocator, blocks: &[u64], at: &mut usize) -> (r: Got<()>)
    requires
        old(alloc)@.valid(),
        *old(at) <= blocks@.len(),
        can_free(old(alloc)@, blocks@.len() - *old(at)),
    ensures
        final(alloc)@.valid(),
        *final(at) <= blocks@.len(),
        can_free(final(alloc)@, blocks@.len() - *final(at)),
        ({
            let (a, n, unread) = released(old(alloc)@, blocks@, *old(at) as int);
            &&& final(alloc)@ == a
            &&& *final(at) == n
            &&& match r {
                Got::Done(_) => unread is None && n == blocks@.len(),
                Got::Unread(g) => unread == Some(g as int) && g < a.geometry.groups(),
            }
        }),
{
    while *at < blocks.len()
        invariant
            alloc@.valid(),
            *at <= blocks@.len(),
            can_free(alloc@, blocks@.len() - *at),
            released(old(alloc)@, blocks@, *old(at) as int) == released(
                alloc@,
                blocks@,
                *at as int,
            ),
        decreases blocks@.len() - *at,
    {
        let block: u64 = blocks[*at];
        if block != HOLE {
            let ghost a = alloc@;
            proof {
                if a.geometry.holds(block as int) {
                    a.geometry.lemma_block(block as int);
                    assert(a.groups[a.geometry.group_of(block as int)].free_blocks_count
                        < u32::MAX);
                }
            }
            match alloc.free_block(block) {
                Got::Done(_) => {},
                Got::Unread(g) => {
                    return Got::Unread(g);
                },
            }
        }
        *at = *at + 1;
    }
    Got::Done(())
}

/// Where to look for the next block: near one block always, or near the one
/// placed last.
pub open spec fn next_goal(goal: Option<u64>, list: Seq<u64>) -> int {
    match goal {
        Some(g) => g as int,
        None => last_of(list) as int,
    }
}

/// The last block, or 0.
pub open spec fn last_of(list: Seq<u64>) -> u64 {
    if list.len() > 0 {
        list.last()
    } else {
        0
    }
}

/// The last block, or 0: where to look for what comes behind it.
pub fn goal_behind(list: &[u64]) -> (goal: u64)
    ensures
        goal == last_of(list@),
{
    if list.len() > 0 {
        list[list.len() - 1]
    } else {
        0
    }
}

/// Allocating until there are `needed` blocks: what becomes of the bitmaps,
/// the blocks, and how it ended.
pub open spec fn grown(a: AllocView, goal: Option<u64>, list: Seq<u64>, needed: int) -> (
    AllocView,
    Seq<u64>,
    Run,
)
    decreases needed - list.len(),
{
    if list.len() >= needed {
        (a, list, Run::Done)
    } else {
        match a.spot_near(next_goal(goal, list)) {
            Spot::Full => (a, list, Run::Full),
            Spot::Unread(g) => (a, list, Run::Unread(g)),
            Spot::At(g, i) => grown(
                a.with_block(g, i),
                goal,
                list.push((a.geometry.first_block(g) + i) as u64),
                needed,
            ),
        }
    }
}

/// Allocate blocks until there are `needed`. `Unread` leaves the ones found so
/// far in `list`, to go on from.
pub fn grow(alloc: &mut Allocator, goal: Option<u64>, list: &mut Vec<u64>, needed: usize) -> (r:
    Result<Got<()>>)
    requires
        old(alloc)@.valid(),
    ensures
        final(alloc)@.valid(),
        ({
            let (a, out, run) = grown(old(alloc)@, goal, old(list)@, needed as int);
            &&& final(alloc)@ == a
            &&& final(list)@ == out
            &&& match r {
                Ok(Got::Done(_)) => run is Done,
                Ok(Got::Unread(g)) => run == Run::Unread(g as int) && g < a.geometry.groups(),
                Err(e) => run is Full && e is NoSpace,
            }
        }),
{
    while list.len() < needed
        invariant
            alloc@.valid(),
            grown(old(alloc)@, goal, old(list)@, needed as int) == grown(
                alloc@,
                goal,
                list@,
                needed as int,
            ),
        decreases needed - list@.len(),
    {
        let near: u64 = match goal {
            Some(g) => g,
            None => goal_behind(list.as_slice()),
        };
        match alloc.alloc_block(near) {
            Ok(Got::Done(b)) => {
                list.push(b);
            },
            Ok(Got::Unread(g)) => {
                return Ok(Got::Unread(g));
            },
            Err(e) => {
                return Err(e);
            },
        }
    }
    Ok(Got::Done(()))
}

/// A list of blocks, the other way round.
pub open spec fn backwards(list: Seq<u64>) -> Seq<u64> {
    Seq::new(list.len(), |i: int| list[list.len() - 1 - i])
}

/// Cut a file's blocks to `needed`: the ones to give back, from the end.
pub fn cut_file(list: &mut Vec<u64>, needed: usize) -> (surplus: Vec<u64>)
    ensures
        old(list)@.len() <= needed ==> final(list)@ == old(list)@ && surplus@.len() == 0,
        old(list)@.len() > needed ==> final(list)@ == old(list)@.take(needed as int) && surplus@
            == backwards(old(list)@.skip(needed as int)),
{
    let ghost all = list@;
    let mut surplus: Vec<u64> = Vec::new();
    while list.len() > needed
        invariant
            surplus@.len() <= all.len(),
            list@ == all.take(all.len() - surplus@.len()),
            surplus@.len() > 0 ==> list@.len() >= needed,
            surplus@ == backwards(all.skip(all.len() - surplus@.len())),
        decreases list.len(),
    {
        let ghost was = surplus@;
        match list.pop() {
            Some(block) => {
                surplus.push(block);
                assert(surplus@ =~= backwards(all.skip(all.len() - surplus@.len())));
            },
            None => {},
        }
        assert(list@ =~= all.take(all.len() - surplus@.len()));
    }
    assert(all.take(all.len() as int) =~= all);
    surplus
}

/// Cut a directory's blocks to `needed`: the ones to give back, in order.
pub fn cut_directory(list: &mut Vec<u64>, needed: usize) -> (surplus: Vec<u64>)
    ensures
        old(list)@.len() <= needed ==> final(list)@ == old(list)@ && surplus@.len() == 0,
        old(list)@.len() > needed ==> final(list)@ == old(list)@.take(needed as int) && surplus@
            == old(list)@.skip(needed as int),
{
    if list.len() > needed {
        let ghost all = list@;
        let surplus: Vec<u64> = list.split_off(needed);
        assert(surplus@ =~= all.skip(needed as int));
        assert(list@ =~= all.take(needed as int));
        surplus
    } else {
        Vec::new()
    }
}

/// The blocks of a list, its holes left out.
pub open spec fn solid(list: Seq<u64>) -> Seq<u64>
    decreases list.len(),
{
    if list.len() == 0 {
        Seq::empty()
    } else if list.last() == HOLE {
        solid(list.drop_last())
    } else {
        solid(list.drop_last()).push(list.last())
    }
}

/// The blocks of a list, its holes left out: what is written whole is written
/// to blocks, wherever it had none.
fn without_holes(list: &Vec<u64>) -> (out: Vec<u64>)
    ensures
        out@ == solid(list@),
{
    let mut out: Vec<u64> = Vec::new();
    let mut i: usize = 0;
    assert(list@.take(0) =~= Seq::empty());
    while i < list.len()
        invariant
            i <= list@.len(),
            out@ == solid(list@.take(i as int)),
        decreases list@.len() - i,
    {
        assert(list@.take(i + 1).drop_last() =~= list@.take(i as int));
        if list[i] != HOLE {
            out.push(list[i]);
        }
        i += 1;
    }
    assert(list@.take(i as int) =~= list@);
    out
}

/// A list of blocks being cut or grown to the length that is needed.
#[derive(Debug)]
pub struct Resize {
    /// The blocks.
    pub list: Vec<u64>,
    /// The ones to give back.
    pub surplus: Vec<u64>,
    /// How many of those have been given back.
    pub freed: usize,
    /// How many blocks are needed.
    pub needed: usize,
    /// The block to look near for more, rather than near the one placed last.
    pub goal: Option<u64>,
}

impl Resize {
    /// Whether it can go on.
    pub open spec fn valid(&self) -> bool {
        self.freed <= self.surplus@.len()
    }

    /// How cutting and growing ends: what becomes of the bitmaps, the blocks,
    /// how many were given back, and how it ended.
    pub open spec fn ends(&self, a: AllocView) -> (AllocView, Seq<u64>, int, Run) {
        let (b, n, unread) = released(a, self.surplus@, self.freed as int);
        match unread {
            Some(g) => (b, self.list@, n, Run::Unread(g)),
            None => {
                let (c, out, run) = grown(b, self.goal, self.list@, self.needed as int);
                (c, out, n, run)
            },
        }
    }

    /// For a file's blocks: what is past the end is given back, and what is
    /// missing is looked for near the last block that stays. All of them are
    /// to be written, so holes do not count.
    pub fn file(list: Vec<u64>, needed: usize) -> (r: Self)
        ensures
            r.valid(),
            r.freed == 0,
            r.needed == needed,
            r.goal == Some(last_of(r.list@)),
            ({
                let had = solid(list@);
                &&& had.len() <= needed ==> r.list@ == had && r.surplus@.len() == 0
                &&& had.len() > needed ==> r.list@ == had.take(needed as int) && r.surplus@
                    == backwards(had.skip(needed as int))
            }),
    {
        let mut list = without_holes(&list);
        let surplus: Vec<u64> = cut_file(&mut list, needed);
        let goal: u64 = goal_behind(list.as_slice());
        Resize { list, surplus, freed: 0, needed, goal: Some(goal) }
    }

    /// For a directory's blocks: what is missing is looked for near the block
    /// placed last. Blocks already in place keep their position.
    pub fn directory(list: Vec<u64>, needed: usize) -> (r: Self)
        ensures
            r.valid(),
            r.freed == 0,
            r.needed == needed,
            r.goal is None,
            ({
                let had = solid(list@);
                &&& had.len() <= needed ==> r.list@ == had && r.surplus@.len() == 0
                &&& had.len() > needed ==> r.list@ == had.take(needed as int) && r.surplus@
                    == had.skip(needed as int)
            }),
    {
        let mut list = without_holes(&list);
        let surplus: Vec<u64> = cut_directory(&mut list, needed);
        Resize { list, surplus, freed: 0, needed, goal: None }
    }

    /// Give back what is too much and take what is missing. `Unread` leaves it
    /// where it goes on from.
    pub fn settle(&mut self, alloc: &mut Allocator) -> (r: Result<Got<()>>)
        requires
            old(self).valid(),
            old(alloc)@.valid(),
            can_free(old(alloc)@, old(self).surplus@.len() - old(self).freed),
        ensures
            final(self).valid(),
            final(alloc)@.valid(),
            final(self).surplus@ == old(self).surplus@,
            final(self).needed == old(self).needed,
            final(self).goal == old(self).goal,
            ({
                let (a, out, n, run) = old(self).ends(old(alloc)@);
                &&& final(alloc)@ == a
                &&& final(self).list@ == out
                &&& final(self).freed == n
                &&& match r {
                    Ok(Got::Done(_)) => run is Done,
                    Ok(Got::Unread(g)) => run == Run::Unread(g as int) && g < a.geometry.groups(),
                    Err(e) => run is Full && e is NoSpace,
                }
            }),
    {
        let mut freed: usize = self.freed;
        match release(alloc, self.surplus.as_slice(), &mut freed) {
            Got::Done(_) => {
                self.freed = freed;
            },
            Got::Unread(g) => {
                self.freed = freed;
                return Ok(Got::Unread(g));
            },
        }
        grow(alloc, self.goal, &mut self.list, self.needed)
    }
}

/// What block `i` of contents holds, the final partial one padded with zeroes.
pub open spec fn block_of(data: Seq<u8>, i: int, block_size: nat) -> Seq<u8> {
    Seq::new(
        block_size,
        |k: int|
            if i * block_size + k < data.len() {
                data[i * block_size + k]
            } else {
                0
            },
    )
}

/// What block `i` of contents holds, the final partial one padded with zeroes.
pub fn block_at(data: &[u8], i: usize, block_size: usize) -> (buf: Vec<u8>)
    requires
        i * block_size + block_size <= usize::MAX,
    ensures
        buf@ == block_of(data@, i as int, block_size as nat),
{
    proof {
        assert(i * block_size >= 0) by (nonlinear_arith)
            requires
                i >= 0,
                block_size >= 0,
        ;
    }
    let from: usize = i * block_size;
    let mut buf: Vec<u8> = Vec::new();
    let mut k: usize = 0;
    while k < block_size
        invariant
            k <= block_size,
            from == i * block_size,
            from + block_size <= usize::MAX,
            buf@.len() == k,
            forall|j: int|
                0 <= j < k ==> #[trigger] buf@[j] == block_of(
                    data@,
                    i as int,
                    block_size as nat,
                )[j],
        decreases block_size - k,
    {
        if from + k < data.len() {
            buf.push(data[from + k]);
        } else {
            buf.push(0);
        }
        k += 1;
    }
    assert(buf@ =~= block_of(data@, i as int, block_size as nat));
    buf
}

/// Contents with `data` in place from `offset` on, zeroes filling what is
/// between the end and there.
pub open spec fn spliced(whole: Seq<u8>, offset: int, data: Seq<u8>) -> Seq<u8> {
    let end = offset + data.len();
    Seq::new(
        if whole.len() < end {
            end as nat
        } else {
            whole.len()
        },
        |i: int|
            if offset <= i < end {
                data[i - offset]
            } else if i < whole.len() {
                whole[i]
            } else {
                0
            },
    )
}

/// Put `data` in place from `offset` on, leaving the rest of the contents
/// alone. Contents that end before are extended, with zeroes up to the offset.
pub fn splice(whole: Vec<u8>, offset: u64, data: &[u8]) -> (out: Vec<u8>)
    requires
        offset + data@.len() <= usize::MAX,
    ensures
        out@ == spliced(whole@, offset as int, data@),
{
    let start: usize = offset as usize;
    let end: usize = start + data.len();
    let mut out = whole;
    let ghost was = out@;
    while out.len() < end
        invariant
            out@.len() >= was.len(),
            out@.len() <= was.len() || out@.len() <= end,
            forall|i: int|
                0 <= i < out@.len() ==> #[trigger] out@[i] == (if i < was.len() {
                    was[i]
                } else {
                    0
                }),
        decreases end - out@.len(),
    {
        out.push(0);
    }
    let ghost long = out@;
    let mut i: usize = 0;
    while i < data.len()
        invariant
            i <= data@.len(),
            end == start + data@.len(),
            end <= long.len(),
            out@.len() == long.len(),
            forall|k: int|
                0 <= k < out@.len() ==> #[trigger] out@[k] == (if start <= k < start + i {
                    data@[k - start]
                } else {
                    long[k]
                }),
        decreases data.len() - i,
    {
        out.set(start + i, data[i]);
        i += 1;
    }
    assert(out@ =~= spliced(whole@, offset as int, data@));
    out
}

/// Contents with `data` behind them.
pub fn append(whole: Vec<u8>, data: &[u8]) -> (out: Vec<u8>)
    ensures
        out@ == whole@ + data@,
{
    let mut out = whole;
    let mut i: usize = 0;
    while i < data.len()
        invariant
            i <= data@.len(),
            out@ == whole@ + data@.take(i as int),
        decreases data.len() - i,
    {
        out.push(data[i]);
        i += 1;
        assert(data@.take(i as int) =~= data@.take(i - 1).push(data@[i - 1]));
    }
    assert(data@.take(i as int) =~= data@);
    out
}

/// How much of a large file is moved between an archive and the filesystem at
/// once: small enough to sit on a modest device's heap.
pub const CHUNK: usize = 65536;

/// Above this, contents are streamed rather than gathered.
pub const INLINE_LIMIT: usize = 1048576;

/// What a file being unpacked waits for.
#[derive(Debug, Clone, Copy, PartialEq, Eq, Structural)]
pub enum Next {
    /// More of its contents.
    Read,
    /// All of its contents have been gathered, and go down in one write.
    Whole,
    /// It is too big to gather, and has to be created empty.
    Create,
    /// This many blocks, for the full ones in hand.
    Blocks(usize),
    /// One block, for what is left in hand.
    Tail,
    /// All of its contents are in blocks.
    Finish,
}

/// A file being written out of an archive.
///
/// Small files go down in a single write. Anything larger is streamed, so
/// unpacking a large file costs a buffer and not the file — and each of its
/// blocks is allocated and written exactly once.
pub struct Stream {
    /// What has been read and not yet written.
    pub pending: Vec<u8>,
    /// The blocks written.
    pub list: Vec<u64>,
    /// Bytes written.
    pub size: u64,
    /// Whether the file has been created and is being streamed.
    pub large: bool,
    /// Whether the contents have been read to the end.
    pub ended: bool,
    /// All that has been read.
    pub seen: Ghost<Seq<u8>>,
}

impl Stream {
    /// What has been read is what was written, then what is pending; until the
    /// end, what was written fills its blocks.
    pub open spec fn inv(&self, block_size: nat) -> bool {
        &&& self.seen@.len() <= u64::MAX
        &&& self.size <= self.seen@.len()
        &&& self.pending@ == self.seen@.skip(self.size as int)
        &&& !self.ended || self.pending@.len() > 0 ==> self.size == self.list@.len() * block_size
        &&& self.list@.len() == blocks_for(self.size as nat, block_size)
        &&& !self.large ==> self.size == 0
    }

    /// What is to be done next.
    pub open spec fn wants(&self, block_size: nat) -> Next {
        if !self.large {
            if self.ended {
                Next::Whole
            } else if self.pending@.len() < INLINE_LIMIT {
                Next::Read
            } else {
                Next::Create
            }
        } else if self.pending@.len() >= block_size {
            Next::Blocks((self.pending@.len() / block_size) as usize)
        } else if !self.ended {
            Next::Read
        } else if self.pending@.len() > 0 {
            Next::Tail
        } else {
            Next::Finish
        }
    }

    /// A file of which nothing has been read.
    pub fn new(block_size: usize) -> (r: Self)
        requires
            block_size > 0,
        ensures
            r.inv(block_size as nat),
            r.seen@.len() == 0,
            !r.large,
            !r.ended,
            r.list@.len() == 0,
            r.size == 0,
    {
        let r = Stream {
            pending: Vec::new(),
            list: Vec::new(),
            size: 0,
            large: false,
            ended: false,
            seen: Ghost(Seq::empty()),
        };
        proof {
            assert(r.pending@ =~= r.seen@.skip(0));
            lemma_whole_blocks(0, block_size as int);
        }
        r
    }

    /// What is to be done next.
    pub fn next(&self, block_size: usize) -> (n: Next)
        requires
            block_size > 0,
        ensures
            n == self.wants(block_size as nat),
    {
        if !self.large {
            if self.ended {
                Next::Whole
            } else if self.pending.len() < INLINE_LIMIT {
                Next::Read
            } else {
                Next::Create
            }
        } else if self.pending.len() >= block_size {
            Next::Blocks(self.pending.len() / block_size)
        } else if !self.ended {
            Next::Read
        } else if self.pending.len() > 0 {
            Next::Tail
        } else {
            Next::Finish
        }
    }

    /// More of the contents; none, if they are at their end.
    pub fn read(&mut self, chunk: &[u8], block_size: usize)
        requires
            block_size > 0,
            old(self).inv(block_size as nat),
            old(self).wants(block_size as nat) is Read,
            old(self).seen@.len() + chunk@.len() <= u64::MAX,
        ensures
            final(self).inv(block_size as nat),
            final(self).seen@ == old(self).seen@ + chunk@,
            final(self).ended == (chunk@.len() == 0),
            final(self).large == old(self).large,
            final(self).list@ == old(self).list@,
            final(self).size == old(self).size,
    {
        let ghost was = self.pending@;
        let ghost all = self.seen@;
        let mut pending: Vec<u8> = Vec::new();
        std::mem::swap(&mut pending, &mut self.pending);
        self.pending = append(pending, chunk);
        self.seen = Ghost(all + chunk@);
        proof {
            assert(self.pending@ =~= self.seen@.skip(self.size as int));
        }
        self.ended = chunk.len() == 0;
    }

    /// The file has been created.
    pub fn created(&mut self, block_size: usize)
        requires
            old(self).inv(block_size as nat),
            old(self).wants(block_size as nat) is Create,
        ensures
            final(self).inv(block_size as nat),
            final(self).large,
            final(self).seen@ == old(self).seen@,
            final(self).ended == old(self).ended,
            final(self).list@ == old(self).list@,
            final(self).size == old(self).size,
            final(self).pending@ == old(self).pending@,
    {
        self.large = true;
    }

    /// Write the full blocks in hand to these: each block, and what it is to
    /// hold.
    pub fn flush(&mut self, blocks: &[u64], block_size: usize) -> (writes: Vec<(u64, Vec<u8>)>)
        requires
            block_size > 0,
            old(self).inv(block_size as nat),
            old(self).wants(block_size as nat) == Next::Blocks(blocks@.len() as usize),
        ensures
            final(self).inv(block_size as nat),
            final(self).seen@ == old(self).seen@,
            final(self).large,
            final(self).ended == old(self).ended,
            final(self).list@ == old(self).list@ + blocks@,
            final(self).size == old(self).size + blocks@.len() * block_size,
            writes@.len() == blocks@.len(),
            forall|i: int|
                0 <= i < writes@.len() ==> (#[trigger] writes@[i]).0 == blocks@[i]
                    && writes@[i].1@ == block_of(
                    old(self).seen@,
                    old(self).list@.len() + i,
                    block_size as nat,
                ),
    {
        assert(blocks.len() == blocks@.len());
        assert(self.pending.len() == self.pending@.len());
        let full: usize = self.pending.len() / block_size;
        let ghost d = block_size as int;
        let ghost seen = self.seen@;
        let ghost size = self.size as int;
        let ghost had = self.list@.len() as int;
        proof {
            assert(full * d <= self.pending@.len() && 0 <= full * d) by (nonlinear_arith)
                requires
                    d > 0,
                    full == self.pending@.len() / d as nat,
            ;
        }
        let mut writes: Vec<(u64, Vec<u8>)> = Vec::new();
        let mut i: usize = 0;
        while i < full
            invariant
                i <= full,
                full == blocks@.len(),
                block_size == d,
                d > 0,
                full * d <= self.pending@.len(),
                self.pending@.len() <= usize::MAX,
                self.pending@ == seen.skip(size),
                size == had * d,
                0 <= size <= seen.len(),
                had >= 0,
                writes@.len() == i,
                forall|j: int|
                    0 <= j < i ==> (#[trigger] writes@[j]).0 == blocks@[j] && writes@[j].1@
                        == block_of(seen, had + j, block_size as nat),
            decreases full - i,
        {
            proof {
                assert(i * d + d <= full * d && 0 <= i * d) by (nonlinear_arith)
                    requires
                        0 <= i < full,
                        d > 0,
                ;
                assert((had + i) * d == had * d + i * d) by (nonlinear_arith);
            }
            let buf: Vec<u8> = block_at(self.pending.as_slice(), i, block_size);
            assert(buf@ =~= block_of(seen, had + i, block_size as nat));
            writes.push((blocks[i], buf));
            i += 1;
        }
        let done: usize = full * block_size;
        let rest: Vec<u8> = self.pending.split_off(done);
        assert(rest@ =~= seen.skip(size + done));
        self.pending = rest;
        let mut k: usize = 0;
        while k < blocks.len()
            invariant
                k <= blocks@.len(),
                self.list@ == old(self).list@ + blocks@.take(k as int),
                self.pending@ == rest@,
                self.seen == old(self).seen,
                self.size == old(self).size,
                self.large == old(self).large,
                self.ended == old(self).ended,
            decreases blocks.len() - k,
        {
            self.list.push(blocks[k]);
            k += 1;
            assert(blocks@.take(k as int) =~= blocks@.take(k - 1).push(blocks@[k - 1]));
        }
        assert(blocks@.take(k as int) =~= blocks@);
        self.size = self.size + done as u64;
        proof {
            assert((had + full) * d == had * d + full * d) by (nonlinear_arith);
            lemma_whole_blocks(had + full, d);
        }
        writes
    }

    /// Write what is left in hand to this block: what it is to hold.
    pub fn tail(&mut self, block: u64, block_size: usize) -> (buf: Vec<u8>)
        requires
            block_size > 0,
            old(self).inv(block_size as nat),
            old(self).wants(block_size as nat) is Tail,
        ensures
            final(self).inv(block_size as nat),
            final(self).wants(block_size as nat) is Finish,
            final(self).seen@ == old(self).seen@,
            final(self).size == old(self).seen@.len(),
            final(self).list@ == old(self).list@.push(block),
            buf@ == block_of(
                old(self).seen@,
                old(self).list@.len() as int,
                block_size as nat,
            ),
    {
        let ghost d = block_size as int;
        let ghost had = self.list@.len() as int;
        assert(0 * block_size == 0);
        let buf: Vec<u8> = block_at(self.pending.as_slice(), 0, block_size);
        assert(buf@ =~= block_of(self.seen@, had, block_size as nat));
        let left: usize = self.pending.len();
        proof {
            lemma_part_block(had, d, left as int);
        }
        self.size = self.size + left as u64;
        self.list.push(block);
        self.pending = Vec::new();
        assert(self.pending@ =~= self.seen@.skip(self.size as int));
        buf
    }
}

} // verus!
