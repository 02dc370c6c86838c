//! Allocating and freeing blocks and inodes.
//!
//! Every mutation goes through here, because every mutation has to keep the
//! bitmap, the group descriptor's counters and the superblock's totals in
//! step. Doing that in one place is what keeps the filesystem passing `fsck`
//! after a write.
//!
//! Bitmaps are held in memory and read on demand: a call that needs one that
//! has not been read says which, changes nothing, and is made again once the
//! bitmap has been supplied.

use vstd::prelude::*;

use crate::bitmap::{self, find_clear, set_bit, test_bit};
use crate::error::{Error, Result};

verus! {

/// How a filesystem is divided into groups.
#[derive(Debug, Clone, Copy)]
pub struct Geometry {
    /// The first block that belongs to a group.
    pub first_data_block: u32,
    /// Blocks in the filesystem.
    pub blocks_count: u64,
    /// Blocks in a group; the last group may have fewer.
    pub blocks_per_group: u32,
    /// Inodes in the filesystem.
    pub inodes_count: u32,
    /// Inodes in a group.
    pub inodes_per_group: u32,
    /// The first inode that is not reserved.
    pub first_ino: u32,
}

impl Geometry {
    /// Whether the numbers fit together.
    pub fn is_valid(&self) -> (r: bool)
        ensures
            r == self.valid(),
    {
        if self.blocks_per_group == 0 || self.inodes_per_group == 0 || self.first_data_block as u64
            >= self.blocks_count {
            return false;
        }
        let n: u128 = (self.blocks_count - self.first_data_block as u64) as u128;
        let d: u128 = self.blocks_per_group as u128;
        let groups: u128 = (n + d - 1) / d;
        assert(groups == self.groups());
        if groups > u32::MAX as u128 {
            return false;
        }
        let inodes: u64 = groups as u64;
        proof {
            assert(inodes * self.inodes_per_group <= u32::MAX * u32::MAX) by (nonlinear_arith)
                requires
                    inodes <= u32::MAX,
                    self.inodes_per_group <= u32::MAX,
            ;
        }
        let inodes: u64 = inodes * self.inodes_per_group as u64;
        inodes <= u32::MAX as u64 && self.inodes_count as u64 <= inodes
    }

    /// How many groups there are.
    pub open spec fn groups(self) -> int {
        (self.blocks_count - self.first_data_block + self.blocks_per_group - 1) as int
            / self.blocks_per_group as int
    }

    /// The first block of a group.
    pub open spec fn first_block(self, group: int) -> int {
        self.first_data_block + group * self.blocks_per_group
    }

    /// How many blocks a group has.
    pub open spec fn block_count(self, group: int) -> int {
        if self.blocks_count - self.first_block(group) < self.blocks_per_group {
            self.blocks_count - self.first_block(group)
        } else {
            self.blocks_per_group as int
        }
    }

    /// The group a block belongs to.
    pub open spec fn group_of(self, block: int) -> int {
        (block - self.first_data_block) / self.blocks_per_group as int
    }

    /// Whether a block belongs to a group.
    pub open spec fn holds(self, block: int) -> bool {
        self.first_data_block <= block < self.blocks_count
    }

    /// Whether the numbers fit together.
    pub open spec fn valid(self) -> bool {
        &&& self.blocks_per_group > 0
        &&& self.inodes_per_group > 0
        &&& self.first_data_block < self.blocks_count
        &&& self.groups() <= u32::MAX
        &&& self.groups() * self.inodes_per_group <= u32::MAX
        &&& self.inodes_count <= self.groups() * self.inodes_per_group
    }

    /// Groups cover the filesystem, and nothing else.
    pub proof fn lemma_group(self, group: int)
        requires
            self.valid(),
            0 <= group < self.groups(),
        ensures
            0 <= group * self.blocks_per_group,
            self.first_block(group) < self.blocks_count,
            0 < self.block_count(group) <= self.blocks_per_group,
            self.first_block(group) + self.block_count(group) <= self.blocks_count,
    {
        let n = self.blocks_count - self.first_data_block;
        let d = self.blocks_per_group as int;
        assert(group * d < n) by (nonlinear_arith)
            requires
                group + 1 <= (n + d - 1) / d,
                d > 0,
                n > 0,
        ;
        assert(0 <= group * d) by (nonlinear_arith)
            requires
                group >= 0,
                d > 0,
        ;
    }

    /// Every block stands in its group.
    pub proof fn lemma_block(self, block: int)
        requires
            self.valid(),
            self.holds(block),
        ensures
            0 <= self.group_of(block) < self.groups(),
            self.first_block(self.group_of(block)) <= block,
            block < self.first_block(self.group_of(block)) + self.block_count(self.group_of(block)),
    {
        let b = block - self.first_data_block;
        let n = self.blocks_count - self.first_data_block;
        let d = self.blocks_per_group as int;
        let g = b / d;
        assert(0 <= g && g * d <= b && b < g * d + d && g < (n + d - 1) / d) by (nonlinear_arith)
            requires
                g == b / d,
                0 <= b < n,
                d > 0,
        ;
    }

    /// A block of a group belongs to that group.
    pub proof fn lemma_group_of(self, group: int, i: int)
        requires
            self.valid(),
            0 <= group < self.groups(),
            0 <= i < self.block_count(group),
        ensures
            self.holds(self.first_block(group) + i),
            self.group_of(self.first_block(group) + i) == group,
    {
        self.lemma_group(group);
        let d = self.blocks_per_group as int;
        assert((group * d + i) / d == group) by (nonlinear_arith)
            requires
                0 <= i < d,
                group >= 0,
        ;
    }

    /// There is a group.
    pub proof fn lemma_some_group(self)
        requires
            self.valid(),
        ensures
            self.groups() >= 1,
    {
        let n = self.blocks_count - self.first_data_block;
        let d = self.blocks_per_group as int;
        assert((n + d - 1) / d >= 1) by (nonlinear_arith)
            requires
                n >= 1,
                d > 0,
        ;
    }

    /// How many groups there are.
    pub fn group_count(&self) -> (n: u32)
        requires
            self.valid(),
        ensures
            n == self.groups(),
            n >= 1,
    {
        proof {
            self.lemma_some_group();
        }
        let d: u128 = self.blocks_per_group as u128;
        let n: u128 = (self.blocks_count - self.first_data_block as u64) as u128 + d - 1;
        (n / d) as u32
    }

    /// The first block of a group.
    pub fn group_first_block(&self, group: u32) -> (b: u64)
        requires
            self.valid(),
            group < self.groups(),
        ensures
            b == self.first_block(group as int),
    {
        proof {
            self.lemma_group(group as int);
        }
        self.first_data_block as u64 + group as u64 * self.blocks_per_group as u64
    }

    /// How many blocks a group has.
    pub fn group_block_count(&self, group: u32) -> (n: u64)
        requires
            self.valid(),
            group < self.groups(),
        ensures
            n == self.block_count(group as int),
    {
        proof {
            self.lemma_group(group as int);
        }
        let left: u64 = self.blocks_count - self.group_first_block(group);
        if left < self.blocks_per_group as u64 {
            left
        } else {
            self.blocks_per_group as u64
        }
    }

    /// The group a block belongs to.
    pub fn group_of_block(&self, block: u64) -> (g: u32)
        requires
            self.valid(),
            self.holds(block as int),
        ensures
            g == self.group_of(block as int),
            g < self.groups(),
    {
        proof {
            self.lemma_block(block as int);
        }
        ((block - self.first_data_block as u64) / self.blocks_per_group as u64) as u32
    }
}

/// A group descriptor's counters and flags.
#[derive(Debug, Clone, Copy)]
pub struct GroupDesc {
    /// Free blocks in the group.
    pub free_blocks_count: u32,
    /// Free inodes in the group.
    pub free_inodes_count: u32,
    /// Directories in the group.
    pub used_dirs_count: u32,
    /// Inodes at the end of the table that were never used.
    pub itable_unused: u32,
    /// What has not been initialised yet.
    pub flags: u16,
}

/// The inode bitmap of the group has never been written.
pub const INODE_UNINIT: u16 = 1;

/// The block bitmap of the group has never been written.
pub const BLOCK_UNINIT: u16 = 2;

/// What a call that may need a bitmap comes to.
#[derive(Debug)]
pub enum Got<T> {
    /// It is done.
    Done(T),
    /// It needs the bitmap of this group, which has not been read; nothing
    /// has changed.
    Unread(u32),
}

/// Bitmaps held in memory while a volume is open, written back on flush.
#[derive(Debug)]
pub struct BitmapCache {
    block: Vec<Option<Vec<u8>>>,
    inode: Vec<Option<Vec<u8>>>,
    dirty_block: Vec<bool>,
    dirty_inode: Vec<bool>,
}

/// A bitmap to write back.
#[derive(Debug)]
pub struct DirtyBitmap {
    /// The group it belongs to.
    pub group: u32,
    /// Its bytes.
    pub bitmap: Vec<u8>,
    /// How many of them its checksum covers.
    pub covered: usize,
}

/// Optional bitmaps as the contracts speak of them.
pub open spec fn maps_view(maps: Seq<Option<Vec<u8>>>) -> Seq<Option<Seq<u8>>> {
    maps.map_values(
        |m: Option<Vec<u8>>|
            match m {
                Some(map) => Some(map@),
                None => None,
            },
    )
}

/// Everything an allocator keeps.
#[verifier::ext_equal]
pub struct AllocView {
    /// How the filesystem is divided.
    pub geometry: Geometry,
    /// The group descriptors.
    pub groups: Seq<GroupDesc>,
    /// Free blocks in the filesystem.
    pub free_blocks: u64,
    /// Free inodes in the filesystem.
    pub free_inodes: u32,
    /// The block bitmaps that have been read.
    pub block: Seq<Option<Seq<u8>>>,
    /// The inode bitmaps that have been read.
    pub inode: Seq<Option<Seq<u8>>>,
    /// The block bitmaps that have changed.
    pub dirty_block: Seq<bool>,
    /// The inode bitmaps that have changed.
    pub dirty_inode: Seq<bool>,
}

impl AllocView {
    /// Whether everything fits together: a descriptor and a place for each
    /// bitmap to a group, and every bitmap read long enough.
    pub open spec fn valid(self) -> bool {
        let n = self.geometry.groups();
        &&& self.geometry.valid()
        &&& self.groups.len() == n
        &&& self.block.len() == n
        &&& self.inode.len() == n
        &&& self.dirty_block.len() == n
        &&& self.dirty_inode.len() == n
        &&& forall|g: int|
            0 <= g < n ==> (#[trigger] self.block[g] matches Some(map)
                ==> self.geometry.blocks_per_group <= 8 * map.len())
        &&& forall|g: int|
            0 <= g < n ==> (#[trigger] self.inode[g] matches Some(map)
                ==> self.geometry.inodes_per_group <= 8 * map.len())
    }

    /// The group and the bit a search for a block starts from.
    pub open spec fn block_start(self, goal: int) -> (int, int) {
        if self.geometry.holds(goal) {
            let g = self.geometry.group_of(goal);
            (g, goal - self.geometry.first_block(g))
        } else {
            (0, 0)
        }
    }

    /// Where a free block is found, looking from `step` groups past the start
    /// on: from the goal's own bit in its group, wrapping, then group by group.
    pub open spec fn block_spot(self, start: int, from: int, step: int) -> Spot
        decreases self.geometry.groups() - step,
    {
        if step >= self.geometry.groups() {
            Spot::Full
        } else {
            let g = (start + step) % self.geometry.groups();
            match self.block[g] {
                None => Spot::Unread(g),
                Some(map) => match bitmap::clear_near(
                    map,
                    if step == 0 {
                        from
                    } else {
                        0
                    },
                    self.geometry.block_count(g),
                ) {
                    Some(i) => Spot::At(g, i),
                    None => self.block_spot(start, from, step + 1),
                },
            }
        }
    }

    /// Where the free block nearest to `goal` is found.
    pub open spec fn spot_near(self, goal: int) -> Spot {
        let (start, from) = self.block_start(goal);
        self.block_spot(start, from, 0)
    }

    /// With block `i` of group `g` in use.
    pub open spec fn with_block(self, g: int, i: int) -> AllocView {
        let d = self.groups[g];
        AllocView {
            groups: self.groups.update(
                g,
                GroupDesc {
                    free_blocks_count: minus_one32(d.free_blocks_count),
                    flags: d.flags & !BLOCK_UNINIT,
                    ..d
                },
            ),
            free_blocks: minus_one64(self.free_blocks),
            block: self.block.update(g, Some(bitmap::with_bit(self.block[g]->0, i, true))),
            dirty_block: self.dirty_block.update(g, true),
            ..self
        }
    }

    /// Whether a block is known to be in use.
    pub open spec fn uses_block(self, block: int) -> bool {
        let g = self.geometry.group_of(block);
        &&& self.geometry.holds(block)
        &&& self.block[g] matches Some(map)
        &&& bitmap::bit(map, block - self.geometry.first_block(g))
    }

    /// Whether an inode is known to be in use.
    pub open spec fn uses_inode(self, inum: int) -> bool {
        let n = self.geometry.inodes_per_group as int;
        &&& is_inode(self.geometry, inum)
        &&& self.inode[(inum - 1) / n] matches Some(map)
        &&& bitmap::bit(map, (inum - 1) % n)
    }

    /// With every bitmap written back.
    pub open spec fn written_back(self) -> AllocView {
        AllocView {
            dirty_block: Seq::new(self.groups.len(), |i: int| false),
            dirty_inode: Seq::new(self.groups.len(), |i: int| false),
            ..self
        }
    }

    /// With block `i` of group `g` free.
    pub open spec fn without_block(self, g: int, i: int) -> AllocView {
        let d = self.groups[g];
        AllocView {
            groups: self.groups.update(
                g,
                GroupDesc { free_blocks_count: (d.free_blocks_count + 1) as u32, ..d },
            ),
            free_blocks: (self.free_blocks + 1) as u64,
            block: self.block.update(g, Some(bitmap::with_bit(self.block[g]->0, i, false))),
            dirty_block: self.dirty_block.update(g, true),
            ..self
        }
    }

    /// The group a search for an inode starts from.
    pub open spec fn inode_start(self, near: int) -> int {
        if 0 < near <= self.geometry.inodes_count {
            (near - 1) / self.geometry.inodes_per_group as int
        } else {
            0
        }
    }

    /// The number of the inode at index `i` of group `g`.
    pub open spec fn inode_number(self, g: int, i: int) -> int {
        g * self.geometry.inodes_per_group + i + 1
    }

    /// The first inode of group `g`, from index `i` on, that is free and not
    /// reserved.
    pub open spec fn free_inode_from(self, map: Seq<u8>, g: int, i: int) -> Option<int>
        decreases self.geometry.inodes_per_group - i,
    {
        if i >= self.geometry.inodes_per_group || self.inode_number(g, i)
            > self.geometry.inodes_count {
            None
        } else if self.inode_number(g, i) >= self.geometry.first_ino && !bitmap::bit(map, i) {
            Some(i)
        } else {
            self.free_inode_from(map, g, i + 1)
        }
    }

    /// Where a free inode is found, looking from `step` groups past the start
    /// on.
    pub open spec fn inode_spot(self, start: int, step: int) -> Spot
        decreases self.geometry.groups() - step,
    {
        if step >= self.geometry.groups() {
            Spot::Full
        } else {
            let g = (start + step) % self.geometry.groups();
            match self.inode[g] {
                None => Spot::Unread(g),
                Some(map) => match self.free_inode_from(map, g, 0) {
                    Some(i) => Spot::At(g, i),
                    None => self.inode_spot(start, step + 1),
                },
            }
        }
    }

    /// With inode `i` of group `g` in use.
    pub open spec fn with_inode(self, g: int, i: int, is_dir: bool) -> AllocView {
        let d = self.groups[g];
        let tail = (self.geometry.inodes_per_group - (i + 1)) as u32;
        AllocView {
            groups: self.groups.update(
                g,
                GroupDesc {
                    free_inodes_count: minus_one32(d.free_inodes_count),
                    used_dirs_count: if is_dir {
                        (d.used_dirs_count + 1) as u32
                    } else {
                        d.used_dirs_count
                    },
                    itable_unused: if d.itable_unused > tail {
                        tail
                    } else {
                        d.itable_unused
                    },
                    flags: d.flags & !INODE_UNINIT,
                    ..d
                },
            ),
            free_inodes: minus_one32(self.free_inodes),
            inode: self.inode.update(g, Some(bitmap::with_bit(self.inode[g]->0, i, true))),
            dirty_inode: self.dirty_inode.update(g, true),
            ..self
        }
    }

    /// With inode `i` of group `g` free.
    pub open spec fn without_inode(self, g: int, i: int, was_dir: bool) -> AllocView {
        let d = self.groups[g];
        AllocView {
            groups: self.groups.update(
                g,
                GroupDesc {
                    free_inodes_count: (d.free_inodes_count + 1) as u32,
                    used_dirs_count: if was_dir {
                        minus_one32(d.used_dirs_count)
                    } else {
                        d.used_dirs_count
                    },
                    ..d
                },
            ),
            free_inodes: (self.free_inodes + 1) as u32,
            inode: self.inode.update(g, Some(bitmap::with_bit(self.inode[g]->0, i, false))),
            dirty_inode: self.dirty_inode.update(g, true),
            ..self
        }
    }
}

/// Where a search for something free ends.
pub enum Spot {
    /// Nothing is free.
    Full,
    /// At a group whose bitmap has not been read.
    Unread(int),
    /// At a bit of a group.
    At(int, int),
}

/// One less, but never below zero.
pub open spec fn minus_one32(n: u32) -> u32 {
    if n == 0 {
        0
    } else {
        (n - 1) as u32
    }
}

/// One less, but never below zero.
pub open spec fn minus_one64(n: u64) -> u64 {
    if n == 0 {
        0
    } else {
        (n - 1) as u64
    }
}

/// Allocation over a live filesystem.
#[derive(Debug)]
pub struct Allocator {
    geometry: Geometry,
    groups: Vec<GroupDesc>,
    free_blocks: u64,
    free_inodes: u32,
    cache: BitmapCache,
}

impl View for BitmapCache {
    type V = (Seq<Option<Seq<u8>>>, Seq<Option<Seq<u8>>>, Seq<bool>, Seq<bool>);

    closed spec fn view(&self) -> (
        Seq<Option<Seq<u8>>>,
        Seq<Option<Seq<u8>>>,
        Seq<bool>,
        Seq<bool>,
    ) {
        (maps_view(self.block@), maps_view(self.inode@), self.dirty_block@, self.dirty_inode@)
    }
}

impl View for Allocator {
    type V = AllocView;

    closed spec fn view(&self) -> AllocView {
        AllocView {
            geometry: self.geometry,
            groups: self.groups@,
            free_blocks: self.free_blocks,
            free_inodes: self.free_inodes,
            block: self.cache@.0,
            inode: self.cache@.1,
            dirty_block: self.cache@.2,
            dirty_inode: self.cache@.3,
        }
    }
}

/// Whether a list holds `true`.
pub open spec fn any_set(flags: Seq<bool>) -> bool {
    exists|i: int| 0 <= i < flags.len() && flags[i]
}

/// Whether a list holds `true`.
fn any(flags: &Vec<bool>) -> (r: bool)
    ensures
        r == any_set(flags@),
{
    let mut i: usize = 0;
    while i < flags.len()
        invariant
            i <= flags@.len(),
            forall|j: int| 0 <= j < i ==> !flags@[j],
        decreases flags.len() - i,
    {
        if flags[i] {
            return true;
        }
        i += 1;
    }
    false
}

impl BitmapCache {
    /// A cache for `groups` groups with nothing read yet.
    fn new(groups: usize) -> (r: Self)
        ensures
            r@.0 == Seq::new(groups as nat, |i: int| None::<Seq<u8>>),
            r@.1 == Seq::new(groups as nat, |i: int| None::<Seq<u8>>),
            r@.2 == Seq::new(groups as nat, |i: int| false),
            r@.3 == Seq::new(groups as nat, |i: int| false),
    {
        let mut block: Vec<Option<Vec<u8>>> = Vec::new();
        let mut inode: Vec<Option<Vec<u8>>> = Vec::new();
        let mut dirty_block: Vec<bool> = Vec::new();
        let mut dirty_inode: Vec<bool> = Vec::new();
        let mut i: usize = 0;
        while i < groups
            invariant
                i <= groups,
                block@.len() == i,
                inode@.len() == i,
                dirty_block@ == Seq::new(i as nat, |j: int| false),
                dirty_inode@ == Seq::new(i as nat, |j: int| false),
                forall|j: int| 0 <= j < i ==> block@[j] is None,
                forall|j: int| 0 <= j < i ==> inode@[j] is None,
            decreases groups - i,
        {
            block.push(None);
            inode.push(None);
            dirty_block.push(false);
            dirty_inode.push(false);
            i += 1;
            assert(dirty_block@ =~= Seq::new(i as nat, |j: int| false));
            assert(dirty_inode@ =~= Seq::new(i as nat, |j: int| false));
        }
        let r = BitmapCache { block, inode, dirty_block, dirty_inode };
        assert(r@.0 =~= Seq::new(groups as nat, |i: int| None::<Seq<u8>>));
        assert(r@.1 =~= Seq::new(groups as nat, |i: int| None::<Seq<u8>>));
        r
    }

    /// Whether anything is still waiting to be written back.
    pub fn is_dirty(&self) -> (r: bool)
        ensures
            r == (any_set(self@.2) || any_set(self@.3)),
    {
        any(&self.dirty_block) || any(&self.dirty_inode)
    }
}

/// The next group in a search that wraps.
fn wrapped(start: u32, step: u32, groups: u32) -> (g: u32)
    requires
        groups > 0,
    ensures
        g == (start + step) % groups as int,
        g < groups,
        step == 0 && start < groups ==> g == start,
{
    proof {
        if start < groups {
            vstd::arithmetic::div_mod::lemma_small_mod(start as nat, groups as nat);
        }
    }
    ((start as u64 + step as u64) % groups as u64) as u32
}

impl Allocator {
    /// An allocator over these descriptors and totals, with no bitmap read.
    pub fn new(
        geometry: Geometry,
        groups: Vec<GroupDesc>,
        free_blocks: u64,
        free_inodes: u32,
    ) -> (r: Self)
        requires
            geometry.valid(),
            groups@.len() == geometry.groups(),
        ensures
            r@.valid(),
            r@ == (AllocView {
                geometry,
                groups: groups@,
                free_blocks,
                free_inodes,
                block: Seq::new(groups@.len(), |i: int| None::<Seq<u8>>),
                inode: Seq::new(groups@.len(), |i: int| None::<Seq<u8>>),
                dirty_block: Seq::new(groups@.len(), |i: int| false),
                dirty_inode: Seq::new(groups@.len(), |i: int| false),
            }),
    {
        let cache: BitmapCache = BitmapCache::new(groups.len());
        Allocator { geometry, groups, free_blocks, free_inodes, cache }
    }

    /// How the filesystem is divided.
    pub fn geometry(&self) -> (g: Geometry)
        ensures
            g == self@.geometry,
    {
        self.geometry
    }

    /// The group descriptors' counters.
    pub fn group(&self, group: u32) -> (d: GroupDesc)
        requires
            group < self@.groups.len(),
        ensures
            d == self@.groups[group as int],
    {
        self.groups[group as usize]
    }

    /// Free blocks and free inodes in the filesystem.
    pub fn totals(&self) -> (r: (u64, u32))
        ensures
            r == (self@.free_blocks, self@.free_inodes),
    {
        (self.free_blocks, self.free_inodes)
    }

    /// Whether every count of inodes and directories has room for one more.
    pub fn can_count_inodes(&self) -> (r: bool)
        ensures
            r == (self@.free_inodes < u32::MAX && forall|g: int|
                0 <= g < self@.groups.len() ==> (#[trigger] self@.groups[g]).used_dirs_count
                    < u32::MAX && self@.groups[g].free_inodes_count < u32::MAX),
    {
        if self.free_inodes == u32::MAX {
            return false;
        }
        let mut g: usize = 0;
        while g < self.groups.len()
            invariant
                g <= self.groups@.len(),
                self@.groups == self.groups@,
                forall|k: int|
                    0 <= k < g ==> (#[trigger] self.groups@[k]).used_dirs_count < u32::MAX
                        && self.groups@[k].free_inodes_count < u32::MAX,
            decreases self.groups.len() - g,
        {
            if self.groups[g].used_dirs_count == u32::MAX || self.groups[g].free_inodes_count
                == u32::MAX {
                assert(!(self@.groups[g as int].used_dirs_count < u32::MAX
                    && self@.groups[g as int].free_inodes_count < u32::MAX));
                return false;
            }
            g += 1;
        }
        true
    }

    /// The bitmaps.
    pub fn cache(&self) -> (r: &BitmapCache)
        ensures
            r@ == (self@.block, self@.inode, self@.dirty_block, self@.dirty_inode),
    {
        &self.cache
    }

    /// Supply a group's block bitmap.
    pub fn load_block_bitmap(&mut self, group: u32, map: Vec<u8>)
        requires
            old(self)@.valid(),
            group < old(self)@.geometry.groups(),
            old(self)@.geometry.blocks_per_group <= 8 * map@.len(),
        ensures
            final(self)@.valid(),
            final(self)@ == (AllocView {
                block: old(self)@.block.update(group as int, Some(map@)),
                ..old(self)@
            }),
    {
        self.cache.block.set(group as usize, Some(map));
        assert(self@.block =~= old(self)@.block.update(group as int, Some(map@)));
    }

    /// Supply a group's inode bitmap.
    pub fn load_inode_bitmap(&mut self, group: u32, map: Vec<u8>)
        requires
            old(self)@.valid(),
            group < old(self)@.geometry.groups(),
            old(self)@.geometry.inodes_per_group <= 8 * map@.len(),
        ensures
            final(self)@.valid(),
            final(self)@ == (AllocView {
                inode: old(self)@.inode.update(group as int, Some(map@)),
                ..old(self)@
            }),
    {
        self.cache.inode.set(group as usize, Some(map));
        assert(self@.inode =~= old(self)@.inode.update(group as int, Some(map@)));
    }

    /// Set or clear a bit of a block bitmap that has been read.
    fn mark_block(&mut self, group: u32, i: u64, on: bool)
        requires
            group < old(self)@.block.len(),
            group < old(self)@.dirty_block.len(),
            old(self)@.block[group as int] matches Some(map) && i < 8 * map.len(),
        ensures
            final(self)@ == (AllocView {
                block: old(self)@.block.update(
                    group as int,
                    Some(bitmap::with_bit(old(self)@.block[group as int]->0, i as int, on)),
                ),
                dirty_block: old(self)@.dirty_block.update(group as int, true),
                ..old(self)@
            }),
    {
        let mut slot: Option<Vec<u8>> = None;
        std::mem::swap(&mut slot, &mut self.cache.block[group as usize]);
        match slot {
            Some(map) => {
                let mut map = map;
                set_bit(&mut map, i, on);
                self.cache.block.set(group as usize, Some(map));
            },
            None => {},
        }
        self.cache.dirty_block.set(group as usize, true);
        assert(self@.block =~= old(self)@.block.update(
            group as int,
            Some(bitmap::with_bit(old(self)@.block[group as int]->0, i as int, on)),
        ));
    }

    /// Set or clear a bit of an inode bitmap that has been read.
    fn mark_inode(&mut self, group: u32, i: u64, on: bool)
        requires
            group < old(self)@.inode.len(),
            group < old(self)@.dirty_inode.len(),
            old(self)@.inode[group as int] matches Some(map) && i < 8 * map.len(),
        ensures
            final(self)@ == (AllocView {
                inode: old(self)@.inode.update(
                    group as int,
                    Some(bitmap::with_bit(old(self)@.inode[group as int]->0, i as int, on)),
                ),
                dirty_inode: old(self)@.dirty_inode.update(group as int, true),
                ..old(self)@
            }),
    {
        let mut slot: Option<Vec<u8>> = None;
        std::mem::swap(&mut slot, &mut self.cache.inode[group as usize]);
        match slot {
            Some(map) => {
                let mut map = map;
                set_bit(&mut map, i, on);
                self.cache.inode.set(group as usize, Some(map));
            },
            None => {},
        }
        self.cache.dirty_inode.set(group as usize, true);
        assert(self@.inode =~= old(self)@.inode.update(
            group as int,
            Some(bitmap::with_bit(old(self)@.inode[group as int]->0, i as int, on)),
        ));
    }

    /// Allocate one block, as near to `goal` as there is one.
    pub fn alloc_block(&mut self, goal: u64) -> (r: Result<Got<u64>>)
        requires
            old(self)@.valid(),
        ensures
            final(self)@.valid(),
            match r {
                Ok(Got::Done(b)) => old(self)@.spot_near(goal as int) matches Spot::At(g, i) && b
                    == old(self)@.geometry.first_block(g) + i && final(self)@
                    == old(self)@.with_block(g, i) && old(self)@.geometry.holds(b as int),
                Ok(Got::Unread(g)) => old(self)@.spot_near(goal as int) == Spot::Unread(g as int)
                    && g < old(self)@.geometry.groups() && final(self)@ == old(self)@,
                Err(e) => e is NoSpace && old(self)@.spot_near(goal as int) is Full && final(self)@
                    == old(self)@,
            },
    {
        let geo: Geometry = self.geometry;
        let groups: u32 = geo.group_count();
        let mut start: u32 = 0;
        let mut from: u64 = 0;
        if goal >= geo.first_data_block as u64 && goal < geo.blocks_count {
            start = geo.group_of_block(goal);
            proof {
                geo.lemma_block(goal as int);
            }
            from = goal - geo.group_first_block(start);
        }
        // Search from the goal's own bit outwards, wrapping — the same shape of
        // search the kernel does, and it keeps a file's blocks near each other.
        let mut step: u32 = 0;
        while step < groups
            invariant
                step <= groups,
                groups == geo.groups(),
                geo == self@.geometry,
                self@.valid(),
                *self == *old(self),
                start < groups,
                from <= geo.block_count(start as int),
                old(self)@.spot_near(goal as int) == self@.block_spot(
                    start as int,
                    from as int,
                    step as int,
                ),
            decreases groups - step,
        {
            let group: u32 = wrapped(start, step, groups);
            proof {
                geo.lemma_group(group as int);
            }
            let count: u64 = geo.group_block_count(group);
            let near: u64 = if step == 0 {
                from
            } else {
                0
            };
            let found: Option<u64> = match &self.cache.block[group as usize] {
                Some(map) => {
                    assert(self@.block[group as int] == Some(map@));
                    find_clear(map, near, count)
                },
                None => {
                    assert(self@.block[group as int] is None);
                    return Ok(Got::Unread(group));
                },
            };
            match found {
                Some(i) => {
                    let first: u64 = geo.group_first_block(group);
                    self.mark_block(group, i, true);
                    // The group descriptor and the superblock both count free
                    // blocks, and both have to move.
                    let mut desc: GroupDesc = self.groups[group as usize];
                    desc.free_blocks_count = desc.free_blocks_count.saturating_sub(1);
                    // Once a block is written into a group, its bitmap is real.
                    desc.flags = desc.flags & !BLOCK_UNINIT;
                    self.groups.set(group as usize, desc);
                    self.free_blocks = self.free_blocks.saturating_sub(1);
                    proof {
                        assert(self@ =~= old(self)@.with_block(group as int, i as int));
                    }
                    return Ok(Got::Done(first + i));
                },
                None => {},
            }
            step += 1;
        }
        Err(Error::NoSpace)
    }
}

/// What allocating one block after another comes to.
pub enum Run {
    /// All of them were found.
    Done,
    /// The search for the next one needs the bitmap of this group.
    Unread(int),
    /// There is no next one.
    Full,
}

/// Allocating until there are `count` blocks, each looked for right behind the
/// one before: the blocks, what becomes of the allocator, and how it ended.
pub open spec fn allocated(
    a: AllocView,
    goal: int,
    blocks: Seq<u64>,
    count: int,
) -> (AllocView, Seq<u64>, Run)
    decreases count - blocks.len(),
{
    if blocks.len() >= count {
        (a, blocks, Run::Done)
    } else {
        let near = if blocks.len() > 0 {
            blocks.last() + 1
        } else {
            goal
        };
        match a.spot_near(near) {
            Spot::Full => (a, blocks, Run::Full),
            Spot::Unread(g) => (a, blocks, Run::Unread(g)),
            Spot::At(g, i) => allocated(
                a.with_block(g, i),
                goal,
                blocks.push((a.geometry.first_block(g) + i) as u64),
                count,
            ),
        }
    }
}

/// Whether inode `inum` is in the filesystem.
pub open spec fn is_inode(geo: Geometry, inum: int) -> bool {
    0 < inum <= geo.inodes_count
}

impl Allocator {
    /// Allocate blocks, near `goal` where possible, until `blocks` holds
    /// `count`. `Unread` leaves the ones found so far in `blocks`, to go on
    /// from.
    pub fn alloc_blocks(&mut self, goal: u64, count: u64, blocks: &mut Vec<u64>) -> (r: Result<
        Got<()>,
    >)
        requires
            old(self)@.valid(),
            forall|i: int|
                0 <= i < old(blocks)@.len() ==> #[trigger] old(blocks)@[i] < u64::MAX,
        ensures
            final(self)@.valid(),
            forall|i: int|
                0 <= i < final(blocks)@.len() ==> #[trigger] final(blocks)@[i] < u64::MAX,
            ({
                let (a, bs, run) = allocated(
                    old(self)@,
                    goal as int,
                    old(blocks)@,
                    count as int,
                );
                &&& final(self)@ == a
                &&& final(blocks)@ == bs
                &&& match r {
                    Ok(Got::Done(_)) => run is Done,
                    Ok(Got::Unread(g)) => run == Run::Unread(g as int) && g < a.geometry.groups(),
                    Err(e) => run is Full && e is NoSpace,
                }
            }),
    {
        while (blocks.len() as u64) < count
            invariant
                self@.valid(),
                forall|i: int| 0 <= i < blocks@.len() ==> #[trigger] blocks@[i] < u64::MAX,
                allocated(old(self)@, goal as int, old(blocks)@, count as int) == allocated(
                    self@,
                    goal as int,
                    blocks@,
                    count as int,
                ),
            decreases count - blocks@.len(),
        {
            let near: u64 = if blocks.len() > 0 {
                blocks[blocks.len() - 1] + 1
            } else {
                goal
            };
            match self.alloc_block(near) {
                Ok(Got::Done(b)) => {
                    blocks.push(b);
                },
                Ok(Got::Unread(g)) => {
                    return Ok(Got::Unread(g));
                },
                Err(e) => {
                    return Err(e);
                },
            }
        }
        Ok(Got::Done(()))
    }

    /// Give a block back. One outside the filesystem, or free already, is
    /// left alone: freeing twice would corrupt the counters.
    pub fn free_block(&mut self, block: u64) -> (r: Got<()>)
        requires
            old(self)@.valid(),
            old(self)@.uses_block(block as int) ==> {
                &&& old(self)@.groups[old(self)@.geometry.group_of(
                    block as int,
                )].free_blocks_count < u32::MAX
                &&& old(self)@.free_blocks < u64::MAX
            },
        ensures
            final(self)@.valid(),
            ({
                let a = old(self)@;
                let g = a.geometry.group_of(block as int);
                let i = block - a.geometry.first_block(g);
                match r {
                    Got::Done(_) => if !a.geometry.holds(block as int) {
                        final(self)@ == a
                    } else {
                        &&& a.block[g] is Some
                        &&& final(self)@ == (if bitmap::bit(a.block[g]->0, i) {
                            a.without_block(g, i)
                        } else {
                            a
                        })
                    },
                    Got::Unread(group) => {
                        &&& a.geometry.holds(block as int)
                        &&& g == group
                        &&& group < a.geometry.groups()
                        &&& a.block[g] is None
                        &&& final(self)@ == a
                    },
                }
            }),
    {
        let geo: Geometry = self.geometry;
        if block < geo.first_data_block as u64 || block >= geo.blocks_count {
            return Got::Done(());
        }
        proof {
            geo.lemma_block(block as int);
        }
        let group: u32 = geo.group_of_block(block);
        let index: u64 = block - geo.group_first_block(group);
        let used: bool = match &self.cache.block[group as usize] {
            Some(map) => {
                assert(self@.block[group as int] == Some(map@));
                test_bit(map, index)
            },
            None => {
                assert(self@.block[group as int] is None);
                return Got::Unread(group);
            },
        };
        if !used {
            return Got::Done(());
        }
        self.mark_block(group, index, false);
        let mut desc: GroupDesc = self.groups[group as usize];
        desc.free_blocks_count = desc.free_blocks_count + 1;
        self.groups.set(group as usize, desc);
        self.free_blocks = self.free_blocks + 1;
        assert(self@ =~= old(self)@.without_block(group as int, index as int));
        Got::Done(())
    }

    /// The first free inode of a group that is not reserved.
    fn find_inode(&self, group: u32, map: &Vec<u8>) -> (r: Option<u32>)
        requires
            self@.valid(),
            group < self@.geometry.groups(),
            self@.geometry.inodes_per_group <= 8 * map@.len(),
        ensures
            match r {
                Some(i) => self@.free_inode_from(map@, group as int, 0) == Some(i as int) && i
                    < self@.geometry.inodes_per_group,
                None => self@.free_inode_from(map@, group as int, 0) is None,
            },
    {
        let geo: Geometry = self.geometry;
        let ipg: u32 = geo.inodes_per_group;
        proof {
            let n = geo.groups();
            assert(group * ipg + ipg <= n * ipg) by (nonlinear_arith)
                requires
                    group + 1 <= n,
                    ipg >= 0,
            ;
            assert(0 <= group * ipg) by (nonlinear_arith);
        }
        let base: u32 = group * ipg;
        let mut i: u32 = 0;
        while i < ipg
            invariant
                i <= ipg,
                geo == self@.geometry,
                ipg == geo.inodes_per_group,
                base == group * ipg,
                base + ipg <= u32::MAX,
                ipg <= 8 * map@.len(),
                self@.free_inode_from(map@, group as int, 0) == self@.free_inode_from(
                    map@,
                    group as int,
                    i as int,
                ),
            decreases ipg - i,
        {
            let inum: u32 = base + i + 1;
            if inum > geo.inodes_count {
                return None;
            }
            // Never hand out a reserved inode.
            if inum >= geo.first_ino && !test_bit(map, i as u64) {
                return Some(i);
            }
            i += 1;
        }
        None
    }

    /// Allocate an inode. `is_dir` keeps the directory tally straight.
    pub fn alloc_inode(&mut self, near: u32, is_dir: bool) -> (r: Result<Got<u32>>)
        requires
            old(self)@.valid(),
            is_dir ==> forall|g: int|
                0 <= g < old(self)@.groups.len() ==> (#[trigger] old(
                    self,
                )@.groups[g]).used_dirs_count < u32::MAX,
        ensures
            final(self)@.valid(),
            ({
                let a = old(self)@;
                let spot = a.inode_spot(a.inode_start(near as int), 0);
                match r {
                    Ok(Got::Done(inum)) => spot matches Spot::At(g, i) && inum == a.inode_number(
                        g,
                        i,
                    ) && final(self)@ == a.with_inode(g, i, is_dir),
                    Ok(Got::Unread(g)) => spot == Spot::Unread(g as int) && g < a.geometry.groups()
                        && final(self)@ == a,
                    Err(e) => e is NoInodes && spot is Full && final(self)@ == a,
                }
            }),
    {
        let geo: Geometry = self.geometry;
        let groups: u32 = geo.group_count();
        let ipg: u32 = geo.inodes_per_group;
        let start: u32 = if near > 0 && near <= geo.inodes_count {
            (near - 1) / ipg
        } else {
            0
        };
        let mut step: u32 = 0;
        while step < groups
            invariant
                step <= groups,
                groups == geo.groups(),
                geo == self@.geometry,
                ipg == geo.inodes_per_group,
                self@.valid(),
                *self == *old(self),
                start == old(self)@.inode_start(near as int),
                is_dir ==> forall|g: int|
                    0 <= g < old(self)@.groups.len() ==> (#[trigger] old(
                        self,
                    )@.groups[g]).used_dirs_count < u32::MAX,
                old(self)@.inode_spot(start as int, 0) == self@.inode_spot(
                    start as int,
                    step as int,
                ),
            decreases groups - step,
        {
            let group: u32 = wrapped(start, step, groups);
            let found: Option<u32> = match &self.cache.inode[group as usize] {
                Some(map) => {
                    assert(self@.inode[group as int] == Some(map@));
                    self.find_inode(group, map)
                },
                None => {
                    assert(self@.inode[group as int] is None);
                    return Ok(Got::Unread(group));
                },
            };
            match found {
                Some(index) => {
                    proof {
                        let n = geo.groups();
                        assert(group * ipg + ipg <= n * ipg) by (nonlinear_arith)
                            requires
                                group + 1 <= n,
                                ipg >= 0,
                        ;
                        assert(0 <= group * ipg) by (nonlinear_arith);
                    }
                    let inum: u32 = group * ipg + index + 1;
                    self.mark_inode(group, index as u64, true);
                    let mut desc: GroupDesc = self.groups[group as usize];
                    desc.free_inodes_count = desc.free_inodes_count.saturating_sub(1);
                    if is_dir {
                        desc.used_dirs_count = desc.used_dirs_count + 1;
                    }
                    desc.flags = desc.flags & !INODE_UNINIT;
                    // itable_unused counts never-used inodes at the tail of the
                    // table. Handing one out from within that tail shortens it.
                    let tail: u32 = ipg - (index + 1);
                    if desc.itable_unused > tail {
                        desc.itable_unused = tail;
                    }
                    self.groups.set(group as usize, desc);
                    self.free_inodes = self.free_inodes.saturating_sub(1);
                    assert(self@ =~= old(self)@.with_inode(group as int, index as int, is_dir));
                    return Ok(Got::Done(inum));
                },
                None => {},
            }
            step += 1;
        }
        Err(Error::NoInodes)
    }

    /// Give an inode back. One outside the filesystem, or free already, is
    /// left alone.
    pub fn free_inode(&mut self, inum: u32, was_dir: bool) -> (r: Got<()>)
        requires
            old(self)@.valid(),
            old(self)@.uses_inode(inum as int) ==> {
                &&& old(self)@.groups[(inum - 1) / old(
                    self,
                )@.geometry.inodes_per_group as int].free_inodes_count < u32::MAX
                &&& old(self)@.free_inodes < u32::MAX
            },
        ensures
            final(self)@.valid(),
            ({
                let a = old(self)@;
                let g = (inum - 1) / a.geometry.inodes_per_group as int;
                let i = (inum - 1) % a.geometry.inodes_per_group as int;
                match r {
                    Got::Done(_) => if !is_inode(a.geometry, inum as int) {
                        final(self)@ == a
                    } else {
                        &&& a.inode[g] is Some
                        &&& final(self)@ == (if bitmap::bit(a.inode[g]->0, i) {
                            a.without_inode(g, i, was_dir)
                        } else {
                            a
                        })
                    },
                    Got::Unread(group) => {
                        &&& is_inode(a.geometry, inum as int)
                        &&& g == group
                        &&& group < a.geometry.groups()
                        &&& a.inode[g] is None
                        &&& final(self)@ == a
                    },
                }
            }),
    {
        let geo: Geometry = self.geometry;
        if inum == 0 || inum > geo.inodes_count {
            return Got::Done(());
        }
        let ipg: u32 = geo.inodes_per_group;
        let group: u32 = (inum - 1) / ipg;
        let index: u32 = (inum - 1) % ipg;
        proof {
            let n = geo.groups();
            let m = (inum - 1) as int;
            assert(m / (ipg as int) < n) by (nonlinear_arith)
                requires
                    0 <= m < n * ipg,
                    ipg > 0,
            ;
        }
        let used: bool = match &self.cache.inode[group as usize] {
            Some(map) => {
                assert(self@.inode[group as int] == Some(map@));
                test_bit(map, index as u64)
            },
            None => {
                assert(self@.inode[group as int] is None);
                return Got::Unread(group);
            },
        };
        if !used {
            return Got::Done(());
        }
        self.mark_inode(group, index as u64, false);
        let mut desc: GroupDesc = self.groups[group as usize];
        desc.free_inodes_count = desc.free_inodes_count + 1;
        if was_dir {
            desc.used_dirs_count = desc.used_dirs_count.saturating_sub(1);
        }
        self.groups.set(group as usize, desc);
        self.free_inodes = self.free_inodes + 1;
        assert(self@ =~= old(self)@.without_inode(group as int, index as int, was_dir));
        Got::Done(())
    }
}

/// Bytes enough for `n` bits.
pub open spec fn bytes_for(n: u32) -> nat {
    ((n + 7) / 8) as nat
}

/// The bitmaps among the first `n` groups that have been read and changed, in
/// the order of their groups.
pub open spec fn changed(
    maps: Seq<Option<Seq<u8>>>,
    dirty: Seq<bool>,
    covered: nat,
    n: nat,
) -> Seq<(int, Seq<u8>, nat)>
    decreases n,
{
    if n == 0 {
        Seq::empty()
    } else {
        let before = changed(maps, dirty, covered, (n - 1) as nat);
        match maps[n - 1] {
            Some(map) => if dirty[n - 1] {
                before.push((n - 1, map, covered))
            } else {
                before
            },
            None => before,
        }
    }
}

/// Bitmaps to write back as the contracts speak of them.
pub open spec fn dirty_view(list: Seq<DirtyBitmap>) -> Seq<(int, Seq<u8>, nat)> {
    list.map_values(|d: DirtyBitmap| (d.group as int, d.bitmap@, d.covered as nat))
}

/// Collect the bitmaps that have been read and changed.
fn collect_dirty(maps: &Vec<Option<Vec<u8>>>, dirty: &Vec<bool>, per_group: u32) -> (out: Vec<
    DirtyBitmap,
>)
    requires
        maps@.len() == dirty@.len(),
        maps@.len() <= u32::MAX,
    ensures
        dirty_view(out@) == changed(
            maps_view(maps@),
            dirty@,
            bytes_for(per_group),
            maps@.len(),
        ),
{
    let mut out: Vec<DirtyBitmap> = Vec::new();
    let covered: usize = ((per_group as u64 + 7) / 8) as usize;
    let mut g: usize = 0;
    assert(dirty_view(out@) =~= Seq::empty());
    while g < maps.len()
        invariant
            g <= maps@.len(),
            maps@.len() == dirty@.len(),
            maps@.len() <= u32::MAX,
            covered == bytes_for(per_group),
            dirty_view(out@) == changed(
                maps_view(maps@),
                dirty@,
                bytes_for(per_group),
                g as nat,
            ),
        decreases maps.len() - g,
    {
        let ghost was = out@;
        match &maps[g] {
            Some(map) => {
                assert(maps_view(maps@)[g as int] == Some(map@));
                if dirty[g] {
                    let bitmap: Vec<u8> = crate::bytes::copy(map.as_slice());
                    out.push(DirtyBitmap { group: g as u32, bitmap, covered });
                    assert(dirty_view(out@) =~= dirty_view(was).push(
                        (g as int, map@, covered as nat),
                    ));
                }
            },
            None => {
                assert(maps_view(maps@)[g as int] is None);
            },
        }
        g += 1;
    }
    out
}

impl Allocator {
    /// The bitmaps to write back: those of blocks, then those of inodes. The
    /// checksum of each is to be taken over its covered bytes.
    pub fn flush(&self) -> (r: (Vec<DirtyBitmap>, Vec<DirtyBitmap>))
        requires
            self@.valid(),
        ensures
            ({
                let a = self@;
                let n = a.groups.len();
                &&& dirty_view(r.0@) == changed(
                    a.block,
                    a.dirty_block,
                    bytes_for(a.geometry.blocks_per_group),
                    n,
                )
                &&& dirty_view(r.1@) == changed(
                    a.inode,
                    a.dirty_inode,
                    bytes_for(a.geometry.inodes_per_group),
                    n,
                )
            }),
    {
        (
            collect_dirty(
                &self.cache.block,
                &self.cache.dirty_block,
                self.geometry.blocks_per_group,
            ),
            collect_dirty(
                &self.cache.inode,
                &self.cache.dirty_inode,
                self.geometry.inodes_per_group,
            ),
        )
    }

    /// Every bitmap has been written back.
    pub fn flushed(&mut self)
        requires
            old(self)@.valid(),
        ensures
            final(self)@.valid(),
            final(self)@ == old(self)@.written_back(),
    {
        let n: usize = self.groups.len();
        self.cache.dirty_block = vec![false; n];
        self.cache.dirty_inode = vec![false; n];
        assert(self@.dirty_block =~= Seq::new(old(self)@.groups.len(), |i: int| false));
        assert(self@.dirty_inode =~= Seq::new(old(self)@.groups.len(), |i: int| false));
    }
}

} // verus!
