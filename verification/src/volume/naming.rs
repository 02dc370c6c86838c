//! Entering names into directories, and taking them out.

use vstd::prelude::*;

use crate::blockmap::HOLE;
use crate::bytes;
use crate::dir::{self, Found, Room};
use crate::error::{Error, Result};
use crate::text;
use crate::volume::contents;

verus! {

/// Whether a name can stand in a directory.
pub open spec fn good_name(name: Seq<u8>) -> bool {
    &&& 0 < name.len() <= 255
    &&& !name.contains(47u8)
}

/// A name must not be empty, longer than 255 bytes, or hold a separator.
pub fn check_name(name: &[u8]) -> (r: Result<()>)
    ensures
        match r {
            Ok(_) => good_name(name@),
            Err(e) => !good_name(name@) && (e matches Error::InvalidName(m) && m@
                == text::lossy_text(name@)),
        },
{
    if name.len() == 0 || name.len() > dir::NAME_LEN_MAX {
        return Err(Error::InvalidName(text::lossy(name)));
    }
    let mut i: usize = 0;
    while i < name.len()
        invariant
            i <= name@.len(),
            forall|k: int| 0 <= k < i ==> #[trigger] name@[k] != 47u8,
        decreases name.len() - i,
    {
        if name[i] == 47 {
            assert(name@.contains(47u8));
            return Err(Error::InvalidName(text::lossy(name)));
        }
        i += 1;
    }
    Ok(())
}

/// Where a search through the blocks of a directory ends.
pub enum Ends {
    /// At this block of the directory.
    At(int),
    /// At this one, which is malformed.
    Malformed(int),
    /// Behind the last.
    Nowhere,
}

/// Where looking for room in the blocks of a directory ends, from block `at`
/// on: at the first that has room. Holes are passed by.
pub open spec fn room_in(
    list: Seq<u64>,
    disk: Map<u64, Seq<u8>>,
    at: int,
    need: int,
    with_tail: bool,
) -> Ends
    decreases list.len() - at,
{
    if at >= list.len() {
        Ends::Nowhere
    } else if list[at] == HOLE {
        room_in(list, disk, at + 1, need, with_tail)
    } else {
        let block = disk[list[at]];
        match dir::room_from(block, 0, dir::limit_of(block.len(), with_tail), need) {
            Room::At(_, _, _) => Ends::At(at),
            Room::Malformed => Ends::Malformed(at),
            Room::Nowhere => room_in(list, disk, at + 1, need, with_tail),
        }
    }
}

/// Where looking for a name in the blocks of a directory ends, from block `at`
/// on. Holes are passed by.
pub open spec fn name_in(
    list: Seq<u64>,
    disk: Map<u64, Seq<u8>>,
    at: int,
    name: Seq<u8>,
    with_tail: bool,
) -> Ends
    decreases list.len() - at,
{
    if at >= list.len() {
        Ends::Nowhere
    } else if list[at] == HOLE {
        name_in(list, disk, at + 1, name, with_tail)
    } else {
        let block = disk[list[at]];
        match dir::find_from(block, 0, None, dir::limit_of(block.len(), with_tail), name) {
            Found::At(_, _) => Ends::At(at),
            Found::Malformed => Ends::Malformed(at),
            Found::Nowhere => name_in(list, disk, at + 1, name, with_tail),
        }
    }
}

/// The blocks of a directory that a new name may go into: any of a list, but
/// only the first that its hash leads to in a tree.
pub open spec fn blocks_to_try(list: Seq<u64>, indexed: bool) -> Seq<u64> {
    if indexed && list.len() > 1 {
        list.take(1)
    } else {
        list
    }
}

/// What entering a name waits for.
#[derive(Debug, Clone, Copy, PartialEq, Eq, Structural)]
pub enum LinkStep {
    /// What this block holds.
    Read(u64),
    /// The directory's index, rebuilt with the name in it.
    Rebuild,
    /// A block more, near this one.
    Grow(u64),
}

/// A name being entered into a directory.
///
/// Every existing block is tried before the directory grows. In an indexed
/// directory only one is: the leaf that the name's hash leads to.
#[derive(Debug)]
pub struct Linking {
    /// The name.
    pub name: Vec<u8>,
    /// What it is to lead to.
    pub target: u32,
    /// What type of file that is.
    pub file_type: u8,
    /// The blocks to try.
    pub list: Vec<u64>,
    /// The next one of them.
    pub at: usize,
    /// Whether blocks have a checksum at their end.
    pub with_tail: bool,
    /// Whether the directory may become a tree, or is one.
    pub index: bool,
}

impl Linking {
    /// Whether the name can stand in a directory.
    pub open spec fn valid(&self) -> bool {
        &&& self.at <= self.list@.len()
        &&& 0 < self.name@.len() <= 255
    }

    /// Where the search for room ends, given what is on the device.
    pub open spec fn ends(&self, disk: Map<u64, Seq<u8>>) -> Ends {
        room_in(
            self.list@,
            disk,
            self.at as int,
            dir::span(self.name@.len()) as int,
            self.with_tail,
        )
    }

    /// All but how far it got.
    pub open spec fn same_but_place(&self, other: &Linking) -> bool {
        &&& self.name@ == other.name@
        &&& self.target == other.target
        &&& self.file_type == other.file_type
        &&& self.list@ == other.list@
        &&& self.with_tail == other.with_tail
        &&& self.index == other.index
    }

    /// Start entering a name into a directory: into one that is a plain list of
    /// these blocks, and may become a tree; or into one that is a tree, where
    /// these are the blocks that the name's hash leads to, and only the first
    /// of them is tried.
    pub fn new(
        name: &[u8],
        target: u32,
        file_type: u8,
        list: Vec<u64>,
        with_tail: bool,
        indexed: bool,
        may_index: bool,
    ) -> (r: Result<Self>)
        ensures
            match r {
                Ok(l) => {
                    &&& good_name(name@)
                    &&& l.valid()
                    &&& l.name@ == name@
                    &&& l.target == target
                    &&& l.file_type == file_type
                    &&& l.list@ == blocks_to_try(list@, indexed)
                    &&& l.at == 0
                    &&& l.with_tail == with_tail
                    &&& l.index == (indexed || may_index)
                },
                Err(e) => !good_name(name@) && (e matches Error::InvalidName(m) && m@
                    == text::lossy_text(name@)),
            },
    {
        check_name(name)?;
        let mut list: Vec<u64> = list;
        if indexed && list.len() > 1 {
            list.truncate(1);
        }
        Ok(
            Linking {
                name: bytes::copy(name),
                target,
                file_type,
                list,
                at: 0,
                with_tail,
                index: indexed || may_index,
            },
        )
    }

    /// What is to be done next. No room anywhere is, on a filesystem that
    /// allows it, the point at which a directory stops being a list and
    /// becomes a tree.
    pub fn next(&mut self) -> (step: LinkStep)
        requires
            old(self).valid(),
        ensures
            final(self).valid(),
            final(self).same_but_place(old(self)),
            forall|disk: Map<u64, Seq<u8>>| #[trigger]
                final(self).ends(disk) == old(self).ends(disk),
            match step {
                LinkStep::Read(block) => {
                    &&& final(self).at < final(self).list@.len()
                    &&& block == final(self).list@[final(self).at as int]
                    &&& block != HOLE
                },
                LinkStep::Rebuild => {
                    &&& final(self).index
                    &&& forall|disk: Map<u64, Seq<u8>>| #[trigger]
                        old(self).ends(disk) is Nowhere
                },
                LinkStep::Grow(goal) => {
                    &&& !final(self).index
                    &&& goal == contents::last_of(final(self).list@)
                    &&& forall|disk: Map<u64, Seq<u8>>| #[trigger]
                        old(self).ends(disk) is Nowhere
                },
            },
    {
        while self.at < self.list.len() && self.list[self.at] == HOLE
            invariant
                self.valid(),
                self.same_but_place(old(self)),
                forall|disk: Map<u64, Seq<u8>>| #[trigger]
                    self.ends(disk) == old(self).ends(disk),
            decreases self.list@.len() - self.at,
        {
            let ghost was = *self;
            self.at = self.at + 1;
            assert forall|disk: Map<u64, Seq<u8>>| #[trigger] self.ends(disk) == old(self).ends(
                disk,
            ) by {
                assert(was.ends(disk) == old(self).ends(disk));
            }
        }
        if self.at < self.list.len() {
            return LinkStep::Read(self.list[self.at]);
        }
        assert forall|disk: Map<u64, Seq<u8>>| #[trigger] old(self).ends(disk) is Nowhere by {
            assert(self.ends(disk) is Nowhere);
        }
        if self.index {
            LinkStep::Rebuild
        } else {
            LinkStep::Grow(contents::goal_behind(self.list.as_slice()))
        }
    }

    /// Try the block come to, given what it holds. Says whether the name went
    /// in; then the block is to be written.
    pub fn offer(&mut self, block: &mut Vec<u8>) -> (r: Result<bool>)
        requires
            old(self).valid(),
            old(self).at < old(self).list@.len(),
            old(self).list@[old(self).at as int] != HOLE,
            old(self).with_tail ==> old(block)@.len() >= 12,
        ensures
            final(self).valid(),
            final(self).same_but_place(old(self)),
            final(block)@.len() == old(block)@.len(),
            !(r matches Ok(true)) ==> final(block)@ == old(block)@,
            r matches Ok(true) ==> {
                let need = dir::span(old(self).name@.len()) as int;
                let limit = dir::limit_of(old(block)@.len(), old(self).with_tail);
                &&& dir::room_from(old(block)@, 0, limit, need) matches Room::At(at, in_use, slack)
                &&& final(block)@ == dir::with_entry(
                    old(block)@,
                    at,
                    in_use,
                    slack,
                    old(self).target,
                    old(self).name@,
                    old(self).file_type,
                )
            },
            forall|disk: Map<u64, Seq<u8>>|
                disk[old(self).list@[old(self).at as int]] == old(block)@ ==> match r {
                    Ok(true) => #[trigger] old(self).ends(disk) == Ends::At(old(self).at as int),
                    Ok(false) => old(self).ends(disk) == final(self).ends(disk) && final(self).at
                        == old(self).at + 1,
                    Err(e) => old(self).ends(disk) == Ends::Malformed(old(self).at as int) && (
                    e matches Error::Fs(m) && m@ == dir::bad_entry()),
                },
    {
        let placed: bool = dir::insert_into_block(
            block,
            self.with_tail,
            self.target,
            self.name.as_slice(),
            self.file_type,
        )?;
        if !placed {
            assert(self.list.len() == self.list@.len());
            self.at = self.at + 1;
        }
        Ok(placed)
    }

    /// A new block for the directory, with the name in it.
    pub fn fresh_block(&self, block_size: usize) -> (r: Result<Vec<u8>>)
        requires
            self.valid(),
            block_size >= 64,
            dir::limit_of(block_size as nat, self.with_tail) <= u16::MAX,
        ensures
            ({
                let empty = dir::empty_bytes(block_size as nat, self.with_tail);
                let limit = dir::limit_of(block_size as nat, self.with_tail);
                let room = dir::room_from(empty, 0, limit, dir::span(self.name@.len()) as int);
                match r {
                    Ok(block) => room matches Room::At(at, in_use, slack) && block@
                        == dir::with_entry(
                        empty,
                        at,
                        in_use,
                        slack,
                        self.target,
                        self.name@,
                        self.file_type,
                    ),
                    Err(e) => match room {
                        Room::Nowhere => e matches Error::InvalidName(m) && m@
                            == "name does not fit in an empty directory block"@,
                        Room::Malformed => e matches Error::Fs(m) && m@ == dir::bad_entry(),
                        Room::At(_, _, _) => false,
                    },
                }
            }),
    {
        let mut block: Vec<u8> = dir::empty_block(block_size, self.with_tail);
        if dir::insert_into_block(
            &mut block,
            self.with_tail,
            self.target,
            self.name.as_slice(),
            self.file_type,
        )? {
            Ok(block)
        } else {
            Err(
                Error::InvalidName("name does not fit in an empty directory block".to_owned()),
            )
        }
    }
}

/// A name being taken out of a directory.
#[derive(Debug)]
pub struct Unlinking {
    /// The name.
    pub name: Vec<u8>,
    /// The blocks it may be in.
    pub list: Vec<u64>,
    /// The next one of them.
    pub at: usize,
    /// Whether blocks have a checksum at their end.
    pub with_tail: bool,
}

impl Unlinking {
    /// Where the search for the name ends, given what is on the device.
    pub open spec fn ends(&self, disk: Map<u64, Seq<u8>>) -> Ends {
        name_in(self.list@, disk, self.at as int, self.name@, self.with_tail)
    }

    /// All but how far it got.
    pub open spec fn same_but_place(&self, other: &Unlinking) -> bool {
        &&& self.name@ == other.name@
        &&& self.list@ == other.list@
        &&& self.with_tail == other.with_tail
    }

    /// Start taking out a name.
    pub fn new(name: &[u8], list: Vec<u64>, with_tail: bool) -> (r: Self)
        ensures
            r.name@ == name@,
            r.list == list,
            r.at == 0,
            r.with_tail == with_tail,
    {
        Unlinking { name: bytes::copy(name), list, at: 0, with_tail }
    }

    /// The block to look at next.
    pub fn next(&mut self) -> (r: Result<u64>)
        requires
            old(self).at <= old(self).list@.len(),
        ensures
            final(self).at <= final(self).list@.len(),
            final(self).same_but_place(old(self)),
            forall|disk: Map<u64, Seq<u8>>| #[trigger]
                final(self).ends(disk) == old(self).ends(disk),
            match r {
                Ok(block) => {
                    &&& final(self).at < final(self).list@.len()
                    &&& block == final(self).list@[final(self).at as int]
                    &&& block != HOLE
                },
                Err(e) => {
                    &&& e matches Error::NotFound(m)
                    &&& m@ == text::lossy_text(old(self).name@)
                    &&& forall|disk: Map<u64, Seq<u8>>| #[trigger]
                        old(self).ends(disk) is Nowhere
                },
            },
    {
        while self.at < self.list.len() && self.list[self.at] == HOLE
            invariant
                self.at <= self.list@.len(),
                self.same_but_place(old(self)),
                forall|disk: Map<u64, Seq<u8>>| #[trigger]
                    self.ends(disk) == old(self).ends(disk),
            decreases self.list@.len() - self.at,
        {
            let ghost was = *self;
            self.at = self.at + 1;
            assert forall|disk: Map<u64, Seq<u8>>| #[trigger] self.ends(disk) == old(self).ends(
                disk,
            ) by {
                assert(was.ends(disk) == old(self).ends(disk));
            }
        }
        if self.at < self.list.len() {
            return Ok(self.list[self.at]);
        }
        assert forall|disk: Map<u64, Seq<u8>>| #[trigger] old(self).ends(disk) is Nowhere by {
            assert(self.ends(disk) is Nowhere);
        }
        Err(Error::NotFound(text::lossy(self.name.as_slice())))
    }

    /// Look at the block come to, given what it holds. Gives what the name led
    /// to if it was there; then the block is to be written.
    pub fn offer(&mut self, block: &mut Vec<u8>) -> (r: Result<Option<u32>>)
        requires
            old(self).at < old(self).list@.len(),
            old(self).list@[old(self).at as int] != HOLE,
            old(self).with_tail ==> old(block)@.len() >= 12,
            dir::limit_of(old(block)@.len(), old(self).with_tail) <= u16::MAX,
        ensures
            final(self).at <= final(self).list@.len(),
            final(self).same_but_place(old(self)),
            final(block)@.len() == old(block)@.len(),
            !(r matches Ok(Some(_))) ==> final(block)@ == old(block)@,
            r matches Ok(Some(inum)) ==> {
                let limit = dir::limit_of(old(block)@.len(), old(self).with_tail);
                &&& dir::find_from(old(block)@, 0, None, limit, old(self).name@) matches Found::At(
                    at,
                    prev,
                )
                &&& inum == dir::record_at(old(block)@, at).inode
                &&& final(block)@ == dir::without_entry(old(block)@, at, prev)
            },
            forall|disk: Map<u64, Seq<u8>>|
                disk[old(self).list@[old(self).at as int]] == old(block)@ ==> match r {
                    Ok(Some(_)) => #[trigger] old(self).ends(disk) == Ends::At(
                        old(self).at as int,
                    ),
                    Ok(None) => old(self).ends(disk) == final(self).ends(disk) && final(self).at
                        == old(self).at + 1,
                    Err(e) => old(self).ends(disk) == Ends::Malformed(old(self).at as int) && (
                    e matches Error::Fs(m) && m@ == dir::bad_entry()),
                },
    {
        let found: Option<u32> = dir::remove_from_block(
            block,
            self.with_tail,
            self.name.as_slice(),
        )?;
        if found.is_none() {
            assert(self.list.len() == self.list@.len());
            self.at = self.at + 1;
        }
        Ok(found)
    }
}

/// Where looking for `..` in the blocks of a directory ends, from block `at`
/// on. Holes are passed by.
pub open spec fn dotdot_in(
    list: Seq<u64>,
    disk: Map<u64, Seq<u8>>,
    at: int,
    with_tail: bool,
) -> Ends
    decreases list.len() - at,
{
    if at >= list.len() {
        Ends::Nowhere
    } else if list[at] == HOLE {
        dotdot_in(list, disk, at + 1, with_tail)
    } else {
        let block = disk[list[at]];
        match dir::dotdot_from(block, 0, dir::limit_of(block.len(), with_tail)) {
            Found::At(_, _) => Ends::At(at),
            Found::Malformed => Ends::Malformed(at),
            Found::Nowhere => dotdot_in(list, disk, at + 1, with_tail),
        }
    }
}

/// A directory's `..` being pointed at another parent.
#[derive(Debug)]
pub struct Repointing {
    /// The parent.
    pub parent: u32,
    /// The directory's blocks.
    pub list: Vec<u64>,
    /// The next one of them.
    pub at: usize,
    /// Whether blocks have a checksum at their end.
    pub with_tail: bool,
}

impl Repointing {
    /// Where the search for `..` ends, given what is on the device.
    pub open spec fn ends(&self, disk: Map<u64, Seq<u8>>) -> Ends {
        dotdot_in(self.list@, disk, self.at as int, self.with_tail)
    }

    /// All but how far it got.
    pub open spec fn same_but_place(&self, other: &Repointing) -> bool {
        &&& self.parent == other.parent
        &&& self.list@ == other.list@
        &&& self.with_tail == other.with_tail
    }

    /// Start pointing `..` elsewhere.
    pub fn new(parent: u32, list: Vec<u64>, with_tail: bool) -> (r: Self)
        ensures
            r.parent == parent,
            r.list == list,
            r.at == 0,
            r.with_tail == with_tail,
    {
        Repointing { parent, list, at: 0, with_tail }
    }

    /// The block to look at next; none, if the directory has no `..`.
    pub fn next(&mut self) -> (r: Option<u64>)
        requires
            old(self).at <= old(self).list@.len(),
        ensures
            final(self).at <= final(self).list@.len(),
            final(self).same_but_place(old(self)),
            forall|disk: Map<u64, Seq<u8>>| #[trigger]
                final(self).ends(disk) == old(self).ends(disk),
            match r {
                Some(block) => {
                    &&& final(self).at < final(self).list@.len()
                    &&& block == final(self).list@[final(self).at as int]
                    &&& block != HOLE
                },
                None => forall|disk: Map<u64, Seq<u8>>| #[trigger]
                    old(self).ends(disk) is Nowhere,
            },
    {
        while self.at < self.list.len() && self.list[self.at] == HOLE
            invariant
                self.at <= self.list@.len(),
                self.same_but_place(old(self)),
                forall|disk: Map<u64, Seq<u8>>| #[trigger]
                    self.ends(disk) == old(self).ends(disk),
            decreases self.list@.len() - self.at,
        {
            let ghost was = *self;
            self.at = self.at + 1;
            assert forall|disk: Map<u64, Seq<u8>>| #[trigger] self.ends(disk) == old(self).ends(
                disk,
            ) by {
                assert(was.ends(disk) == old(self).ends(disk));
            }
        }
        if self.at < self.list.len() {
            return Some(self.list[self.at]);
        }
        assert forall|disk: Map<u64, Seq<u8>>| #[trigger] old(self).ends(disk) is Nowhere by {
            assert(self.ends(disk) is Nowhere);
        }
        None
    }

    /// Look at the block come to, given what it holds. Says whether `..` was
    /// there; then the block is to be written.
    pub fn offer(&mut self, block: &mut Vec<u8>) -> (r: Result<bool>)
        requires
            old(self).at < old(self).list@.len(),
            old(self).list@[old(self).at as int] != HOLE,
            old(self).with_tail ==> old(block)@.len() >= 12,
        ensures
            final(self).at <= final(self).list@.len(),
            final(self).same_but_place(old(self)),
            final(block)@.len() == old(block)@.len(),
            !(r matches Ok(true)) ==> final(block)@ == old(block)@,
            r matches Ok(true) ==> {
                let limit = dir::limit_of(old(block)@.len(), old(self).with_tail);
                &&& dir::dotdot_from(old(block)@, 0, limit) matches Found::At(at, _)
                &&& final(block)@ == bytes::overlay(
                    old(block)@,
                    at,
                    bytes::le32(old(self).parent),
                )
            },
            forall|disk: Map<u64, Seq<u8>>|
                disk[old(self).list@[old(self).at as int]] == old(block)@ ==> match r {
                    Ok(true) => #[trigger] old(self).ends(disk) == Ends::At(old(self).at as int),
                    Ok(false) => old(self).ends(disk) == final(self).ends(disk) && final(self).at
                        == old(self).at + 1,
                    Err(e) => old(self).ends(disk) == Ends::Malformed(old(self).at as int) && (
                    e matches Error::Fs(m) && m@ == dir::bad_entry()),
                },
    {
        let found: bool = dir::repoint_dotdot(block, self.with_tail, self.parent)?;
        if !found {
            assert(self.list.len() == self.list@.len());
            self.at = self.at + 1;
        }
        Ok(found)
    }
}

} // verus!
