//! What each operation on names checks, and what it changes, in order.
//!
//! An operation finds out what it needs to know — which inode a path leads to,
//! what that inode holds — and decides here. What it decides is a list of
//! changes, to be made one after the other.

use vstd::prelude::*;

use crate::allocator::{Allocator, Got, Spot};
use crate::dir::{self, DirEntry};
use crate::error::{Error, Result};
use crate::index;
use crate::text;
use crate::volume::inode::{Area, Edit, Inode, ROOT};
use crate::volume::links::{self, Target};
use crate::volume::naming;
use crate::volume::types::{Attrs, Entry, Special};

verus! {

/// What a filesystem is like, as far as changing it goes.
#[derive(Debug, Clone, Copy, PartialEq, Eq, Structural)]
pub struct Features {
    /// Bytes in a block.
    pub block_size: u32,
    /// Whether inodes map their blocks with extents.
    pub extents: bool,
    /// Whether metadata is checksummed, so that a directory block has a
    /// checksum at its end.
    pub metadata_csum: bool,
    /// Whether directory entries record what type of file they name.
    pub filetype: bool,
    /// Whether directories may be indexed.
    pub dir_index: bool,
}

impl Features {
    /// Whether directory blocks can be laid out.
    pub open spec fn valid(self) -> bool {
        &&& 64 <= self.block_size
        &&& dir::limit_of(self.block_size as nat, self.metadata_csum) <= u16::MAX
    }

    /// Whether directory blocks can be laid out.
    pub fn is_valid(&self) -> (r: bool)
        ensures
            r == self.valid(),
    {
        self.block_size >= 64 && self.block_size - (if self.metadata_csum {
            12u32
        } else {
            0u32
        }) <= 65535
    }
}

/// An open filesystem that can be read and written: what is kept of it in
/// memory.
pub struct Volume {
    /// What is free.
    pub alloc: Allocator,
    /// What the filesystem is like.
    pub features: Features,
    /// The time stamped onto new and modified files.
    pub now: u32,
}

impl Volume {
    /// An open filesystem.
    pub fn new(alloc: Allocator, features: Features, now: u32) -> (r: Self)
        ensures
            r.alloc == alloc,
            r.features == features,
            r.now == now,
    {
        Volume { alloc, features, now }
    }

    /// Fix the timestamp stamped onto new and modified files, which makes what
    /// is built reproducible.
    pub fn set_time(&mut self, secs: u32)
        ensures
            final(self).now == secs,
            final(self).features == old(self).features,
            final(self).alloc == old(self).alloc,
    {
        self.now = secs;
    }
}

/// One change to a filesystem.
#[derive(Debug)]
pub enum Change {
    /// Write the first block of a directory.
    WriteDirectory {
        /// The directory.
        inum: u32,
        /// What its `..` names.
        parent: u32,
        /// The block.
        block: u64,
        /// What the block is to hold.
        contents: Vec<u8>,
    },
    /// Write a block of contents.
    WriteBlock {
        /// The block.
        block: u64,
        /// What it is to hold.
        contents: Vec<u8>,
    },
    /// Write a new inode.
    Put {
        /// Its number.
        inum: u32,
        /// Its fields.
        inode: Inode,
        /// What goes where its block map would.
        area: Area,
    },
    /// Change an inode.
    Edit {
        /// Its number.
        inum: u32,
        /// The change.
        edit: Edit,
    },
    /// Enter a name into a directory.
    Enter {
        /// The directory.
        dir: u32,
        /// The name.
        name: Vec<u8>,
        /// What it names.
        target: u32,
    },
    /// Take a name out of a directory.
    Leave {
        /// The directory.
        dir: u32,
        /// The name.
        name: Vec<u8>,
    },
    /// Point a directory's `..` at another parent.
    Repoint {
        /// The directory.
        dir: u32,
        /// The parent.
        parent: u32,
    },
    /// Give back the blocks of an inode and leave it empty.
    Empty {
        /// Its number.
        inum: u32,
    },
    /// Give back the block that holds an inode's attributes.
    DropAttributes {
        /// Its number.
        inum: u32,
    },
    /// Give back an inode.
    Free {
        /// Its number.
        inum: u32,
        /// Whether it was a directory's.
        was_dir: bool,
    },
}

/// What goes where an inode's block map would, as the contracts speak of it.
pub enum AreaView {
    Zeroes,
    EmptyTree,
    Bytes(Seq<u8>),
    Device(u32, u32),
    Blocks(Seq<u64>),
}

impl View for Area {
    type V = AreaView;

    open spec fn view(&self) -> AreaView {
        match self {
            Area::Zeroes => AreaView::Zeroes,
            Area::EmptyTree => AreaView::EmptyTree,
            Area::Bytes(s) => AreaView::Bytes(s@),
            Area::Device(major, minor) => AreaView::Device(*major, *minor),
            Area::Blocks(list) => AreaView::Blocks(list@),
        }
    }
}

/// A change as the contracts speak of it.
pub enum ChangeView {
    WriteDirectory { inum: u32, parent: u32, block: u64, contents: Seq<u8> },
    WriteBlock { block: u64, contents: Seq<u8> },
    Put { inum: u32, inode: Inode, area: AreaView },
    Edit { inum: u32, edit: Edit },
    Enter { dir: u32, name: Seq<u8>, target: u32 },
    Leave { dir: u32, name: Seq<u8> },
    Repoint { dir: u32, parent: u32 },
    Empty { inum: u32 },
    DropAttributes { inum: u32 },
    Free { inum: u32, was_dir: bool },
}

impl View for Change {
    type V = ChangeView;

    open spec fn view(&self) -> ChangeView {
        match self {
            Change::WriteDirectory { inum, parent, block, contents } => ChangeView::WriteDirectory {
                inum: *inum,
                parent: *parent,
                block: *block,
                contents: contents@,
            },
            Change::WriteBlock { block, contents } => ChangeView::WriteBlock {
                block: *block,
                contents: contents@,
            },
            Change::Put { inum, inode, area } => ChangeView::Put {
                inum: *inum,
                inode: *inode,
                area: area@,
            },
            Change::Edit { inum, edit } => ChangeView::Edit { inum: *inum, edit: *edit },
            Change::Enter { dir, name, target } => ChangeView::Enter {
                dir: *dir,
                name: name@,
                target: *target,
            },
            Change::Leave { dir, name } => ChangeView::Leave { dir: *dir, name: name@ },
            Change::Repoint { dir, parent } => ChangeView::Repoint { dir: *dir, parent: *parent },
            Change::Empty { inum } => ChangeView::Empty { inum: *inum },
            Change::DropAttributes { inum } => ChangeView::DropAttributes { inum: *inum },
            Change::Free { inum, was_dir } => ChangeView::Free { inum: *inum, was_dir: *was_dir },
        }
    }
}

/// Changes as the contracts speak of them.
pub open spec fn changes(list: Seq<Change>) -> Seq<ChangeView> {
    list.map_values(|c: Change| c@)
}

impl Volume {
    /// The inode a path leads to.
    pub fn lookup(path: &str, found: Option<u32>) -> (r: Result<u32>)
        ensures
            match r {
                Ok(inum) => found == Some(inum),
                Err(e) => found is None && (e matches Error::NotFound(m) && m@ == path@),
            },
    {
        match found {
            Some(inum) => Ok(inum),
            None => Err(Error::NotFound(path.to_owned())),
        }
    }
}

/// A path has to lead to a file.
pub fn check_file(path: &str, inode: &Inode) -> (r: Result<()>)
    ensures
        match r {
            Ok(_) => !inode.dir(),
            Err(e) => inode.dir() && (e matches Error::IsADirectory(m) && m@ == path@),
        },
{
    if inode.is_dir() {
        Err(Error::IsADirectory(path.to_owned()))
    } else {
        Ok(())
    }
}

/// A path has to lead to a directory.
pub fn check_directory(path: &str, inode: &Inode) -> (r: Result<()>)
    ensures
        match r {
            Ok(_) => inode.dir(),
            Err(e) => !inode.dir() && (e matches Error::NotADirectory(m) && m@ == path@),
        },
{
    if inode.is_dir() {
        Ok(())
    } else {
        Err(Error::NotADirectory(path.to_owned()))
    }
}

/// A name has to be free.
pub fn check_vacant(path: &str, existing: Option<u32>) -> (r: Result<()>)
    ensures
        match r {
            Ok(_) => existing is None,
            Err(e) => existing is Some && (e matches Error::AlreadyExists(m) && m@ == path@),
        },
{
    match existing {
        Some(_) => Err(Error::AlreadyExists(path.to_owned())),
        None => Ok(()),
    }
}

/// What a listing says of entries that name these inodes.
pub open spec fn listed(entries: Seq<(u32, Seq<u8>, u8)>, targets: Seq<Inode>) -> Seq<
    (Seq<char>, u32, bool),
> {
    Seq::new(
        entries.len(),
        |i: int| (text::lossy_text(entries[i].1), entries[i].0, targets[i].dir()),
    )
}

impl Volume {
    /// List a directory: what is said of each entry but `.` and `..`, given those
    /// entries and the inodes they name.
    pub fn read_dir(entries: &Vec<DirEntry>, targets: &Vec<Inode>) -> (out: Vec<Entry>)
        requires
            targets@.len() == entries@.len(),
        ensures
            out@.map_values(|e: Entry| e@) == listed(index::entries_view(entries@), targets@),
            out@.len() == entries@.len(),
            forall|i: int|
                0 <= i < entries@.len() ==> {
                    &&& (#[trigger] out@[i]).name@ == text::lossy_text(entries@[i].name@)
                    &&& out@[i].inode == entries@[i].inode
                    &&& out@[i].is_dir == (targets@[i].mode & 0o170000 == 0o040000)
                },
    {
        let mut out: Vec<Entry> = Vec::new();
        let mut i: usize = 0;
        while i < entries.len()
            invariant
                i <= entries@.len(),
                targets@.len() == entries@.len(),
                out@.len() == i,
                forall|k: int|
                    0 <= k < i ==> (#[trigger] out@[k])@ == listed(
                        index::entries_view(entries@),
                        targets@,
                    )[k],
            decreases entries.len() - i,
        {
            out.push(
                Entry {
                    name: text::lossy(entries[i].name.as_slice()),
                    inode: entries[i].inode,
                    is_dir: targets[i].is_dir(),
                },
            );
            i += 1;
        }
        assert(out@.map_values(|e: Entry| e@) =~= listed(index::entries_view(entries@), targets@));
        assert forall|i: int| 0 <= i < entries@.len() implies {
            &&& (#[trigger] out@[i]).name@ == text::lossy_text(entries@[i].name@)
            &&& out@[i].inode == entries@[i].inode
            &&& out@[i].is_dir == (targets@[i].mode & 0o170000 == 0o040000)
        } by {
            assert(out@[i]@ == listed(index::entries_view(entries@), targets@)[i]);
            assert(index::entries_view(entries@)[i] == entries@[i]@);
        }
        out
    }
}

/// A listing has one entry for each entry of the directory, in order, with that
/// entry's own name and inode, and whether the inode it names is a directory.
/// So a name is listed exactly when the directory has it.
pub proof fn law_listing_tells_each_entry(
    entries: Seq<(u32, Seq<u8>, u8)>,
    targets: Seq<Inode>,
    name: Seq<char>,
)
    requires
        targets.len() == entries.len(),
    ensures
        listed(entries, targets).len() == entries.len(),
        forall|i: int|
            0 <= i < entries.len() ==> {
                &&& (#[trigger] listed(entries, targets)[i]).0 == text::lossy_text(entries[i].1)
                &&& listed(entries, targets)[i].1 == entries[i].0
                &&& listed(entries, targets)[i].2 == (targets[i].mode & 0o170000 == 0o040000)
            },
        (exists|i: int| 0 <= i < entries.len() && (#[trigger] listed(entries, targets)[i]).0 == name)
            <==> (exists|i: int|
            0 <= i < entries.len() && text::lossy_text((#[trigger] entries[i]).1) == name),
{
    let l = listed(entries, targets);
    assert forall|i: int| 0 <= i < entries.len() && (#[trigger] l[i]).0 == name implies exists|j: int|
        0 <= j < entries.len() && text::lossy_text((#[trigger] entries[j]).1) == name by {
        assert(text::lossy_text(entries[i].1) == name);
    }
    assert forall|i: int|
        0 <= i < entries.len() && text::lossy_text((#[trigger] entries[i]).1) == name implies exists|
        j: int,
    | 0 <= j < entries.len() && (#[trigger] l[j]).0 == name by {
        assert(l[i].0 == name);
    }
}

/// A name that is text is listed as that text, and different such names are
/// listed as different ones.
pub proof fn law_listing_tells_names_apart(
    entries: Seq<(u32, Seq<u8>, u8)>,
    targets: Seq<Inode>,
    i: int,
    j: int,
)
    requires
        targets.len() == entries.len(),
        0 <= i < entries.len(),
        0 <= j < entries.len(),
        vstd::utf8::valid_utf8(entries[i].1),
        vstd::utf8::valid_utf8(entries[j].1),
    ensures
        text::utf8(listed(entries, targets)[i].0) == entries[i].1,
        entries[i].1 != entries[j].1 ==> listed(entries, targets)[i].0 != listed(
            entries,
            targets,
        )[j].0,
{
    vstd::utf8::decode_utf8_encode_utf8(entries[i].1);
    vstd::utf8::decode_utf8_encode_utf8(entries[j].1);
}

/// Whether writing to a path empties the file that is there, rather than
/// creating one. Replacing in place keeps the inode number — and anything
/// holding it.
pub fn check_write(path: &str, existing: &Option<Inode>) -> (r: Result<bool>)
    ensures
        match r {
            Ok(there) => there == (existing is Some) && (existing matches Some(inode)
                ==> !inode.dir()),
            Err(e) => (existing matches Some(inode) && inode.dir()) && (
            e matches Error::IsADirectory(m) && m@ == path@),
        },
{
    match existing {
        Some(inode) => {
            check_file(path, inode)?;
            Ok(true)
        },
        None => Ok(false),
    }
}

impl Volume {
    /// Take an inode for a name that is to be created. The name is looked at
    /// first: one that cannot be entered costs nothing.
    pub fn claim(&mut self, parent: u32, name: &str, is_dir: bool) -> (r: Result<Got<u32>>)
        requires
            old(self).alloc@.valid(),
            is_dir ==> forall|g: int|
                0 <= g < old(self).alloc@.groups.len() ==> (#[trigger] old(
                    self,
                ).alloc@.groups[g]).used_dirs_count < u32::MAX,
        ensures
            final(self).alloc@.valid(),
            final(self).features == old(self).features,
            final(self).now == old(self).now,
            !naming::good_name(text::utf8(name@)) ==> final(self).alloc@ == old(self).alloc@ && (
            r matches Err(Error::InvalidName(m)) && m@ == text::lossy_text(text::utf8(name@))),
            naming::good_name(text::utf8(name@)) ==> {
                let a = old(self).alloc@;
                let spot = a.inode_spot(a.inode_start(parent as int), 0);
                match r {
                    Ok(Got::Done(inum)) => spot matches Spot::At(g, i) && inum == a.inode_number(
                        g,
                        i,
                    ) && final(self).alloc@ == a.with_inode(g, i, is_dir),
                    Ok(Got::Unread(g)) => spot == Spot::Unread(g as int) && g < a.geometry.groups()
                        && final(self).alloc@ == a,
                    Err(e) => e is NoInodes && spot is Full && final(self).alloc@ == a,
                }
            },
    {
        let entry: Vec<u8> = text::bytes_of(name);
        naming::check_name(entry.as_slice())?;
        self.alloc.alloc_inode(parent, is_dir)
    }
}

/// Creating a file.
pub open spec fn created(
    parent: u32,
    name: Seq<u8>,
    inum: u32,
    inode: Inode,
    area: AreaView,
) -> Seq<ChangeView> {
    seq![
        ChangeView::Put { inum, inode, area },
        ChangeView::Enter { dir: parent, name, target: inum },
    ]
}

/// What goes where a new file's block map would: nothing is mapped yet. An
/// extent-mapped inode needs a valid, empty tree from the moment it exists.
pub open spec fn nothing_mapped(extents: bool) -> AreaView {
    if extents {
        AreaView::EmptyTree
    } else {
        AreaView::Zeroes
    }
}

impl Volume {
    /// Create an empty file.
    pub fn create(
        &self,
        parent: u32,
        name: &str,
        inum: u32,
        attrs: &Attrs,
    ) -> (r: Result<Vec<Change>>)
        ensures
            match r {
                Ok(out) => naming::good_name(text::utf8(name@)) && changes(out@) == created(
                    parent,
                    text::utf8(name@),
                    inum,
                    Inode::file(*attrs, self.now, self.features.extents),
                    nothing_mapped(self.features.extents),
                ),
                Err(e) => !naming::good_name(text::utf8(name@)) && (e matches Error::InvalidName(m)
                    && m@ == text::lossy_text(text::utf8(name@))),
            },
    {
        let entry: Vec<u8> = text::bytes_of(name);
        naming::check_name(entry.as_slice())?;
        let mut out: Vec<Change> = Vec::new();
        let area: Area = if self.features.extents {
            Area::EmptyTree
        } else {
            Area::Zeroes
        };
        out.push(Change::Put { inum, inode: Inode::new_file(attrs, self.now, self.features.extents), area });
        out.push(Change::Enter { dir: parent, name: entry, target: inum });
        assert(changes(out@) =~= created(
            parent,
            text::utf8(name@),
            inum,
            Inode::file(*attrs, self.now, self.features.extents),
            nothing_mapped(self.features.extents),
        ));
        Ok(out)
    }
}

/// Making a directory.
pub open spec fn directory_made(
    features: Features,
    now: u32,
    parent: u32,
    name: Seq<u8>,
    inum: u32,
    block: u64,
    attrs: Attrs,
) -> Seq<ChangeView> {
    seq![
        ChangeView::WriteDirectory {
            inum,
            parent,
            block,
            contents: dir::dots(
                features.block_size as nat,
                features.metadata_csum,
                inum,
                parent,
                features.filetype,
            ),
        },
        ChangeView::Put {
            inum,
            inode: Inode::directory(attrs, now, features.extents, features.block_size),
            area: AreaView::Blocks(seq![block]),
        },
        ChangeView::Enter { dir: parent, name, target: inum },
        ChangeView::Edit { inum: parent, edit: Edit::ChildAdded },
    ]
}

impl Volume {
    /// Create a directory with explicit permissions and ownership.
    ///
    /// The sticky bit is just a permission bit, so `0o1777` gives the semantics a
    /// booting system expects of `/tmp`.
    pub fn mkdir_with(
        &self,
        parent: u32,
        name: &str,
        inum: u32,
        block: u64,
        attrs: &Attrs,
    ) -> (r: Result<Vec<Change>>)
        requires
            self.features.valid(),
        ensures
            match r {
                Ok(out) => naming::good_name(text::utf8(name@)) && changes(out@) == directory_made(
                    self.features,
                    self.now,
                    parent,
                    text::utf8(name@),
                    inum,
                    block,
                    *attrs,
                ),
                Err(e) => !naming::good_name(text::utf8(name@)) && (e matches Error::InvalidName(m)
                    && m@ == text::lossy_text(text::utf8(name@))),
            },
    {
        let entry: Vec<u8> = text::bytes_of(name);
        naming::check_name(entry.as_slice())?;
        let mut out: Vec<Change> = Vec::new();
        let contents: Vec<u8> = dir::dot_entries(
            self.features.block_size as usize,
            self.features.metadata_csum,
            inum,
            parent,
            self.features.filetype,
        );
        out.push(Change::WriteDirectory { inum, parent, block, contents });
        let blocks: Vec<u64> = vec![block];
        assert(blocks@ =~= seq![block]);
        out.push(
            Change::Put {
                inum,
                inode: Inode::new_directory(attrs, self.now, self.features.extents, self.features.block_size),
                area: Area::Blocks(blocks),
            },
        );
        out.push(Change::Enter { dir: parent, name: entry, target: inum });
        // A new subdirectory's ".." is another link to the parent.
        out.push(Change::Edit { inum: parent, edit: Edit::ChildAdded });
        assert(changes(out@) =~= directory_made(
            self.features,
            self.now,
            parent,
            text::utf8(name@),
            inum,
            block,
            *attrs,
        ));
        Ok(out)
    }
}

/// What goes where a special file's block map would.
pub open spec fn device_area(special: Special) -> AreaView {
    match special.numbers() {
        Some((major, minor)) => AreaView::Device(major, minor),
        None => AreaView::Zeroes,
    }
}

impl Volume {
    /// Create a device node, FIFO or socket.
    ///
    /// A root filesystem without `/dev/null` and `/dev/console` does not boot, and
    /// a container image without them does not run.
    pub fn mknod(&self, parent: u32, name: &str, inum: u32, special: Special, attrs: &Attrs) -> (r: Result<
        Vec<Change>,
    >)
        ensures
            match r {
                Ok(out) => naming::good_name(text::utf8(name@)) && changes(out@) == created(
                    parent,
                    text::utf8(name@),
                    inum,
                    Inode::special(special, *attrs, self.now),
                    device_area(special),
                ),
                Err(e) => !naming::good_name(text::utf8(name@)) && (e matches Error::InvalidName(m)
                    && m@ == text::lossy_text(text::utf8(name@))),
            },
    {
        let entry: Vec<u8> = text::bytes_of(name);
        naming::check_name(entry.as_slice())?;
        let mut out: Vec<Change> = Vec::new();
        let area: Area = match special.device() {
            Some((major, minor)) => Area::Device(major, minor),
            None => Area::Zeroes,
        };
        out.push(Change::Put { inum, inode: Inode::new_special(special, attrs, self.now), area });
        out.push(Change::Enter { dir: parent, name: entry, target: inum });
        assert(changes(out@) =~= created(
            parent,
            text::utf8(name@),
            inum,
            Inode::special(special, *attrs, self.now),
            device_area(special),
        ));
        Ok(out)
    }
}

/// Making a symbolic link whose target takes a block.
pub open spec fn slow_link_made(
    features: Features,
    now: u32,
    parent: u32,
    name: Seq<u8>,
    inum: u32,
    target: Seq<u8>,
    block: u64,
) -> Seq<ChangeView> {
    seq![
        ChangeView::WriteBlock {
            block,
            contents: links::padded(target, features.block_size as nat),
        },
    ] + created(
        parent,
        name,
        inum,
        Inode::symlink(target.len(), false, now, features.extents, features.block_size),
        AreaView::Blocks(seq![block]),
    )
}

/// Making a symbolic link whose target its inode holds.
pub open spec fn fast_link_made(
    features: Features,
    now: u32,
    parent: u32,
    name: Seq<u8>,
    inum: u32,
    target: Seq<u8>,
) -> Seq<ChangeView> {
    created(
        parent,
        name,
        inum,
        Inode::symlink(target.len(), true, now, features.extents, features.block_size),
        AreaView::Bytes(links::padded(target, 60)),
    )
}

/// Whether a symbolic link's target takes a block.
pub fn needs_block(target: &str) -> (r: bool)
    ensures
        r == (text::utf8(target@).len() >= 60),
{
    text::bytes_of(target).len() >= 60
}

impl Volume {
    /// Create a symbolic link, in a block if it needs one.
    pub fn symlink(
        &self,
        parent: u32,
        name: &str,
        inum: u32,
        target: &str,
        block: Option<u64>,
    ) -> (r: Result<Vec<Change>>)
        requires
            text::utf8(target@).len() >= 60 ==> {
                &&& block is Some
                &&& text::utf8(target@).len() <= self.features.block_size
            },
        ensures
            match r {
                Ok(out) => naming::good_name(text::utf8(name@)) && ({
                    let t = text::utf8(target@);
                    let n = text::utf8(name@);
                    if t.len() < 60 {
                        changes(out@) == fast_link_made(self.features, self.now, parent, n, inum, t)
                    } else {
                        changes(out@) == slow_link_made(
                            self.features,
                            self.now,
                            parent,
                            n,
                            inum,
                            t,
                            block->0,
                        )
                    }
                }),
                Err(e) => !naming::good_name(text::utf8(name@)) && (e matches Error::InvalidName(m)
                    && m@ == text::lossy_text(text::utf8(name@))),
            },
    {
        let entry: Vec<u8> = text::bytes_of(name);
        naming::check_name(entry.as_slice())?;
        let mut out: Vec<Change> = Vec::new();
        let len: usize = text::bytes_of(target).len();
        match links::lay_target(target, self.features.block_size as usize) {
            Target::Inode(area) => {
                out.push(
                    Change::Put {
                        inum,
                        inode: Inode::new_symlink(
                            len,
                            true,
                            self.now,
                            self.features.extents,
                            self.features.block_size,
                        ),
                        area: Area::Bytes(area),
                    },
                );
                out.push(Change::Enter { dir: parent, name: entry, target: inum });
                assert(changes(out@) =~= fast_link_made(
                    self.features,
                    self.now,
                    parent,
                    text::utf8(name@),
                    inum,
                    text::utf8(target@),
                ));
            },
            Target::Block(contents) => {
                if let Some(block) = block {
                    out.push(Change::WriteBlock { block, contents });
                    let blocks: Vec<u64> = vec![block];
                    assert(blocks@ =~= seq![block]);
                    out.push(
                        Change::Put {
                            inum,
                            inode: Inode::new_symlink(
                                len,
                                false,
                                self.now,
                                self.features.extents,
                                self.features.block_size,
                            ),
                            area: Area::Blocks(blocks),
                        },
                    );
                    out.push(Change::Enter { dir: parent, name: entry, target: inum });
                    assert(changes(out@) =~= slow_link_made(
                        self.features,
                        self.now,
                        parent,
                        text::utf8(name@),
                        inum,
                        text::utf8(target@),
                        block,
                    ));
                }
            },
        }
        Ok(out)
    }
}

/// Making a hard link.
pub open spec fn linked(parent: u32, name: Seq<u8>, inum: u32) -> Seq<ChangeView> {
    seq![
        ChangeView::Enter { dir: parent, name, target: inum },
        ChangeView::Edit { inum, edit: Edit::Named },
    ]
}

impl Volume {
    /// Create a hard link: a second name for the same inode.
    ///
    /// Linking a directory would make the tree a graph, which every checker
    /// treats as corruption. A name that is taken, or cannot be entered, is
    /// refused before anything changes.
    pub fn link(
        existing: &str,
        new_path: &str,
        parent: u32,
        name: &str,
        inum: u32,
        inode: &Inode,
        there: Option<u32>,
    ) -> (r: Result<Vec<Change>>)
        ensures
            match r {
                Ok(out) => {
                    &&& !inode.dir()
                    &&& there is None
                    &&& naming::good_name(text::utf8(name@))
                    &&& changes(out@) == linked(parent, text::utf8(name@), inum)
                },
                Err(e) => if inode.dir() {
                    e matches Error::IsADirectory(m) && m@ == existing@
                } else if there is Some {
                    e matches Error::AlreadyExists(m) && m@ == new_path@
                } else {
                    !naming::good_name(text::utf8(name@)) && (e matches Error::InvalidName(m)
                        && m@ == text::lossy_text(text::utf8(name@)))
                },
            },
    {
        check_file(existing, inode)?;
        check_vacant(new_path, there)?;
        let entry: Vec<u8> = text::bytes_of(name);
        naming::check_name(entry.as_slice())?;
        let mut out: Vec<Change> = Vec::new();
        out.push(Change::Enter { dir: parent, name: entry, target: inum });
        out.push(Change::Edit { inum, edit: Edit::Named });
        assert(changes(out@) =~= linked(parent, text::utf8(name@), inum));
        Ok(out)
    }
}

/// Removing a file's name, and the file with its last one.
pub open spec fn unlinked(parent: u32, name: Seq<u8>, inum: u32, inode: Inode) -> Seq<
    ChangeView,
> {
    if inode.links_count <= 1 {
        seq![
            ChangeView::Leave { dir: parent, name },
            ChangeView::Empty { inum },
            ChangeView::DropAttributes { inum },
            ChangeView::Edit { inum, edit: Edit::Dead },
            ChangeView::Free { inum, was_dir: false },
        ]
    } else {
        seq![
            ChangeView::Leave { dir: parent, name },
            ChangeView::Edit { inum, edit: Edit::Unnamed },
        ]
    }
}

impl Volume {
    /// Remove a file.
    pub fn unlink(path: &str, parent: u32, name: &str, inum: u32, inode: &Inode) -> (r: Result<
        Vec<Change>,
    >)
        ensures
            match r {
                Ok(out) => !inode.dir() && changes(out@) == unlinked(
                    parent,
                    text::utf8(name@),
                    inum,
                    *inode,
                ),
                Err(e) => inode.dir() && (e matches Error::IsADirectory(m) && m@ == path@),
            },
    {
        check_file(path, inode)?;
        let mut out: Vec<Change> = Vec::new();
        out.push(Change::Leave { dir: parent, name: text::bytes_of(name) });
        if inode.links_count <= 1 {
            // The last name is gone, so the file's blocks go back.
            out.push(Change::Empty { inum });
            out.push(Change::DropAttributes { inum });
            out.push(Change::Edit { inum, edit: Edit::Dead });
            out.push(Change::Free { inum, was_dir: false });
        } else {
            out.push(Change::Edit { inum, edit: Edit::Unnamed });
        }
        assert(changes(out@) =~= unlinked(parent, text::utf8(name@), inum, *inode));
        Ok(out)
    }
}

/// Removing a directory.
pub open spec fn directory_removed(parent: u32, name: Seq<u8>, inum: u32) -> Seq<ChangeView> {
    seq![
        ChangeView::Leave { dir: parent, name },
        ChangeView::Empty { inum },
        ChangeView::DropAttributes { inum },
        ChangeView::Edit { inum, edit: Edit::Dead },
        ChangeView::Free { inum, was_dir: true },
        ChangeView::Edit { inum: parent, edit: Edit::ChildRemoved },
    ]
}

/// Why a directory cannot be removed.
pub open spec fn rmdir_refused(e: Error, path: Seq<char>, inum: u32, inode: Inode, empty: bool) -> bool {
    if inum == ROOT {
        e matches Error::InvalidPath(m) && m@ == "cannot remove the root directory"@
    } else if !inode.dir() {
        e matches Error::NotADirectory(m) && m@ == path
    } else {
        !empty && (e matches Error::NotEmpty(m) && m@ == path)
    }
}

impl Volume {
    /// Remove an empty directory.
    pub fn rmdir(path: &str, parent: u32, name: &str, inum: u32, inode: &Inode, empty: bool) -> (r:
        Result<Vec<Change>>)
        ensures
            match r {
                Ok(out) => inum != ROOT && inode.dir() && empty && changes(out@) == directory_removed(
                    parent,
                    text::utf8(name@),
                    inum,
                ),
                Err(e) => rmdir_refused(e, path@, inum, *inode, empty),
            },
    {
        if inum == ROOT {
            return Err(Error::InvalidPath("cannot remove the root directory".to_owned()));
        }
        check_directory(path, inode)?;
        if !empty {
            return Err(Error::NotEmpty(path.to_owned()));
        }
        let mut out: Vec<Change> = Vec::new();
        out.push(Change::Leave { dir: parent, name: text::bytes_of(name) });
        out.push(Change::Empty { inum });
        out.push(Change::DropAttributes { inum });
        out.push(Change::Edit { inum, edit: Edit::Dead });
        out.push(Change::Free { inum, was_dir: true });
        // Its ".." was a link to the parent.
        out.push(Change::Edit { inum: parent, edit: Edit::ChildRemoved });
        assert(changes(out@) =~= directory_removed(parent, text::utf8(name@), inum));
        Ok(out)
    }
}

/// What stands where something is being moved to.
#[derive(Debug, Clone, Copy, PartialEq, Eq, Structural)]
pub struct Occupant {
    /// Its inode.
    pub inum: u32,
    /// What the inode holds.
    pub inode: Inode,
    /// Whether it is a directory without names in it.
    pub empty: bool,
}

/// A directory and a name in it.
#[derive(Debug)]
pub struct Place {
    /// The directory.
    pub dir: u32,
    /// The name.
    pub name: String,
}

impl View for Place {
    type V = (u32, Seq<u8>);

    open spec fn view(&self) -> (u32, Seq<u8>) {
        (self.dir, text::utf8(self.name@))
    }
}

/// Moving something from one place to another, where nothing stands.
pub open spec fn moved(from: (u32, Seq<u8>), to: (u32, Seq<u8>), inum: u32, is_dir: bool) -> Seq<
    ChangeView,
> {
    seq![
        ChangeView::Enter { dir: to.0, name: to.1, target: inum },
        ChangeView::Leave { dir: from.0, name: from.1 },
    ] + (if is_dir && from.0 != to.0 {
        seq![
            ChangeView::Repoint { dir: inum, parent: to.0 },
            ChangeView::Edit { inum: from.0, edit: Edit::ChildMovedOut },
            ChangeView::Edit { inum: to.0, edit: Edit::ChildMovedIn },
        ]
    } else {
        Seq::empty()
    }) + seq![ChangeView::Edit { inum, edit: Edit::Moved }]
}

/// Clearing what stands where something is being moved to.
pub open spec fn cleared(to: (u32, Seq<u8>), there: Occupant) -> Seq<ChangeView> {
    if there.inode.dir() {
        directory_removed(to.0, to.1, there.inum)
    } else {
        unlinked(to.0, to.1, there.inum, there.inode)
    }
}

/// All that a rename changes.
pub open spec fn renamed(
    from: (u32, Seq<u8>),
    to: (u32, Seq<u8>),
    inum: u32,
    moving: Inode,
    there: Option<Occupant>,
) -> Seq<ChangeView> {
    match there {
        None => moved(from, to, inum, moving.dir()),
        Some(o) => if o.inum == inum {
            Seq::empty()
        } else {
            cleared(to, o) + moved(from, to, inum, moving.dir())
        },
    }
}

/// Changing permission bits.
pub open spec fn mode_set(inum: u32, mode: u16) -> ChangeView {
    ChangeView::Edit { inum, edit: Edit::Mode(mode) }
}

/// Changing owner and group.
pub open spec fn owner_set(inum: u32, uid: u32, gid: u32) -> ChangeView {
    ChangeView::Edit { inum, edit: Edit::Owner(uid, gid) }
}

/// Setting modification and access times.
pub open spec fn times_set(inum: u32, secs: u32) -> ChangeView {
    ChangeView::Edit { inum, edit: Edit::Times(secs) }
}

/// What is reported of a directory being moved inside itself.
pub open spec fn inside_itself(from: Seq<char>) -> Seq<char> {
    "cannot move "@ + from + " inside itself"@
}

impl Volume {
    /// Move or rename a file or directory. `inside` says whether the place it goes
    /// to is inside it.
    ///
    /// Replacing an existing name is allowed for files, as it is on any unix
    /// filesystem; replacing a non-empty directory is not.
    pub fn rename(
        from_path: &str,
        to_path: &str,
        from: &Place,
        to: &Place,
        inum: u32,
        moving: &Inode,
        inside: bool,
        there: Option<Occupant>,
    ) -> (r: Result<Vec<Change>>)
        ensures
            match r {
                Ok(out) => {
                    &&& !(moving.dir() && inside)
                    &&& there matches Some(o) ==> o.inum == inum || !o.inode.dir() || (o.empty
                        && o.inum != ROOT)
                    &&& changes(out@) == renamed(from@, to@, inum, *moving, there)
                },
                Err(e) => if moving.dir() && inside {
                    e matches Error::InvalidPath(m) && m@ == inside_itself(from_path@)
                } else {
                    &&& there matches Some(o)
                    &&& o.inum != inum
                    &&& o.inode.dir()
                    &&& if !o.empty {
                        e matches Error::NotEmpty(m) && m@ == to_path@
                    } else {
                        rmdir_refused(e, to_path@, o.inum, o.inode, o.empty)
                    }
                },
            },
    {
        // A directory cannot be moved inside itself; the subtree would be
        // unreachable and its link counts unrecoverable.
        if moving.is_dir() && inside {
            let mut m: String = "cannot move ".to_owned();
            m.append(from_path);
            m.append(" inside itself");
            return Err(Error::InvalidPath(m));
        }
        let mut out: Vec<Change> = Vec::new();
        // Clear the destination if something is already there.
        if let Some(o) = there {
            if o.inum == inum {
                assert(changes(out@) =~= Seq::empty());
                return Ok(out);
            }
            if o.inode.is_dir() {
                if !o.empty {
                    return Err(Error::NotEmpty(to_path.to_owned()));
                }
                out = Volume::rmdir(to_path, to.dir, to.name.as_str(), o.inum, &o.inode, o.empty)?;
            } else {
                out = Volume::unlink(to_path, to.dir, to.name.as_str(), o.inum, &o.inode)?;
            }
        }
        let ghost before = changes(out@);
        assert(there is None ==> before =~= Seq::empty());
        out.push(Change::Enter { dir: to.dir, name: text::bytes_of(to.name.as_str()), target: inum });
        out.push(Change::Leave { dir: from.dir, name: text::bytes_of(from.name.as_str()) });
        // A directory carries a link to its parent through "..", so moving one
        // between directories moves that link too.
        if moving.is_dir() && from.dir != to.dir {
            out.push(Change::Repoint { dir: inum, parent: to.dir });
            out.push(Change::Edit { inum: from.dir, edit: Edit::ChildMovedOut });
            out.push(Change::Edit { inum: to.dir, edit: Edit::ChildMovedIn });
        }
        out.push(Change::Edit { inum, edit: Edit::Moved });
        assert(changes(out@) =~= before + moved(from@, to@, inum, moving.dir()));
        assert(changes(out@) =~= renamed(from@, to@, inum, *moving, there));
        Ok(out)
    }

    /// Change permission bits, leaving the type alone.
    ///
    /// Takes the full 12 bits, so setuid (`0o4000`), setgid (`0o2000`) and the
    /// sticky bit (`0o1000`) are all settable.
    pub fn chmod(inum: u32, mode: u16) -> (c: Change)
        ensures
            c@ == (ChangeView::Edit { inum, edit: Edit::Mode(mode) }),
            c@ == mode_set(inum, mode),
    {
        Change::Edit { inum, edit: Edit::Mode(mode) }
    }

    /// Change owner and group.
    pub fn chown(inum: u32, uid: u32, gid: u32) -> (c: Change)
        ensures
            c@ == (ChangeView::Edit { inum, edit: Edit::Owner(uid, gid) }),
            c@ == owner_set(inum, uid, gid),
    {
        Change::Edit { inum, edit: Edit::Owner(uid, gid) }
    }

    /// Set modification and access times.
    pub fn set_times(inum: u32, secs: u32) -> (c: Change)
        ensures
            c@ == (ChangeView::Edit { inum, edit: Edit::Times(secs) }),
            c@ == times_set(inum, secs),
    {
        Change::Edit { inum, edit: Edit::Times(secs) }
    }
}

/// How far a climb from a directory towards the root got.
#[derive(Debug, Clone, Copy, PartialEq, Eq, Structural)]
pub enum Climb {
    /// It came by the directory it looked for.
    Found,
    /// It ended without.
    Missed,
    /// It has come to this directory, whose parent it needs.
    At(u32),
}

/// The most directories a climb passes.
pub const CLIMB_MAX: u32 = 4096;

/// Whether `ancestor` is `at` itself or above it, going by what `..` names in
/// each directory and passing at most `left` of them.
pub open spec fn is_above(parents: Map<u32, u32>, ancestor: u32, at: u32, left: nat) -> bool
    decreases left,
{
    left > 0 && (at == ancestor || (at != ROOT && parents.contains_key(at) && parents[at] != at
        && is_above(parents, ancestor, parents[at], (left - 1) as nat)))
}

/// A climb from a directory towards the root, looking for another.
#[derive(Debug)]
pub struct Ascent {
    /// The directory looked for.
    pub ancestor: u32,
    /// The directory come to.
    pub at: u32,
    /// How many directories it may still pass.
    pub left: u32,
}

impl Ascent {
    /// Whether the directory looked for is still ahead, given what `..` names
    /// everywhere.
    pub open spec fn will_find(&self, parents: Map<u32, u32>) -> bool {
        is_above(parents, self.ancestor, self.at, self.left as nat)
    }

    /// A climb from `of`, looking for `ancestor`.
    pub fn new(ancestor: u32, of: u32) -> (r: Self)
        ensures
            r == (Ascent { ancestor, at: of, left: CLIMB_MAX }),
    {
        Ascent { ancestor, at: of, left: CLIMB_MAX }
    }

    /// Whether `ancestor` is at or above where the climb started, if that can
    /// be told already.
    pub fn is_ancestor(&self) -> (r: Climb)
        ensures
            match r {
                Climb::Found => forall|parents: Map<u32, u32>| self.will_find(parents),
                Climb::Missed => forall|parents: Map<u32, u32>| !self.will_find(parents),
                Climb::At(at) => at == self.at && self.left > 0 && at != ROOT && at
                    != self.ancestor,
            },
    {
        if self.left == 0 {
            Climb::Missed
        } else if self.at == self.ancestor {
            Climb::Found
        } else if self.at == ROOT {
            Climb::Missed
        } else {
            Climb::At(self.at)
        }
    }

    /// Go on to what `..` names in the directory come to.
    pub fn up(&mut self, parent: Option<u32>)
        requires
            old(self).left > 0,
            old(self).at != ROOT,
            old(self).at != old(self).ancestor,
        ensures
            final(self).left < old(self).left,
            forall|parents: Map<u32, u32>|
                parent == (if parents.contains_key(old(self).at) {
                    Some(parents[old(self).at])
                } else {
                    None
                }) ==> #[trigger] final(self).will_find(parents) == old(self).will_find(parents),
    {
        match parent {
            Some(p) => {
                if p == self.at {
                    self.left = 0;
                } else {
                    self.at = p;
                    self.left = self.left - 1;
                }
            },
            None => {
                self.left = 0;
            },
        }
    }
}

/// A directory that cannot go inside itself is told by its path, and a directory is
/// refused for removal as the root, as no directory, or as one with names in it.
pub proof fn law_refusals_say_why(e: Error, path: Seq<char>, inum: u32, inode: Inode, empty: bool)
    ensures
        inside_itself(path) == "cannot move "@ + path + " inside itself"@,
        rmdir_refused(e, path, inum, inode, empty) && inum == 2 ==> e is InvalidPath,
        rmdir_refused(e, path, inum, inode, empty) && inum != 2 && inode.mode & 0o170000
            != 0o040000 ==> (e matches Error::NotADirectory(m) && m@ == path),
        rmdir_refused(e, path, inum, inode, empty) && inum != 2 && inode.mode & 0o170000
            == 0o040000 ==> !empty && (e matches Error::NotEmpty(m) && m@ == path),
{
}

/// A climb finds a directory exactly when it starts there or, going up by what `..`
/// names, comes by it before the root and before it has passed too many.
pub proof fn law_climbs_go_up_one_by_one(
    parents: Map<u32, u32>,
    ancestor: u32,
    at: u32,
    left: nat,
)
    requires
        left > 0,
    ensures
        at == ancestor ==> is_above(parents, ancestor, at, left),
        at != ancestor && at == 2 ==> !is_above(parents, ancestor, at, left),
        at != ancestor && !parents.contains_key(at) ==> !is_above(parents, ancestor, at, left),
        at != ancestor && at != 2 && parents.contains_key(at) && parents[at] != at ==> (is_above(
            parents,
            ancestor,
            at,
            left,
        ) <==> is_above(parents, ancestor, parents[at], (left - 1) as nat)),
{
}

} // verus!
