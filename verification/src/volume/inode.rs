//! An inode's fields, and what each operation makes of them.

use vstd::prelude::*;

use crate::dir;
use crate::volume::types::{Attrs, Special, Stat};

verus! {

/// The inode of the root directory.
pub const ROOT: u32 = 2;

/// The inode maps its blocks with extents.
pub const EXTENTS: u32 = 0x0008_0000;

/// The inode is a directory with a hash index.
pub const INDEX: u32 = 0x0000_1000;

/// Bytes of the area of an inode that holds its block map — or a short symlink
/// target, or a device's numbers.
pub const AREA_LEN: usize = 60;

/// An inode, but for the area that holds its block map.
#[derive(Debug, Clone, Copy, PartialEq, Eq, Structural)]
pub struct Inode {
    /// File type and permission bits.
    pub mode: u16,
    /// Owning user.
    pub uid: u32,
    /// Owning group.
    pub gid: u32,
    /// Size in bytes.
    pub size: u64,
    /// Hard links.
    pub links_count: u16,
    /// Blocks of 512 bytes.
    pub blocks: u64,
    /// Flags.
    pub flags: u32,
    /// Version, which goes into the checksum of the inode's blocks.
    pub generation: u32,
    /// Last access.
    pub atime: u32,
    /// Last change of the inode.
    pub ctime: u32,
    /// Last change of the contents.
    pub mtime: u32,
    /// Creation.
    pub crtime: u32,
    /// Deletion.
    pub dtime: u32,
    /// The block that holds extended attributes, or 0.
    pub file_acl: u64,
}

/// What goes into the area of an inode that holds its block map.
#[derive(Debug)]
pub enum Area {
    /// Nothing but zeroes.
    Zeroes,
    /// An extent tree that maps nothing.
    EmptyTree,
    /// These bytes.
    Bytes(Vec<u8>),
    /// A device's numbers.
    Device(u32, u32),
    /// A map of these blocks.
    Blocks(Vec<u64>),
}

/// One change to an inode that is there already.
#[derive(Debug, Clone, Copy, PartialEq, Eq, Structural)]
pub enum Edit {
    /// It got another name.
    Named,
    /// It lost a name, and has others.
    Unnamed,
    /// It lost its last name.
    Dead,
    /// It moved.
    Moved,
    /// A directory was made in it.
    ChildAdded,
    /// A directory was removed from it.
    ChildRemoved,
    /// A directory moved into it.
    ChildMovedIn,
    /// A directory moved out of it.
    ChildMovedOut,
    /// Its contents changed.
    Touched,
    /// It gets these permission bits.
    Mode(u16),
    /// It gets this owner and group.
    Owner(u32, u32),
    /// It gets this time.
    Times(u32),
}

/// One less, but not below zero.
pub open spec fn one_less(n: u16) -> u16 {
    if n == 0 {
        0
    } else {
        (n - 1) as u16
    }
}

/// `n` less, but not below zero.
pub open spec fn less(from: u64, n: nat) -> u64 {
    if from < n {
        0
    } else {
        (from - n) as u64
    }
}

impl Edit {
    /// Whether it counts a link up.
    pub open spec fn gains_link(self) -> bool {
        self is Named || self is ChildAdded || self is ChildMovedIn
    }
}

impl Inode {
    /// Whether it is a directory.
    pub open spec fn dir(self) -> bool {
        self.mode & dir::IFMT == dir::IFDIR
    }

    /// Whether it is a symbolic link.
    pub open spec fn link(self) -> bool {
        self.mode & dir::IFMT == dir::IFLNK
    }

    /// Whether it is a directory with a hash index.
    pub open spec fn indexed(self) -> bool {
        self.flags & INDEX != 0
    }

    /// With `edit` made at time `now`.
    pub open spec fn with(self, edit: Edit, now: u32) -> Inode {
        match edit {
            Edit::Named => Inode {
                links_count: (self.links_count + 1) as u16,
                ctime: now,
                ..self
            },
            Edit::Unnamed => Inode { links_count: one_less(self.links_count), ..self },
            Edit::Dead => Inode { links_count: 0, dtime: now, ..self },
            Edit::Moved => Inode { ctime: now, ..self },
            Edit::ChildAdded => Inode {
                links_count: (self.links_count + 1) as u16,
                mtime: now,
                ctime: now,
                ..self
            },
            Edit::ChildRemoved => Inode {
                links_count: one_less(self.links_count),
                mtime: now,
                ctime: now,
                ..self
            },
            Edit::ChildMovedIn => Inode {
                links_count: (self.links_count + 1) as u16,
                ctime: now,
                ..self
            },
            Edit::ChildMovedOut => Inode {
                links_count: one_less(self.links_count),
                ctime: now,
                ..self
            },
            Edit::Touched => Inode { mtime: now, ctime: now, ..self },
            Edit::Mode(mode) => Inode {
                mode: (self.mode & dir::IFMT) | (mode & 0o7777),
                ctime: now,
                ..self
            },
            Edit::Owner(uid, gid) => Inode { uid, gid, ctime: now, ..self },
            Edit::Times(secs) => Inode { atime: secs, mtime: secs, ctime: secs, ..self },
        }
    }

    /// With `edit` made at time `now`.
    pub fn edited(self, edit: Edit, now: u32) -> (r: Inode)
        requires
            edit.gains_link() ==> self.links_count < u16::MAX,
        ensures
            r == self.with(edit, now),
    {
        let mut r: Inode = self;
        match edit {
            Edit::Named => {
                r.links_count = r.links_count + 1;
                r.ctime = now;
            },
            Edit::Unnamed => {
                r.links_count = r.links_count.saturating_sub(1);
            },
            Edit::Dead => {
                r.links_count = 0;
                r.dtime = now;
            },
            Edit::Moved => {
                r.ctime = now;
            },
            Edit::ChildAdded => {
                r.links_count = r.links_count + 1;
                r.mtime = now;
                r.ctime = now;
            },
            Edit::ChildRemoved => {
                r.links_count = r.links_count.saturating_sub(1);
                r.mtime = now;
                r.ctime = now;
            },
            Edit::ChildMovedIn => {
                r.links_count = r.links_count + 1;
                r.ctime = now;
            },
            Edit::ChildMovedOut => {
                r.links_count = r.links_count.saturating_sub(1);
                r.ctime = now;
            },
            Edit::Touched => {
                r.mtime = now;
                r.ctime = now;
            },
            Edit::Mode(mode) => {
                // The type stays what it is; setuid, setgid and the sticky bit
                // are permission bits like the others.
                r.mode = (r.mode & dir::IFMT) | (mode & 0o7777);
                r.ctime = now;
            },
            Edit::Owner(uid, gid) => {
                r.uid = uid;
                r.gid = gid;
                r.ctime = now;
            },
            Edit::Times(secs) => {
                r.atime = secs;
                r.mtime = secs;
                r.ctime = secs;
            },
        }
        r
    }

    /// Whether it is a directory.
    pub fn is_dir(&self) -> (r: bool)
        ensures
            r == self.dir(),
    {
        self.mode & dir::IFMT == dir::IFDIR
    }

    /// Whether it is a symbolic link.
    pub fn is_symlink(&self) -> (r: bool)
        ensures
            r == self.link(),
    {
        self.mode & dir::IFMT == dir::IFLNK
    }

    /// Whether it is a directory that carries a hash index.
    pub fn is_indexed(&self) -> (r: bool)
        ensures
            r == self.indexed(),
    {
        self.flags & INDEX != 0
    }

    /// What `stat` tells of it.
    pub open spec fn told(self, inum: u32) -> Stat {
        Stat {
            inode: inum,
            size: self.size,
            mode: self.mode,
            links: self.links_count,
            uid: self.uid,
            gid: self.gid,
            blocks: self.blocks,
            mtime: self.mtime,
        }
    }

    /// What `stat` tells of it.
    pub fn stat(&self, inum: u32) -> (r: Stat)
        ensures
            r == self.told(inum),
            r == (Stat {
                inode: inum,
                size: self.size,
                mode: self.mode,
                links: self.links_count,
                uid: self.uid,
                gid: self.gid,
                blocks: self.blocks,
                mtime: self.mtime,
            }),
    {
        Stat {
            inode: inum,
            size: self.size,
            mode: self.mode,
            links: self.links_count,
            uid: self.uid,
            gid: self.gid,
            blocks: self.blocks,
            mtime: self.mtime,
        }
    }

    /// A fresh inode, with the times a new file starts with.
    pub open spec fn fresh(mode: u16, now: u32, flags: u32) -> Inode {
        Inode {
            mode,
            uid: 0,
            gid: 0,
            size: 0,
            links_count: 0,
            blocks: 0,
            flags,
            generation: 0,
            atime: now,
            ctime: now,
            mtime: now,
            crtime: now,
            dtime: 0,
            file_acl: 0,
        }
    }

    /// The flags a new inode has.
    pub open spec fn new_flags(extents: bool) -> u32 {
        if extents {
            EXTENTS
        } else {
            0
        }
    }

    /// A fresh inode, with the times a new file starts with.
    fn new(mode: u16, now: u32, flags: u32) -> (r: Inode)
        ensures
            r == Inode::fresh(mode, now, flags),
    {
        Inode {
            mode,
            uid: 0,
            gid: 0,
            size: 0,
            links_count: 0,
            blocks: 0,
            flags,
            generation: 0,
            atime: now,
            ctime: now,
            mtime: now,
            crtime: now,
            dtime: 0,
            file_acl: 0,
        }
    }

    /// A new regular file.
    pub open spec fn file(attrs: Attrs, now: u32, extents: bool) -> Inode {
        Inode {
            uid: attrs.uid,
            gid: attrs.gid,
            links_count: 1,
            ..Inode::fresh(dir::IFREG | (attrs.mode & 0o7777), now, Inode::new_flags(extents))
        }
    }

    /// A new directory of one block. `.` points at itself, and the parent's
    /// entry is the second link.
    pub open spec fn directory(attrs: Attrs, now: u32, extents: bool, block_size: u32) -> Inode {
        Inode {
            uid: attrs.uid,
            gid: attrs.gid,
            links_count: 2,
            size: block_size as u64,
            blocks: (block_size / 512) as u64,
            ..Inode::fresh(dir::IFDIR | (attrs.mode & 0o7777), now, Inode::new_flags(extents))
        }
    }

    /// A new device node, FIFO or socket.
    pub open spec fn special(special: Special, attrs: Attrs, now: u32) -> Inode {
        Inode {
            uid: attrs.uid,
            gid: attrs.gid,
            links_count: 1,
            ..Inode::fresh(special.kind_bits() | (attrs.mode & 0o7777), now, 0)
        }
    }

    /// A new symbolic link, to a target of this many bytes, that keeps the
    /// target in the inode or in one block.
    pub open spec fn symlink(
        len: nat,
        inline: bool,
        now: u32,
        extents: bool,
        block_size: u32,
    ) -> Inode {
        Inode {
            links_count: 1,
            size: len as u64,
            blocks: if inline {
                0
            } else {
                (block_size / 512) as u64
            },
            ..Inode::fresh(
                dir::IFLNK | 0o777,
                now,
                if inline {
                    0
                } else {
                    Inode::new_flags(extents)
                },
            )
        }
    }

    /// A new regular file.
    pub fn new_file(attrs: &Attrs, now: u32, extents: bool) -> (r: Inode)
        ensures
            r == Inode::file(*attrs, now, extents),
    {
        let mut r: Inode = Inode::new(dir::IFREG | attrs.perms(), now, flags_for(extents));
        r.uid = attrs.uid;
        r.gid = attrs.gid;
        r.links_count = 1;
        r
    }

    /// A new directory of one block.
    pub fn new_directory(attrs: &Attrs, now: u32, extents: bool, block_size: u32) -> (r: Inode)
        ensures
            r == Inode::directory(*attrs, now, extents, block_size),
    {
        let mut r: Inode = Inode::new(dir::IFDIR | attrs.perms(), now, flags_for(extents));
        r.uid = attrs.uid;
        r.gid = attrs.gid;
        // "." points at itself, and the parent's entry is the second link.
        r.links_count = 2;
        r.size = block_size as u64;
        r.blocks = (block_size / 512) as u64;
        r
    }

    /// A new device node, FIFO or socket.
    pub fn new_special(special: Special, attrs: &Attrs, now: u32) -> (r: Inode)
        ensures
            r == Inode::special(special, *attrs, now),
    {
        // The area holds the device number, not a block map, so the extent flag
        // an ordinary file would carry must not be set here.
        let mut r: Inode = Inode::new(special.mode_bits() | attrs.perms(), now, 0);
        r.uid = attrs.uid;
        r.gid = attrs.gid;
        r.links_count = 1;
        r
    }

    /// A new symbolic link.
    pub fn new_symlink(len: usize, inline: bool, now: u32, extents: bool, block_size: u32) -> (r:
        Inode)
        ensures
            r == Inode::symlink(len as nat, inline, now, extents, block_size),
    {
        // A symlink's permissions are conventionally 0777; the target's are
        // what actually apply.
        let flags: u32 = if inline {
            0
        } else {
            flags_for(extents)
        };
        let mut r: Inode = Inode::new(dir::IFLNK | 0o777, now, flags);
        r.links_count = 1;
        r.size = len as u64;
        r.blocks = if inline {
            0
        } else {
            (block_size / 512) as u64
        };
        r
    }

    /// Blocks of 512 bytes that its extended attributes take outside of it.
    pub open spec fn attribute_blocks(self, block_size: u32) -> nat {
        if self.file_acl == 0 {
            0
        } else {
            (block_size / 512) as nat
        }
    }

    /// With contents of this size in this many blocks, `meta` more of them
    /// mapping the others. A block of attributes is counted with them.
    pub open spec fn with_contents(
        self,
        size: u64,
        blocks: nat,
        meta: nat,
        block_size: u32,
        now: u32,
    ) -> Inode {
        Inode {
            size,
            blocks: ((blocks + meta) * (block_size / 512) as nat + self.attribute_blocks(
                block_size,
            )) as u64,
            mtime: now,
            ctime: now,
            ..self
        }
    }

    /// With contents of this size in this many blocks, `meta` more of them
    /// mapping the others. A block of attributes is counted with them.
    pub fn holding(self, size: u64, blocks: u64, meta: u64, block_size: u32, now: u32) -> (r: Inode)
        requires
            (blocks + meta) * (block_size / 512) + self.attribute_blocks(block_size) <= u64::MAX,
            blocks + meta <= u64::MAX,
        ensures
            r == self.with_contents(size, blocks as nat, meta as nat, block_size, now),
    {
        let mut r: Inode = self;
        r.size = size;
        r.blocks = (blocks + meta) * (block_size / 512) as u64;
        if r.file_acl != 0 {
            r.blocks = r.blocks + (block_size / 512) as u64;
        }
        r.mtime = now;
        r.ctime = now;
        r
    }

    /// As a directory with a hash index.
    pub fn as_index(self) -> (r: Inode)
        ensures
            r == (Inode { flags: self.flags | INDEX, ..self }),
            r.indexed(),
    {
        let mut r: Inode = self;
        r.flags = r.flags | INDEX;
        proof {
            let f = self.flags;
            assert((f | 0x0000_1000) & 0x0000_1000 != 0) by (bit_vector);
        }
        r
    }

    /// With its blocks given back, but for a block of attributes.
    pub open spec fn emptied(self, block_size: u32, now: u32) -> Inode {
        Inode {
            size: 0,
            blocks: self.attribute_blocks(block_size) as u64,
            mtime: now,
            ctime: now,
            ..self
        }
    }

    /// What goes into the area of an inode whose blocks were given back: an
    /// empty extent tree is still a tree, and must still say so.
    pub open spec fn empty_area(self) -> Area {
        if self.flags & EXTENTS != 0 {
            Area::EmptyTree
        } else {
            Area::Zeroes
        }
    }

    /// With its blocks given back, but for a block of attributes, and what goes
    /// into its area.
    pub fn without_contents(self, block_size: u32, now: u32) -> (r: (Inode, Area))
        ensures
            r.0 == self.emptied(block_size, now),
            r.1 == self.empty_area(),
    {
        let mut r: Inode = self;
        r.size = 0;
        r.blocks = if r.file_acl == 0 {
            0
        } else {
            (block_size / 512) as u64
        };
        r.mtime = now;
        r.ctime = now;
        if self.flags & EXTENTS != 0 {
            (r, Area::EmptyTree)
        } else {
            (r, Area::Zeroes)
        }
    }

    /// Without a block of attributes.
    pub open spec fn without_acl(self, block_size: u32) -> Inode {
        if self.file_acl == 0 {
            self
        } else {
            Inode {
                file_acl: 0,
                blocks: less(self.blocks, (block_size / 512) as nat),
                ..self
            }
        }
    }

    /// Give back the block of attributes: the block, and the inode without it.
    ///
    /// That block is reachable only from the inode, so deleting the inode
    /// without freeing it leaks it.
    pub fn drop_attributes(self, block_size: u32) -> (r: (Option<u64>, Inode))
        ensures
            r.0 == (if self.file_acl == 0 {
                None
            } else {
                Some(self.file_acl)
            }),
            r.1 == self.without_acl(block_size),
    {
        if self.file_acl == 0 {
            return (None, self);
        }
        let mut r: Inode = self;
        r.blocks = r.blocks.saturating_sub((block_size / 512) as u64);
        r.file_acl = 0;
        (Some(self.file_acl), r)
    }
}

/// The flags a new inode has.
fn flags_for(extents: bool) -> (flags: u32)
    ensures
        flags == Inode::new_flags(extents),
{
    if extents {
        EXTENTS
    } else {
        0
    }
}

/// Changing permission bits leaves the type alone, and sets all twelve of
/// them.
pub proof fn law_chmod_keeps_the_type(inode: Inode, mode: u16, now: u32)
    ensures
        inode.with(Edit::Mode(mode), now).mode & dir::IFMT == inode.mode & dir::IFMT,
        inode.with(Edit::Mode(mode), now).mode & 0o7777 == mode & 0o7777,
        inode.with(Edit::Mode(mode), now).dir() == inode.dir(),
{
    let m = inode.mode;
    assert(((m & 0o170000) | (mode & 0o7777)) & 0o170000 == m & 0o170000) by (bit_vector);
    assert(((m & 0o170000) | (mode & 0o7777)) & 0o7777 == mode & 0o7777) by (bit_vector);
}

/// What is created has the type that was asked for, and the permission bits
/// that were given — whatever type bits were given with them.
pub proof fn law_new_inodes_have_their_type(
    attrs: Attrs,
    special: Special,
    now: u32,
    extents: bool,
    block_size: u32,
)
    ensures
        Inode::file(attrs, now, extents).mode & dir::IFMT == dir::IFREG,
        Inode::file(attrs, now, extents).mode & 0o7777 == attrs.mode & 0o7777,
        Inode::directory(attrs, now, extents, block_size).dir(),
        Inode::directory(attrs, now, extents, block_size).mode & 0o7777 == attrs.mode & 0o7777,
        Inode::special(special, attrs, now).mode & dir::IFMT == special.kind_bits(),
        Inode::special(special, attrs, now).mode & 0o7777 == attrs.mode & 0o7777,
{
    let m = attrs.mode;
    assert(forall|k: u16|
        k == 0o100000 || k == 0o040000 || k == 0o020000 || k == 0o060000 || k == 0o010000 || k
            == 0o140000 ==> #[trigger] (k | (m & 0o7777)) & 0o170000 == k && (k | (m & 0o7777))
            & 0o7777 == m & 0o7777) by (bit_vector);
}

/// An edit changes what it is about, and nothing else of an inode: no edit
/// touches its size, its blocks, its flags, its version, its creation or its
/// attributes.
pub proof fn law_edits_change_only_what_they_are_about(inode: Inode, edit: Edit, now: u32)
    requires
        edit is Named || edit is ChildAdded || edit is ChildMovedIn ==> inode.links_count < 65535,
    ensures
        ({
            let r = inode.with(edit, now);
            &&& r.size == inode.size
            &&& r.blocks == inode.blocks
            &&& r.flags == inode.flags
            &&& r.generation == inode.generation
            &&& r.crtime == inode.crtime
            &&& r.file_acl == inode.file_acl
            &&& !(edit is Mode) ==> r.mode == inode.mode
            &&& edit matches Edit::Mode(mode) ==> {
                &&& r.mode & 0o170000 == inode.mode & 0o170000
                &&& r.mode & 0o7777 == mode & 0o7777
            }
            &&& !(edit is Owner) ==> r.uid == inode.uid && r.gid == inode.gid
            &&& edit matches Edit::Owner(uid, gid) ==> r.uid == uid && r.gid == gid
            &&& edit matches Edit::Times(secs) ==> r.atime == secs && r.mtime == secs && r.ctime
                == secs
            &&& !(edit is Times) ==> r.atime == inode.atime
            &&& edit is ChildAdded || edit is ChildRemoved || edit is Touched ==> r.mtime == now
            &&& !(edit is ChildAdded || edit is ChildRemoved || edit is Touched || edit is Times)
                ==> r.mtime == inode.mtime
            &&& edit is Unnamed || edit is Dead ==> r.ctime == inode.ctime
            &&& !(edit is Unnamed || edit is Dead || edit is Times) ==> r.ctime == now
            &&& edit is Dead ==> r.dtime == now && r.links_count == 0
            &&& !(edit is Dead) ==> r.dtime == inode.dtime
            &&& edit is Named || edit is ChildAdded || edit is ChildMovedIn ==> r.links_count
                == inode.links_count + 1
            &&& edit is Unnamed || edit is ChildRemoved || edit is ChildMovedOut ==> r.links_count
                == (if inode.links_count == 0 {
                0
            } else {
                inode.links_count - 1
            })
            &&& edit is Moved || edit is Touched || edit is Mode || edit is Owner || edit is Times
                ==> r.links_count == inode.links_count
        }),
{
    if let Edit::Mode(mode) = edit {
        law_chmod_keeps_the_type(inode, mode, now);
    }
}

/// Giving an inode contents sets its size, counts the blocks of the contents, of
/// their map and of its attributes in units of 512 bytes, and stamps the change;
/// the rest of it stays.
pub proof fn law_contents_are_counted(
    inode: Inode,
    size: u64,
    blocks: nat,
    meta: nat,
    block_size: u32,
    now: u32,
)
    requires
        block_size % 512 == 0,
        (blocks + meta + 1) * block_size <= u64::MAX,
    ensures
        ({
            let r = inode.with_contents(size, blocks, meta, block_size, now);
            &&& r.size == size
            &&& r.blocks * 512 == (blocks + meta + (if inode.file_acl == 0 {
                0int
            } else {
                1
            })) * block_size
            &&& r.mtime == now
            &&& r.ctime == now
            &&& r.mode == inode.mode
            &&& r.uid == inode.uid
            &&& r.gid == inode.gid
            &&& r.links_count == inode.links_count
            &&& r.flags == inode.flags
            &&& r.generation == inode.generation
            &&& r.atime == inode.atime
            &&& r.crtime == inode.crtime
            &&& r.dtime == inode.dtime
            &&& r.file_acl == inode.file_acl
        }),
{
    let unit = (block_size / 512) as nat;
    let n = blocks + meta;
    assert(block_size == unit * 512);
    assert(n * block_size == n * unit * 512) by (nonlinear_arith)
        requires
            block_size == unit * 512,
    ;
    assert((n + 1) * block_size == n * block_size + block_size) by (nonlinear_arith);
    assert(n * unit + unit <= u64::MAX);
}

/// An inode whose blocks were given back has size zero and counts no block but
/// that of its attributes, in units of 512 bytes; the rest of it stays, but for
/// the times of its last changes, and it maps nothing in the way it did.
pub proof fn law_emptied_inodes_keep_the_rest(inode: Inode, block_size: u32, now: u32)
    requires
        block_size % 512 == 0,
    ensures
        ({
            let r = inode.emptied(block_size, now);
            &&& r.size == 0
            &&& inode.file_acl == 0 ==> r.blocks == 0
            &&& inode.file_acl != 0 ==> r.blocks * 512 == block_size
            &&& r.mtime == now
            &&& r.ctime == now
            &&& r.mode == inode.mode
            &&& r.uid == inode.uid
            &&& r.gid == inode.gid
            &&& r.links_count == inode.links_count
            &&& r.flags == inode.flags
            &&& r.generation == inode.generation
            &&& r.atime == inode.atime
            &&& r.crtime == inode.crtime
            &&& r.dtime == inode.dtime
            &&& r.file_acl == inode.file_acl
            &&& inode.flags & 0x8_0000 != 0 ==> inode.empty_area() is EmptyTree
            &&& inode.flags & 0x8_0000 == 0 ==> inode.empty_area() is Zeroes
        }),
{
}

/// An inode without its block of attributes counts one block less, in units of
/// 512 bytes, and is the same otherwise.
pub proof fn law_dropping_attributes_drops_their_block(inode: Inode, block_size: u32)
    requires
        block_size % 512 == 0,
        inode.file_acl != 0 ==> inode.blocks * 512 >= block_size,
    ensures
        ({
            let r = inode.without_acl(block_size);
            &&& r.file_acl == 0
            &&& inode.file_acl == 0 ==> r.blocks == inode.blocks
            &&& inode.file_acl != 0 ==> r.blocks * 512 == inode.blocks * 512 - block_size
            &&& r.size == inode.size
            &&& r.mode == inode.mode
            &&& r.uid == inode.uid
            &&& r.gid == inode.gid
            &&& r.links_count == inode.links_count
            &&& r.flags == inode.flags
            &&& r.generation == inode.generation
            &&& r.atime == inode.atime
            &&& r.ctime == inode.ctime
            &&& r.mtime == inode.mtime
            &&& r.crtime == inode.crtime
            &&& r.dtime == inode.dtime
        }),
{
}

/// What an inode is, is in the top four bits of its mode.
pub proof fn law_type_bits_tell_directories_and_links(inode: Inode)
    ensures
        inode.dir() <==> inode.mode & 0o170000 == 0o040000,
        inode.link() <==> inode.mode & 0o170000 == 0o120000,
        inode.indexed() <==> inode.flags & 0x1000 != 0,
{
}

/// What is told of an inode is its own: its number, size, mode, links, owner, group,
/// blocks and time of change; so two inodes that differ in any of these are told
/// apart.
pub proof fn law_stat_tells_the_inode_itself(a: Inode, b: Inode, i: u32, j: u32)
    ensures
        a.told(i).inode == i,
        a.told(i).size == a.size,
        a.told(i).mode == a.mode,
        a.told(i).links == a.links_count,
        a.told(i).uid == a.uid,
        a.told(i).gid == a.gid,
        a.told(i).blocks == a.blocks,
        a.told(i).mtime == a.mtime,
        a.told(i) == b.told(j) <==> i == j && a.size == b.size && a.mode == b.mode
            && a.links_count == b.links_count && a.uid == b.uid && a.gid == b.gid && a.blocks
            == b.blocks && a.mtime == b.mtime,
{
}

/// What is told of an inode after its permission bits, its owner or its times have
/// been changed is what they were changed to, and the rest is told as before.
pub proof fn law_stat_tells_what_was_set(
    inode: Inode,
    inum: u32,
    mode: u16,
    uid: u32,
    gid: u32,
    secs: u32,
    now: u32,
)
    ensures
        inode.with(Edit::Mode(mode), now).told(inum).mode & 0o7777 == mode & 0o7777,
        inode.with(Edit::Mode(mode), now).told(inum) == (Stat {
            mode: inode.with(Edit::Mode(mode), now).mode,
            ..inode.told(inum)
        }),
        inode.with(Edit::Owner(uid, gid), now).told(inum) == (Stat {
            uid,
            gid,
            ..inode.told(inum)
        }),
        inode.with(Edit::Times(secs), now).told(inum) == (Stat {
            mtime: secs,
            ..inode.told(inum)
        }),
        inode.with(Edit::Moved, now).told(inum) == inode.told(inum),
{
    law_chmod_keeps_the_type(inode, mode, now);
}

/// The root directory is the second inode.
pub proof fn law_root_is_the_second_inode()
    ensures
        ROOT == 2,
{
}

} // verus!
