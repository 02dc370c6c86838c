//! What callers hand to a volume, and what it tells them.

use vstd::prelude::*;

use crate::dir;

verus! {

/// Permissions and ownership for something being created.
///
/// A root filesystem is not just a tree of bytes: `/etc/shadow` has to be
/// `0600`, `/usr/bin/*` has to be executable, `/tmp` has to be `1777` with the
/// sticky bit, and files have to belong to somebody.
#[derive(Debug, Clone, Copy, PartialEq, Eq, Structural)]
pub struct Attrs {
    /// Permission bits, with setuid, setgid and sticky. The file-type bits are
    /// supplied by the operation, not by the caller.
    pub mode: u16,
    /// Owning user.
    pub uid: u32,
    /// Owning group.
    pub gid: u32,
}

impl Default for Attrs {
    fn default() -> (r: Self)
        ensures
            r == (Attrs { mode: 0o644, uid: 0, gid: 0 }),
    {
        Attrs { mode: 0o644, uid: 0, gid: 0 }
    }
}

impl Attrs {
    /// Permissions, owned by root.
    pub fn mode(mode: u16) -> (r: Self)
        ensures
            r == (Attrs { mode, uid: 0, gid: 0 }),
    {
        Attrs { mode, uid: 0, gid: 0 }
    }

    /// The defaults a directory wants rather than a file.
    pub fn dir() -> (r: Self)
        ensures
            r == (Attrs { mode: 0o755, uid: 0, gid: 0 }),
    {
        Attrs { mode: 0o755, uid: 0, gid: 0 }
    }

    /// Set the owner.
    pub fn owner(self, uid: u32, gid: u32) -> (r: Self)
        ensures
            r == (Attrs { mode: self.mode, uid, gid }),
    {
        Attrs { mode: self.mode, uid, gid }
    }

    /// Permission bits only, with any file-type bits masked off.
    pub fn perms(&self) -> (bits: u16)
        ensures
            bits == self.mode & 0o7777,
    {
        self.mode & 0o7777
    }
}

/// What kind of special file to create.
#[derive(Debug, Clone, Copy, PartialEq, Eq, Structural)]
pub enum Special {
    /// A character device, such as `/dev/null` or `/dev/console`.
    CharDevice {
        /// Major number.
        major: u32,
        /// Minor number.
        minor: u32,
    },
    /// A block device, such as `/dev/sda`.
    BlockDevice {
        /// Major number.
        major: u32,
        /// Minor number.
        minor: u32,
    },
    /// A named pipe.
    Fifo,
    /// A unix socket.
    Socket,
}

impl Special {
    /// The file-type bits of its mode.
    pub open spec fn kind_bits(self) -> u16 {
        match self {
            Special::CharDevice { .. } => dir::IFCHR,
            Special::BlockDevice { .. } => dir::IFBLK,
            Special::Fifo => dir::IFIFO,
            Special::Socket => dir::IFSOCK,
        }
    }

    /// Its device numbers, if it is a device.
    pub open spec fn numbers(self) -> Option<(u32, u32)> {
        match self {
            Special::CharDevice { major, minor } => Some((major, minor)),
            Special::BlockDevice { major, minor } => Some((major, minor)),
            Special::Fifo => None,
            Special::Socket => None,
        }
    }

    /// The file-type bits of its mode.
    pub fn mode_bits(&self) -> (bits: u16)
        ensures
            bits == self.kind_bits(),
    {
        match self {
            Special::CharDevice { .. } => dir::IFCHR,
            Special::BlockDevice { .. } => dir::IFBLK,
            Special::Fifo => dir::IFIFO,
            Special::Socket => dir::IFSOCK,
        }
    }

    /// Its device numbers, if it is a device.
    pub fn device(&self) -> (r: Option<(u32, u32)>)
        ensures
            r == self.numbers(),
    {
        match *self {
            Special::CharDevice { major, minor } => Some((major, minor)),
            Special::BlockDevice { major, minor } => Some((major, minor)),
            Special::Fifo => None,
            Special::Socket => None,
        }
    }
}

/// What an unpack did.
#[derive(Debug, Clone, Copy, PartialEq, Eq, Structural)]
pub struct UnpackReport {
    /// Regular files written.
    pub files: u64,
    /// Directories created or adjusted.
    pub directories: u64,
    /// Symbolic links created.
    pub symlinks: u64,
    /// Hard links created.
    pub hard_links: u64,
    /// Device nodes and FIFOs created.
    pub devices: u64,
    /// Extended attributes set.
    pub xattrs: u64,
    /// Bytes of file content written.
    pub bytes: u64,
    /// Names removed by whiteout markers.
    pub removed: u64,
}

impl Default for UnpackReport {
    fn default() -> (r: Self)
        ensures
            r == UnpackReport::nothing(),
    {
        UnpackReport {
            files: 0,
            directories: 0,
            symlinks: 0,
            hard_links: 0,
            devices: 0,
            xattrs: 0,
            bytes: 0,
            removed: 0,
        }
    }
}

impl UnpackReport {
    /// Nothing was done.
    pub open spec fn nothing() -> UnpackReport {
        UnpackReport {
            files: 0,
            directories: 0,
            symlinks: 0,
            hard_links: 0,
            devices: 0,
            xattrs: 0,
            bytes: 0,
            removed: 0,
        }
    }
}

/// What a pack did.
#[derive(Debug, Clone, Copy, PartialEq, Eq, Structural)]
pub struct PackReport {
    /// Regular files read out.
    pub files: u64,
    /// Directories.
    pub directories: u64,
    /// Symbolic links.
    pub symlinks: u64,
    /// Hard links — names beyond the first for one inode.
    pub hard_links: u64,
    /// Device nodes and FIFOs.
    pub devices: u64,
    /// Extended attributes carried across.
    pub xattrs: u64,
    /// Bytes of file content read.
    pub bytes: u64,
}

impl PackReport {
    /// Nothing was done.
    pub open spec fn nothing() -> PackReport {
        PackReport {
            files: 0,
            directories: 0,
            symlinks: 0,
            hard_links: 0,
            devices: 0,
            xattrs: 0,
            bytes: 0,
        }
    }
}

impl Default for PackReport {
    fn default() -> (r: Self)
        ensures
            r == PackReport::nothing(),
    {
        PackReport {
            files: 0,
            directories: 0,
            symlinks: 0,
            hard_links: 0,
            devices: 0,
            xattrs: 0,
            bytes: 0,
        }
    }
}

/// What a directory listing tells you about one name.
#[derive(Debug, PartialEq, Eq)]
pub struct Entry {
    /// The name.
    pub name: String,
    /// The inode it refers to.
    pub inode: u32,
    /// Whether it is a directory.
    pub is_dir: bool,
}

impl View for Entry {
    type V = (Seq<char>, u32, bool);

    open spec fn view(&self) -> (Seq<char>, u32, bool) {
        (self.name@, self.inode, self.is_dir)
    }
}

impl Clone for Entry {
    fn clone(&self) -> (r: Self)
        ensures
            r@ == self@,
    {
        Entry { name: self.name.clone(), inode: self.inode, is_dir: self.is_dir }
    }
}

/// What `stat` tells you about a file.
#[derive(Debug, Clone, Copy, PartialEq, Eq, Structural)]
pub struct Stat {
    /// Inode number.
    pub inode: u32,
    /// Size in bytes.
    pub size: u64,
    /// Mode, with the file type bits.
    pub mode: u16,
    /// Hard links.
    pub links: u16,
    /// Owner.
    pub uid: u32,
    /// Group.
    pub gid: u32,
    /// Blocks of 512 bytes.
    pub blocks: u64,
    /// Modification time, seconds since the epoch.
    pub mtime: u32,
}

impl Stat {
    /// Whether this is a directory.
    pub fn is_dir(&self) -> (r: bool)
        ensures
            r == (self.mode & dir::IFMT == dir::IFDIR),
    {
        self.mode & dir::IFMT == dir::IFDIR
    }

    /// Whether this is a regular file.
    pub fn is_file(&self) -> (r: bool)
        ensures
            r == (self.mode & dir::IFMT == dir::IFREG),
    {
        self.mode & dir::IFMT == dir::IFREG
    }
}

} // verus!
