//! Operations on names, carried out on a filesystem held in memory.

use std::collections::BTreeMap;

use fio_ext4::allocator::{Allocator, Geometry, Got, GroupDesc};
use fio_ext4::error::{Error, Result};
use fio_ext4::tar::{self, EntryKind, Header};
use fio_ext4::volume::inode::{Area, ROOT};
use fio_ext4::volume::ops::{
    check_directory, check_file, check_vacant, check_write, needs_block, Ascent, Climb, Occupant,
    Place,
};
use fio_ext4::volume::pack::{Findings, Walk, Wants};
use fio_ext4::volume::paths::{directories_along, join, split_path};
use fio_ext4::volume::removal::{apply_whiteout, Removal, Whiteout};
use fio_ext4::volume::unpack::{directory_steps, Job, Unpacking};
use fio_ext4::volume::{
    links, Attrs, Change, Entry, Features, Inode, PackReport, Special, Stat, UnpackReport, Volume,
    Xattr,
};

const NOW: u32 = 1_700_000_000;

struct Node {
    inode: Inode,
    data: Vec<u8>,
    area: Vec<u8>,
    device: (u32, u32),
    xattrs: Vec<Xattr>,
}

/// A filesystem of inodes and names, without blocks on a device.
struct Mem {
    vol: Volume,
    nodes: BTreeMap<u32, Node>,
    names: BTreeMap<(u32, Vec<u8>), u32>,
    parents: BTreeMap<u32, u32>,
    blocks: BTreeMap<u64, Vec<u8>>,
}

fn done<T>(got: Got<T>) -> T {
    match got {
        Got::Done(x) => x,
        Got::Unread(g) => panic!("group {g} has been read"),
    }
}

impl Mem {
    fn new() -> Mem {
        let geometry = Geometry {
            first_data_block: 0,
            blocks_count: 4096,
            blocks_per_group: 4096,
            inodes_count: 512,
            inodes_per_group: 512,
            first_ino: 11,
        };
        let desc = GroupDesc {
            free_blocks_count: 4095,
            free_inodes_count: 502,
            used_dirs_count: 1,
            itable_unused: 0,
            flags: 0,
        };
        let mut alloc = Allocator::new(geometry, vec![desc], 4095, 502);
        let mut blocks = vec![0u8; 512];
        blocks[0] = 1;
        alloc.load_block_bitmap(0, blocks);
        let mut inodes = vec![0u8; 64];
        inodes[0] = 0xff;
        inodes[1] = 3;
        alloc.load_inode_bitmap(0, inodes);
        let features = Features {
            block_size: 1024,
            extents: true,
            metadata_csum: true,
            filetype: true,
            dir_index: true,
        };
        assert!(features.is_valid());
        let root = Node {
            inode: Inode::new_directory(&Attrs::dir(), 1, true, 1024),
            data: Vec::new(),
            area: Vec::new(),
            device: (0, 0),
            xattrs: Vec::new(),
        };
        Mem {
            vol: Volume::new(alloc, features, NOW),
            nodes: BTreeMap::from([(ROOT, root)]),
            names: BTreeMap::new(),
            parents: BTreeMap::from([(ROOT, ROOT)]),
            blocks: BTreeMap::new(),
        }
    }

    fn resolve(&self, path: &str) -> Option<u32> {
        let mut at = ROOT;
        for part in path.split('/').filter(|p| !p.is_empty()) {
            at = *self.names.get(&(at, part.as_bytes().to_vec()))?;
        }
        Some(at)
    }

    fn lookup(&self, path: &str) -> Result<u32> {
        Volume::lookup(path, self.resolve(path))
    }

    fn inode(&self, inum: u32) -> Inode {
        self.nodes[&inum].inode
    }

    fn stat(&self, path: &str) -> Result<Stat> {
        let inum = self.lookup(path)?;
        Ok(self.inode(inum).stat(inum))
    }

    fn read(&self, path: &str) -> Result<Vec<u8>> {
        let inum = self.lookup(path)?;
        check_file(path, &self.inode(inum))?;
        Ok(self.nodes[&inum].data.clone())
    }

    fn entries(&self, dir: u32) -> Vec<Entry> {
        let of = |d: &u32| self.nodes[d].inode.is_dir();
        self.names
            .iter()
            .filter(|((d, _), _)| *d == dir)
            .map(|((_, n), i)| Entry {
                name: String::from_utf8(n.clone()).unwrap(),
                inode: *i,
                is_dir: of(i),
            })
            .collect()
    }

    fn read_dir(&self, path: &str) -> Result<Vec<Entry>> {
        let inum = self.lookup(path)?;
        check_directory(path, &self.inode(inum))?;
        Ok(self.entries(inum))
    }

    fn apply(&mut self, list: Vec<Change>) {
        for change in list {
            match change {
                Change::WriteDirectory { inum, parent, .. } => {
                    self.parents.insert(inum, parent);
                }
                Change::WriteBlock { block, contents } => {
                    self.blocks.insert(block, contents);
                }
                Change::Put { inum, inode, area } => {
                    let mut node = Node {
                        inode,
                        data: Vec::new(),
                        area: Vec::new(),
                        device: (0, 0),
                        xattrs: Vec::new(),
                    };
                    match area {
                        Area::Bytes(s) => node.area = s,
                        Area::Device(major, minor) => node.device = (major, minor),
                        Area::Blocks(list) if inode.is_symlink() => {
                            node.data = self.blocks[&list[0]].clone()
                        }
                        _ => {}
                    }
                    assert!(self.nodes.insert(inum, node).is_none(), "an inode used twice");
                }
                Change::Edit { inum, edit } => {
                    let node = self.nodes.get_mut(&inum).unwrap();
                    node.inode = node.inode.edited(edit, self.vol.now);
                }
                Change::Enter { dir, name, target } => {
                    assert!(self.names.insert((dir, name), target).is_none());
                }
                Change::Leave { dir, name } => {
                    assert!(self.names.remove(&(dir, name)).is_some());
                }
                Change::Repoint { dir, parent } => {
                    self.parents.insert(dir, parent);
                }
                Change::Empty { inum } => {
                    let node = self.nodes.get_mut(&inum).unwrap();
                    node.inode = node.inode.without_contents(1024, self.vol.now).0;
                    node.data.clear();
                }
                Change::DropAttributes { inum } => {
                    self.nodes.get_mut(&inum).unwrap().xattrs.clear();
                }
                Change::Free { inum, was_dir } => {
                    let node = self.nodes.remove(&inum).unwrap();
                    assert_eq!(node.inode.links_count, 0);
                    assert_eq!(node.inode.dtime, self.vol.now);
                    self.parents.remove(&inum);
                    done(self.vol.alloc.free_inode(inum, was_dir));
                }
            }
        }
    }

    /// Every count of links is what the names say.
    fn check(&self) {
        for (inum, node) in &self.nodes {
            let names = self.names.values().filter(|&i| i == inum).count();
            if node.inode.is_dir() {
                let below = self
                    .parents
                    .iter()
                    .filter(|(c, p)| *p == inum && **c != ROOT)
                    .count();
                assert_eq!(node.inode.links_count as usize, 2 + below, "directory {inum}");
                assert_eq!(names, (*inum != ROOT) as usize);
            } else {
                assert_eq!(node.inode.links_count as usize, names, "file {inum}");
            }
        }
        for ((dir, _), inum) in &self.names {
            assert!(self.nodes[dir].inode.is_dir());
            if self.nodes[inum].inode.is_dir() {
                assert_eq!(self.parents[inum], *dir);
            }
        }
        let free = self.vol.alloc.totals().1 as usize;
        assert_eq!(free, 502 - (self.nodes.len() - 1));
    }

    /// Where a new name goes.
    fn place(&self, path: &str) -> Result<(u32, String, Option<u32>)> {
        let (parent_path, name) = split_path(path)?;
        let parent = self.lookup(&parent_path)?;
        let existing = self.names.get(&(parent, name.as_bytes().to_vec())).copied();
        Ok((parent, name, existing))
    }

    fn new_inode(&mut self, parent: u32, name: &str, is_dir: bool) -> Result<u32> {
        Ok(done(self.vol.claim(parent, name, is_dir)?))
    }

    fn new_block(&mut self) -> Result<u64> {
        Ok(done(self.vol.alloc.alloc_block(0)?))
    }

    fn write_with(&mut self, path: &str, data: &[u8], attrs: &Attrs) -> Result<u32> {
        let (parent, name, existing) = self.place(path)?;
        let there = existing.map(|i| self.inode(i));
        let inum = if check_write(path, &there)? {
            let inum = existing.unwrap();
            self.apply(vec![Change::Empty { inum }]);
            inum
        } else {
            let inum = self.new_inode(parent, &name, false)?;
            let list = self.vol.create(parent, &name, inum, attrs)?;
            self.apply(list);
            inum
        };
        let now = self.vol.now;
        let node = self.nodes.get_mut(&inum).unwrap();
        node.data = data.to_vec();
        let blocks = data.len().div_ceil(1024) as u64;
        node.inode = node.inode.holding(data.len() as u64, blocks, 0, 1024, now);
        Ok(inum)
    }

    fn mkdir_with(&mut self, path: &str, attrs: &Attrs) -> Result<u32> {
        let (parent, name, existing) = self.place(path)?;
        check_vacant(path, existing)?;
        let inum = self.new_inode(parent, &name, true)?;
        let block = self.new_block()?;
        let list = self.vol.mkdir_with(parent, &name, inum, block, attrs)?;
        self.apply(list);
        Ok(inum)
    }

    fn mkdir_all(&mut self, path: &str) -> Result<()> {
        for dir in directories_along(path) {
            if self.resolve(&dir).is_none() {
                self.mkdir_with(&dir, &Attrs::dir())?;
            }
        }
        Ok(())
    }

    fn unlink(&mut self, path: &str) -> Result<()> {
        let (parent, name, _) = self.place(path)?;
        let inum = self.lookup(path)?;
        let list = Volume::unlink(path, parent, &name, inum, &self.inode(inum))?;
        self.apply(list);
        Ok(())
    }

    fn rmdir(&mut self, path: &str) -> Result<()> {
        let (parent, name, _) = self.place(path)?;
        let inum = self.lookup(path)?;
        let empty = self.entries(inum).is_empty();
        let list = Volume::rmdir(path, parent, &name, inum, &self.inode(inum), empty)?;
        self.apply(list);
        Ok(())
    }

    fn link(&mut self, existing: &str, path: &str) -> Result<u32> {
        let inum = self.lookup(existing)?;
        let (parent, name, there) = self.place(path)?;
        let inode = self.inode(inum);
        self.apply(Volume::link(existing, path, parent, &name, inum, &inode, there)?);
        Ok(inum)
    }

    fn inside(&self, ancestor: u32, of: u32) -> bool {
        let mut ascent = Ascent::new(ancestor, of);
        loop {
            match ascent.is_ancestor() {
                Climb::Found => return true,
                Climb::Missed => return false,
                Climb::At(at) => ascent.up(self.parents.get(&at).copied()),
            }
        }
    }

    fn rename(&mut self, from: &str, to: &str) -> Result<()> {
        let inum = self.lookup(from)?;
        let (from_dir, from_name, _) = self.place(from)?;
        let (to_dir, to_name, there) = self.place(to)?;
        let moving = self.inode(inum);
        let inside = moving.is_dir() && self.inside(inum, to_dir);
        let there = there.map(|i| Occupant {
            inum: i,
            inode: self.inode(i),
            empty: self.entries(i).is_empty(),
        });
        let from_place = Place { dir: from_dir, name: from_name };
        let to_place = Place { dir: to_dir, name: to_name };
        let list =
            Volume::rename(from, to, &from_place, &to_place, inum, &moving, inside, there)?;
        self.apply(list);
        Ok(())
    }

    fn symlink(&mut self, path: &str, target: &str) -> Result<u32> {
        let (parent, name, existing) = self.place(path)?;
        check_vacant(path, existing)?;
        let inum = self.new_inode(parent, &name, false)?;
        let block = if needs_block(target) { Some(self.new_block()?) } else { None };
        let list = self.vol.symlink(parent, &name, inum, target, block)?;
        self.apply(list);
        Ok(inum)
    }

    fn read_link(&self, path: &str) -> Result<String> {
        let inum = self.lookup(path)?;
        let node = &self.nodes[&inum];
        let stored = if links::read_link(path, &node.inode)? { &node.area } else { &node.data };
        Ok(links::target_text(stored, node.inode.size))
    }

    fn mknod(&mut self, path: &str, special: Special, attrs: &Attrs) -> Result<u32> {
        let (parent, name, existing) = self.place(path)?;
        check_vacant(path, existing)?;
        let inum = self.new_inode(parent, &name, false)?;
        let list = self.vol.mknod(parent, &name, inum, special, attrs)?;
        self.apply(list);
        Ok(inum)
    }

    fn remove_all(&mut self, path: &str) -> Result<()> {
        if !self.stat(path)?.is_dir() {
            return self.unlink(path);
        }
        let mut removal = Removal::new(path);
        while let Some(dir) = removal.next() {
            let entries = self.read_dir(&dir)?;
            for file in removal.listed(&entries) {
                self.unlink(&file)?;
            }
        }
        for dir in removal.directories() {
            self.rmdir(&dir)?;
        }
        Ok(())
    }

    fn whiteout(&mut self, unpacking: &mut Unpacking, dir: &str, name: &str) -> Result<()> {
        let (there, found) = match apply_whiteout(dir, name) {
            Whiteout::Opaque if self.resolve(dir).is_some() => (true, self.read_dir(dir)?),
            Whiteout::Opaque | Whiteout::Nothing => (false, Vec::new()),
            Whiteout::Remove(path) => (self.resolve(&path).is_some(), Vec::new()),
        };
        for path in unpacking.obey(dir, name, there, &found) {
            self.remove_all(&path)?;
        }
        Ok(())
    }

    fn job(&mut self, job: Job, data: &[u8], unpacking: Option<&mut Unpacking>) -> Result<()> {
        match job {
            Job::Whiteout { dir, name } => {
                self.whiteout(unpacking.unwrap(), &dir, &name)?;
            }
            Job::MakeParents(path) => self.mkdir_all(&path)?,
            Job::Directory { path, attrs } => {
                let existing = self.resolve(&path).map(|i| self.inode(i).is_dir());
                let (remove, create) = directory_steps(existing);
                if remove {
                    self.remove_all(&path)?;
                }
                if create {
                    self.mkdir_with(&path, &attrs)?;
                }
            }
            Job::Replace(path) => {
                if self.resolve(&path).is_some() {
                    self.remove_all(&path)?;
                }
            }
            Job::File { path, attrs } => {
                self.write_with(&path, data, &attrs)?;
            }
            Job::Symlink { path, target } => {
                self.symlink(&path, &target)?;
            }
            Job::HardLink { target, path } => {
                self.link(&target, &path)?;
            }
            Job::Special { path, special, attrs } => {
                self.mknod(&path, special, &attrs)?;
            }
            Job::Mode { path, mode } => {
                let inum = self.lookup(&path)?;
                self.apply(vec![Volume::chmod(inum, mode)]);
            }
            Job::Owner { path, uid, gid } => {
                let inum = self.lookup(&path)?;
                self.apply(vec![Volume::chown(inum, uid, gid)]);
            }
            Job::Attributes { path, list } => {
                let inum = self.lookup(&path)?;
                self.nodes.get_mut(&inum).unwrap().xattrs = list;
            }
            Job::Times { path, secs } => {
                let inum = self.lookup(&path)?;
                self.apply(vec![Volume::set_times(inum, secs)]);
            }
        }
        Ok(())
    }

    fn unpack(&mut self, archive: &[u8], dest: &str, whiteouts: bool) -> Result<UnpackReport> {
        let (mut unpacking, first) = Unpacking::new(dest, whiteouts);
        if let Some(dir) = first {
            self.mkdir_all(&dir)?;
        }
        for entry in tar::read(archive)? {
            for job in unpacking.entry(&entry.header) {
                self.job(job, &entry.data, Some(&mut unpacking))?;
            }
        }
        let (jobs, report) = unpacking.finish();
        for job in jobs {
            self.job(job, &[], None)?;
        }
        self.check();
        Ok(report)
    }

    fn pack(&self, root: &str) -> Result<(Vec<u8>, PackReport)> {
        let mut writer = tar::Writer::new(Vec::new());
        let mut walk = Walk::new(root);
        let top = walk.root.clone();
        walk.enter(&top, self.read_dir(&Walk::listing_path(&top))?);
        while let Some(path) = walk.next() {
            let stat = self.stat(&path)?;
            let node = &self.nodes[&stat.inode];
            match walk.visit(&path, &stat) {
                Err(header) => writer.append(&header, &[])?,
                Ok(wants) => {
                    let mut found = Findings {
                        xattrs: node.xattrs.clone(),
                        target: String::new(),
                        numbers: (0, 0),
                        size: 0,
                    };
                    let mut data = Vec::new();
                    match wants {
                        Wants::Children => {}
                        Wants::Target => found.target = self.read_link(&path)?,
                        Wants::Numbers => found.numbers = node.device,
                        Wants::Contents => {
                            data = self.read(&path)?;
                            found.size = data.len() as u64;
                        }
                    }
                    let header = walk.describe(&path, &stat, found);
                    writer.append(&header, &data)?;
                    if wants == Wants::Children {
                        walk.enter(&path, self.read_dir(&path)?);
                    }
                }
            }
        }
        writer.finish()?;
        Ok((writer.into_inner(), walk.report))
    }
}

fn archive(entries: &[(Header, &[u8])]) -> Vec<u8> {
    let mut writer = tar::Writer::new(Vec::new());
    for (header, data) in entries {
        writer.append(header, data).unwrap();
    }
    writer.finish().unwrap();
    writer.into_inner()
}

fn file(path: &str, mode: u16) -> Header {
    let mut h = Header::file(path, 0);
    h.mode = mode;
    h.mtime = NOW;
    h
}

fn dir(path: &str) -> Header {
    let mut h = Header::directory(path);
    h.mtime = NOW;
    h
}

fn of_kind(path: &str, kind: EntryKind) -> Header {
    let mut h = file(path, 0o644);
    h.kind = kind;
    h
}

fn text(e: Error) -> String {
    e.message()
}

#[test]
fn files_are_written_read_and_replaced_in_place() {
    let mut fs = Mem::new();
    let inum = fs.write_with("/hello.txt", b"Hello, world!", &Attrs::mode(0o600)).unwrap();
    assert_eq!(fs.read("/hello.txt").unwrap(), b"Hello, world!");
    let again = fs.write_with("/hello.txt", b"short", &Attrs::mode(0o777)).unwrap();
    assert_eq!(inum, again);
    let stat = fs.stat("/hello.txt").unwrap();
    // Replacing leaves permissions alone.
    assert_eq!(stat.mode, 0o100600);
    assert_eq!((stat.size, stat.blocks, stat.links, stat.mtime), (5, 2, 1, NOW));
    assert!(stat.is_file() && !stat.is_dir());
    fs.check();
}

#[test]
fn directories_are_made_listed_and_removed() {
    let mut fs = Mem::new();
    fs.mkdir_all("/etc/conf.d").unwrap();
    fs.mkdir_with("/tmp", &Attrs::mode(0o1777).owner(5, 6)).unwrap();
    fs.check();
    let stat = fs.stat("/tmp").unwrap();
    assert_eq!((stat.mode, stat.uid, stat.gid), (0o041777, 5, 6));
    assert_eq!((stat.size, stat.blocks), (1024, 2));
    assert_eq!(fs.stat("/").unwrap().links, 4);
    assert_eq!(fs.stat("/etc").unwrap().links, 3);
    let names: Vec<String> = fs.read_dir("/").unwrap().into_iter().map(|e| e.name).collect();
    assert_eq!(names, ["etc", "tmp"]);
    assert_eq!(text(fs.rmdir("/etc").unwrap_err()), "directory not empty: /etc");
    fs.rmdir("/etc/conf.d").unwrap();
    fs.rmdir("/etc").unwrap();
    assert_eq!(fs.stat("/").unwrap().links, 3);
    fs.check();
}

#[test]
fn the_obvious_mistakes_are_reported() {
    let mut fs = Mem::new();
    fs.mkdir_all("/d/e").unwrap();
    fs.write_with("/f", b"x", &Attrs::default()).unwrap();
    assert_eq!(text(fs.lookup("/none").unwrap_err()), "no such file or directory: /none");
    assert_eq!(text(fs.read("/d").unwrap_err()), "is a directory: /d");
    assert_eq!(text(fs.read_dir("/f").unwrap_err()), "not a directory: /f");
    assert_eq!(text(fs.unlink("/d").unwrap_err()), "is a directory: /d");
    assert_eq!(text(fs.rmdir("/f").unwrap_err()), "not a directory: /f");
    assert_eq!(text(fs.mkdir_with("/d", &Attrs::dir()).unwrap_err()), "already exists: /d");
    assert_eq!(text(fs.link("/d", "/g").unwrap_err()), "is a directory: /d");
    assert_eq!(text(fs.link("/f", "/d").unwrap_err()), "already exists: /d");
    assert_eq!(
        text(fs.write_with("/d", b"", &Attrs::default()).unwrap_err()),
        "is a directory: /d"
    );
    assert_eq!(text(fs.rmdir("/").unwrap_err()), "invalid path: /");
    assert_eq!(
        text(Volume::rmdir("/", 2, "x", ROOT, &fs.inode(ROOT), true).unwrap_err()),
        "invalid path: cannot remove the root directory"
    );
    assert_eq!(text(fs.read_link("/f").unwrap_err()), "invalid path: /f is not a symlink");
    assert_eq!(
        text(fs.rename("/d", "/d/e/x").unwrap_err()),
        "invalid path: cannot move /d inside itself"
    );
    assert_eq!(text(fs.rename("/f", "/d").unwrap_err()), "directory not empty: /d");
    fs.check();
}

#[test]
fn an_inode_goes_with_its_last_name() {
    let mut fs = Mem::new();
    fs.write_with("/a", b"data", &Attrs::default()).unwrap();
    let inum = fs.link("/a", "/b").unwrap();
    assert_eq!(fs.stat("/b").unwrap().links, 2);
    fs.unlink("/a").unwrap();
    assert_eq!(fs.read("/b").unwrap(), b"data");
    fs.check();
    fs.unlink("/b").unwrap();
    assert!(!fs.nodes.contains_key(&inum));
    fs.check();
}

#[test]
fn renaming_moves_names_and_links() {
    let mut fs = Mem::new();
    fs.mkdir_all("/a/sub").unwrap();
    fs.mkdir_all("/b").unwrap();
    fs.write_with("/a/f", b"1", &Attrs::default()).unwrap();
    fs.rename("/a/sub", "/b/moved").unwrap();
    fs.check();
    assert_eq!(fs.stat("/a").unwrap().links, 2);
    assert_eq!(fs.stat("/b").unwrap().links, 3);
    assert!(fs.resolve("/a/sub").is_none());
    // Onto an empty directory, onto a file, onto itself.
    fs.mkdir_all("/c").unwrap();
    fs.rename("/b/moved", "/c").unwrap();
    fs.check();
    fs.write_with("/g", b"2", &Attrs::default()).unwrap();
    fs.rename("/a/f", "/g").unwrap();
    assert_eq!(fs.read("/g").unwrap(), b"1");
    fs.rename("/g", "/g").unwrap();
    assert_eq!(fs.read("/g").unwrap(), b"1");
    fs.rename("/c", "/d").unwrap();
    fs.check();
}

#[test]
fn links_and_nodes_are_what_they_were_made() {
    let mut fs = Mem::new();
    let long = "t/".repeat(200);
    for (path, target) in [("/short", "usr/bin"), ("/edge", &"e".repeat(59)), ("/long", &long)] {
        fs.symlink(path, target).unwrap();
        assert_eq!(fs.read_link(path).unwrap(), target);
        assert_eq!(fs.stat(path).unwrap().mode, 0o120777);
    }
    assert_eq!(fs.stat("/short").unwrap().blocks, 0);
    assert_eq!(fs.stat("/long").unwrap().blocks, 2);
    assert!(needs_block(&"e".repeat(60)) && !needs_block(&"e".repeat(59)));
    let null = Special::CharDevice { major: 1, minor: 3 };
    let inum = fs.mknod("/null", null, &Attrs::mode(0o666)).unwrap();
    assert_eq!(fs.stat("/null").unwrap().mode, 0o020666);
    assert_eq!(fs.nodes[&inum].device, (1, 3));
    assert_eq!(fs.inode(inum).flags, 0);
    fs.mknod("/sock", Special::Socket, &Attrs::mode(0o170777)).unwrap();
    assert_eq!(fs.stat("/sock").unwrap().mode, 0o140777);
    fs.mknod("/sda", Special::BlockDevice { major: 8, minor: 0 }, &Attrs::default()).unwrap();
    assert_eq!(fs.stat("/sda").unwrap().mode, 0o060644);
    fs.mknod("/pipe", Special::Fifo, &Attrs::default()).unwrap();
    assert_eq!(fs.stat("/pipe").unwrap().mode, 0o010644);
    fs.check();
}

#[test]
fn permissions_owners_and_times_change_alone() {
    let mut fs = Mem::new();
    let inum = fs.write_with("/su", b"elf", &Attrs::default()).unwrap();
    fs.vol.set_time(7);
    fs.apply(vec![Volume::chmod(inum, 0o104755)]);
    assert_eq!(fs.stat("/su").unwrap().mode, 0o104755);
    assert_eq!(fs.inode(inum).ctime, 7);
    fs.apply(vec![Volume::chown(inum, 165536, 165537)]);
    fs.apply(vec![Volume::set_times(inum, 42)]);
    let inode = fs.inode(inum);
    assert_eq!((inode.uid, inode.gid), (165536, 165537));
    assert_eq!((inode.atime, inode.mtime, inode.ctime, inode.crtime), (42, 42, 42, NOW));
    assert_eq!(inode.size, 3);
}

#[test]
fn a_packed_tree_unpacks_as_it_was() {
    let mut fs = Mem::new();
    let mut owned = file("etc/hostname", 0o644);
    owned.uid = 1000;
    owned.gid = 1001;
    owned.xattrs = vec![("security.selinux".to_string(), b"etc_t".to_vec())];
    let mut null = of_kind("dev/null", EntryKind::CharDevice);
    null.mode = 0o666;
    null.major = 1;
    null.minor = 3;
    let mut bin = of_kind("bin", EntryKind::Symlink);
    bin.link = "usr/bin".to_string();
    let mut hard = of_kind("usr/bin/hi", EntryKind::HardLink);
    hard.link = "./usr/bin/hello".to_string();
    let mut usr = dir("usr");
    usr.mode = 0o750;
    usr.mtime = 99;
    usr.xattrs = vec![("user.k".to_string(), b"v".to_vec())];
    let source = archive(&[
        (dir("etc"), b""),
        (owned, b"router\n"),
        (usr, b""),
        (dir("usr/bin"), b""),
        (file("usr/bin/hello", 0o4755), b"#!/bin/sh\n"),
        (hard, b""),
        (dir("dev"), b""),
        (null, b""),
        (bin, b""),
    ]);
    let report = fs.unpack(&source, "/", false).unwrap();
    assert_eq!(
        report,
        UnpackReport {
            files: 2,
            directories: 4,
            symlinks: 1,
            hard_links: 1,
            devices: 1,
            xattrs: 2,
            bytes: 17,
            removed: 0,
        }
    );
    assert_eq!(fs.stat("/usr").unwrap().mtime, 99);
    assert_eq!(fs.stat("/usr").unwrap().mode, 0o040750);
    assert_eq!(fs.stat("/usr/bin/hi").unwrap().links, 2);

    let (out, packed) = fs.pack("/").unwrap();
    assert_eq!((packed.files, packed.directories, packed.hard_links), (2, 4, 1));
    assert_eq!((packed.symlinks, packed.devices, packed.xattrs, packed.bytes), (1, 1, 2, 17));
    let mut copy = Mem::new();
    copy.unpack(&out, "/srv/root/", false).unwrap();
    let (again, _) = copy.pack("/srv/root").unwrap();
    assert_eq!(out, again, "a tree that went through an archive is another tree");
    let back = tar::read(&out).unwrap();
    let find = |path: &str| back.iter().find(|e| e.header.path == path).unwrap();
    assert_eq!(find("usr/bin/hello").header.mode, 0o4755);
    assert_eq!(find("etc/hostname").header.uid, 1000);
    assert_eq!(find("etc/hostname").data, b"router\n");
    assert_eq!(find("bin").header.link, "usr/bin");
    assert_eq!(find("usr/bin/hi").header.link, "usr/bin/hello");
    assert_eq!((find("dev/null").header.major, find("dev/null").header.minor), (1, 3));
}

#[test]
fn names_come_out_sorted_and_depth_first() {
    let mut fs = Mem::new();
    let source = archive(&[
        (dir("b"), b""),
        (dir("a"), b""),
        (dir("a/z"), b""),
        (file("a/z/deep", 0o644), b"x"),
        (file("a/m", 0o644), b"x"),
        (file("b/only", 0o644), b"x"),
    ]);
    fs.unpack(&source, "/", false).unwrap();
    let names: Vec<String> = tar::read(&fs.pack("/").unwrap().0)
        .unwrap()
        .into_iter()
        .map(|e| e.header.path)
        .collect();
    assert_eq!(names, ["a", "a/m", "a/z", "a/z/deep", "b", "b/only"]);
}

#[test]
fn replaced_files_inherit_nothing() {
    let mut fs = Mem::new();
    let mut lower = file("etc/shadow", 0o600);
    lower.xattrs = vec![("user.layer".to_string(), b"one".to_vec())];
    fs.unpack(&archive(&[(dir("etc"), b""), (lower, b"root:!:\n")]), "/", false).unwrap();
    let mut upper = file("etc/shadow", 0o644);
    upper.uid = 1234;
    fs.unpack(&archive(&[(upper, b"replaced\n")]), "/", false).unwrap();
    let stat = fs.stat("/etc/shadow").unwrap();
    assert_eq!((stat.mode & 0o7777, stat.uid), (0o644, 1234));
    assert!(fs.nodes[&stat.inode].xattrs.is_empty());
    assert_eq!(fs.read("/etc/shadow").unwrap(), b"replaced\n");
}

#[test]
fn replaced_directories_lose_their_labels_and_keep_their_names() {
    let mut fs = Mem::new();
    let mut lower = dir("etc");
    lower.mode = 0o700;
    lower.xattrs = vec![("user.layer".to_string(), b"one".to_vec())];
    fs.unpack(&archive(&[(lower, b""), (file("etc/a", 0o600), b"")]), "/", false).unwrap();
    fs.unpack(&archive(&[(dir("etc"), b"")]), "/", false).unwrap();
    let stat = fs.stat("/etc").unwrap();
    assert_eq!(stat.mode & 0o7777, 0o755);
    assert!(fs.nodes[&stat.inode].xattrs.is_empty());
    assert!(fs.resolve("/etc/a").is_some());
    // A directory that was a file changes kind.
    fs.unpack(&archive(&[(dir("etc/a"), b"")]), "/", false).unwrap();
    assert!(fs.stat("/etc/a").unwrap().is_dir());
}

#[test]
fn layers_delete_what_they_white_out() {
    let mut fs = Mem::new();
    let lower = archive(&[
        (dir("keep"), b""),
        (file("keep/a", 0o644), b"a"),
        (file("keep/b", 0o644), b"b"),
        (dir("wiped"), b""),
        (dir("wiped/deep"), b""),
        (file("wiped/deep/old", 0o644), b"old"),
        (file("wiped/x", 0o644), b"x"),
    ]);
    fs.unpack(&lower, "/", true).unwrap();
    let upper = archive(&[
        (file("keep/.wh.a", 0o644), b""),
        (file("keep/.wh.missing", 0o644), b""),
        (file("wiped/.wh..wh..opq", 0o644), b""),
        (file("wiped/.wh..wh.plnk", 0o644), b""),
        (file("nowhere/.wh..wh..opq", 0o644), b""),
        (file("wiped/new", 0o644), b"new"),
    ]);
    let report = fs.unpack(&upper, "/", true).unwrap();
    assert_eq!((report.removed, report.files), (3, 1));
    assert!(fs.resolve("/keep/a").is_none() && fs.resolve("/keep/b").is_some());
    let names: Vec<String> = fs.read_dir("/wiped").unwrap().into_iter().map(|e| e.name).collect();
    assert_eq!(names, ["new"]);
    assert!(fs.resolve("/nowhere").is_none());
}

#[test]
fn outside_layers_a_marker_is_just_a_name() {
    let mut fs = Mem::new();
    let source = archive(&[(file("a", 0o644), b"a"), (file(".wh.a", 0o644), b"odd")]);
    let report = fs.unpack(&source, "/", false).unwrap();
    assert_eq!((report.files, report.removed), (2, 0));
    assert_eq!(fs.read("/.wh.a").unwrap(), b"odd");
    assert_eq!(fs.read("/a").unwrap(), b"a");
}

#[test]
fn a_subtree_is_removed_from_the_leaves_up() {
    let mut fs = Mem::new();
    fs.mkdir_all("/t/a/b/c").unwrap();
    fs.mkdir_all("/t/d").unwrap();
    for path in ["/t/f", "/t/a/g", "/t/a/b/c/h"] {
        fs.write_with(path, b"", &Attrs::default()).unwrap();
    }
    fs.remove_all("/t").unwrap();
    fs.check();
    assert!(fs.read_dir("/").unwrap().is_empty());
}

#[test]
fn a_climb_gives_up_on_a_loop() {
    let mut ascent = Ascent::new(50, 60);
    let mut steps = 0;
    loop {
        match ascent.is_ancestor() {
            Climb::At(at) => {
                steps += 1;
                ascent.up(Some(if at == 60 { 61 } else { 60 }));
            }
            other => {
                assert_eq!(other, Climb::Missed);
                break;
            }
        }
    }
    assert_eq!(steps, 4096);
    let mut ascent = Ascent::new(50, 60);
    ascent.up(Some(60));
    assert_eq!(ascent.is_ancestor(), Climb::Missed);
    let mut ascent = Ascent::new(50, 60);
    ascent.up(None);
    assert_eq!(ascent.is_ancestor(), Climb::Missed);
    assert_eq!(Ascent::new(60, 60).is_ancestor(), Climb::Found);
    assert_eq!(Ascent::new(60, ROOT).is_ancestor(), Climb::Missed);
}

#[test]
fn a_directory_marked_as_a_tree_changes_in_nothing_else() {
    let inode = Inode::new_directory(&Attrs::dir(), NOW, true, 4096);
    assert!(!inode.is_indexed());
    let marked = inode.as_index();
    assert!(marked.is_indexed());
    assert!(marked.is_dir());
    assert_eq!(marked.flags, inode.flags | 0x1000);
    assert_eq!((marked.size, marked.blocks), (inode.size, inode.blocks));
    assert!(marked.as_index() == marked);
}

#[test]
fn blocks_too_big_for_a_record_are_not_laid_out() {
    let mut features = Features {
        block_size: 65536,
        extents: true,
        metadata_csum: true,
        filetype: true,
        dir_index: true,
    };
    assert!(features.is_valid());
    features.metadata_csum = false;
    assert!(!features.is_valid());
    features.block_size = 32768;
    assert!(features.is_valid());
    features.block_size = 63;
    assert!(!features.is_valid());
}

#[test]
fn a_report_counts_as_far_as_it_can() {
    let (mut unpacking, _) = Unpacking::new("/", false);
    let mut header = file("f", 0o644);
    header.size = 2;
    assert!(unpacking.can_count(&header));
    unpacking.report.bytes = u64::MAX - 2;
    assert!(unpacking.can_count(&header));
    unpacking.report.bytes = u64::MAX - 1;
    assert!(!unpacking.can_count(&header));

    let mut walk = Walk::new("/");
    let found = Findings {
        xattrs: Vec::new(),
        target: String::new(),
        numbers: (0, 0),
        size: 2,
    };
    walk.report.bytes = u64::MAX - 2;
    assert!(walk.can_count(&found));
    walk.report.bytes = u64::MAX - 1;
    assert!(!walk.can_count(&found));
}

#[test]
fn a_name_that_cannot_be_entered_costs_nothing() {
    let mut fs = Mem::new();
    let long = format!("/{}", "x".repeat(256));
    let before = fs.vol.alloc.totals();
    let invalid = |r: Result<u32>| matches!(r, Err(Error::InvalidName(_)));
    assert!(invalid(fs.write_with(&long, b"data", &Attrs::default())));
    assert!(invalid(fs.mkdir_with(&long, &Attrs::dir())));
    assert!(invalid(fs.symlink(&long, "target")));
    assert!(invalid(fs.mknod(&long, Special::Fifo, &Attrs::default())));
    assert_eq!(fs.vol.alloc.totals(), before);
    assert!(fs.read_dir("/").unwrap().is_empty());
    let vol = &fs.vol;
    let name = "x".repeat(256);
    assert!(vol.create(ROOT, &name, 12, &Attrs::default()).is_err());
    assert!(vol.mkdir_with(ROOT, &name, 12, 5, &Attrs::dir()).is_err());
    assert!(vol.mknod(ROOT, &name, 12, Special::Fifo, &Attrs::default()).is_err());
    assert!(vol.symlink(ROOT, &name, 12, "t", None).is_err());
    fs.check();
}

#[test]
fn a_file_keeps_its_block_of_attributes_counted() {
    let mut inode = Inode::new_file(&Attrs::default(), NOW, true);
    inode.file_acl = 77;
    inode.blocks = 2;
    let held = inode.holding(3000, 3, 1, 1024, NOW);
    assert_eq!(held.blocks, (3 + 1 + 1) * 2);
    let (emptied, _) = held.without_contents(1024, NOW);
    assert_eq!(emptied.blocks, 2);
    assert_eq!(emptied.drop_attributes(1024).1.blocks, 0);
    inode.file_acl = 0;
    assert_eq!(inode.holding(3000, 3, 1, 1024, NOW).blocks, 8);
}

#[test]
fn a_later_file_is_not_treated_as_the_directory_it_replaced() {
    let mut fs = Mem::new();
    let mut was = dir("p");
    was.mode = 0o700;
    was.uid = 7;
    was.xattrs = vec![("user.label".into(), b"old".to_vec())];
    let mut below = dir("p/q");
    below.mode = 0o711;
    let mut now = file("p", 0o644);
    now.uid = 3;
    let archive = archive(&[(was, b""), (below, b""), (now, b"new")]);
    let report = fs.unpack(&archive, "/", false).unwrap();
    let stat = fs.stat("/p").unwrap();
    assert!(stat.is_file());
    assert_eq!((stat.mode & 0o7777, stat.uid), (0o644, 3));
    assert_eq!(fs.read("/p").unwrap(), b"new");
    assert!(fs.nodes[&stat.inode].xattrs.is_empty());
    assert_eq!(report.xattrs, 0);
    fs.check();
}

#[test]
fn an_opaque_marker_forgets_what_was_put_off_below() {
    let (mut unpacking, _) = Unpacking::new("/", true);
    unpacking.entry(&dir("a"));
    unpacking.entry(&dir("a/b"));
    unpacking.entry(&dir("ab"));
    unpacking.entry(&file("a/.wh..wh..opq", 0));
    let paths: Vec<String> = unpacking.deferred.iter().map(|d| d.path.clone()).collect();
    assert_eq!(paths, ["/a", "/ab"]);
    unpacking.entry(&file(".wh.ab", 0));
    assert_eq!(unpacking.deferred.len(), 1);
    // However it is spelled.
    unpacking.entry(&file("a//", 0));
    assert!(unpacking.deferred.is_empty());
}

#[test]
fn a_symlink_has_no_attributes_to_count() {
    let mut walk = Walk::new("/");
    let stat = Stat {
        inode: 12,
        size: 1,
        mode: 0o120777,
        links: 1,
        uid: 0,
        gid: 0,
        blocks: 0,
        mtime: 0,
    };
    let found = || Findings {
        xattrs: vec![Xattr::new("user.a", b"1"), Xattr::new("user.b", b"2")],
        target: "t".into(),
        numbers: (0, 0),
        size: 0,
    };
    let header = walk.describe("/l", &stat, found());
    assert!(header.xattrs.is_empty());
    assert_eq!(walk.report.xattrs, 0);
    let stat = Stat { mode: 0o100644, ..stat };
    assert_eq!(walk.describe("/f", &stat, found()).xattrs.len(), 2);
    assert_eq!(walk.report.xattrs, 2);
}

#[test]
fn obeying_a_marker_counts_what_goes() {
    let (mut unpacking, _) = Unpacking::new("/", true);
    let found: Vec<Entry> = ["lib", "log"]
        .iter()
        .map(|name| Entry {
            name: name.to_string(),
            inode: 12,
            is_dir: true,
        })
        .collect();
    let none = Vec::new();
    assert_eq!(unpacking.obey("/var", ".wh..wh..opq", true, &found), ["/var/lib", "/var/log"]);
    assert_eq!(unpacking.report.removed, 2);
    assert!(unpacking.obey("/var", ".wh..wh..opq", false, &none).is_empty());
    assert_eq!(unpacking.obey("/etc", ".wh.drop", true, &none), ["/etc/drop"]);
    assert_eq!(unpacking.report.removed, 3);
    assert!(unpacking.obey("/etc", ".wh.gone", false, &none).is_empty());
    assert!(unpacking.obey("/etc", ".wh..wh.plnk", true, &found).is_empty());
    assert_eq!(unpacking.finish().1.removed, 3);
}

#[test]
fn a_directory_is_not_linked() {
    let mut fs = Mem::new();
    fs.mkdir_with("/d", &Attrs::dir()).unwrap();
    fs.write_with("/f", b"", &Attrs::default()).unwrap();
    assert!(matches!(fs.link("/d", "/e"), Err(Error::IsADirectory(p)) if p == "/d"));
    assert!(matches!(fs.link("/d", "/f"), Err(Error::IsADirectory(p)) if p == "/d"));
    assert!(matches!(fs.link("/f", "/d"), Err(Error::AlreadyExists(p)) if p == "/d"));
    let long = format!("/{}", "x".repeat(256));
    assert!(matches!(fs.link("/f", &long), Err(Error::InvalidName(_))));
    assert_eq!(fs.stat("/f").unwrap().links, 1);
    fs.check();
}

#[test]
fn the_last_entry_stands_over_whatever_was_there() {
    let mut fs = Mem::new();
    fs.mkdir_all("/d/e").unwrap();
    fs.write_with("/d/f", b"old", &Attrs::mode(0o777)).unwrap();
    fs.write_with("/x", b"old", &Attrs::mode(0o777)).unwrap();
    let mut d1 = dir("d");
    d1.mode = 0o700;
    d1.xattrs = vec![("user.first".into(), b"1".to_vec())];
    let mut d2 = dir("d");
    d2.mode = 0o751;
    d2.uid = 9;
    let mut f = file("d/f", 0o640);
    f.gid = 8;
    f.xattrs = vec![("user.a".into(), b"1".to_vec())];
    let x = dir("x");
    let y = file("x/y", 0o600);
    let archive = archive(&[
        (d1, b""),
        (file("d/f", 0o600), b"first"),
        (f, b"second"),
        (d2, b""),
        (x, b""),
        (y, b"in"),
    ]);
    fs.unpack(&archive, "/", false).unwrap();
    let stat = fs.stat("/d").unwrap();
    assert_eq!((stat.mode & 0o7777, stat.uid), (0o751, 9));
    assert!(fs.nodes[&stat.inode].xattrs.is_empty());
    let stat = fs.stat("/d/f").unwrap();
    assert_eq!((stat.mode & 0o7777, stat.gid), (0o640, 8));
    assert_eq!(fs.read("/d/f").unwrap(), b"second");
    assert_eq!(fs.nodes[&stat.inode].xattrs.len(), 1);
    assert!(fs.stat("/d/e").unwrap().is_dir());
    assert!(fs.stat("/x").unwrap().is_dir());
    assert_eq!(fs.read("/x/y").unwrap(), b"in");
    fs.check();
}
