//! Reading a tree out into an archive: which names, in which order, and what
//! is said of each.

use std::collections::BTreeMap;

use vstd::prelude::*;

use crate::bytes;
use crate::dir;
use crate::sort::{self, Ranked};
use crate::tar::field;
use crate::tar::header::{EntryKind, Header, HeaderView};
use crate::text;
use crate::volume::paths;
use crate::volume::removal;
use crate::volume::types::{Entry, PackReport, Stat};
use crate::volume::xattrs::{self, Xattr};

verus! {

/// A name of a directory, and where in its listing it stood.
#[derive(Debug)]
pub struct Child {
    /// The entry.
    pub entry: Entry,
    /// Where it stood.
    pub index: usize,
}

/// Whether a name stands behind another, or is the same and stood in front.
pub open spec fn later_name(a: Seq<char>, i: int, b: Seq<char>, j: int) -> bool {
    if a == b {
        i <= j
    } else {
        bytes::sorts_before(text::utf8(b), text::utf8(a))
    }
}

proof fn lemma_utf8_same(a: Seq<char>, b: Seq<char>)
    requires
        text::utf8(a) == text::utf8(b),
    ensures
        a == b,
{
    vstd::utf8::encode_utf8_decode_utf8(a);
    vstd::utf8::encode_utf8_decode_utf8(b);
}

impl Ranked for Child {
    open spec fn ranks(&self, other: &Self) -> bool {
        later_name(self.entry.name@, self.index as int, other.entry.name@, other.index as int)
    }

    proof fn ranks_total(a: &Self, b: &Self) {
        let x = a.entry.name@;
        let y = b.entry.name@;
        if x != y {
            bytes::lemma_order_total(text::utf8(x), text::utf8(y));
            if text::utf8(x) == text::utf8(y) {
                lemma_utf8_same(x, y);
            }
        }
    }

    proof fn ranks_transitive(a: &Self, b: &Self, c: &Self) {
        let x = text::utf8(a.entry.name@);
        let y = text::utf8(b.entry.name@);
        let z = text::utf8(c.entry.name@);
        if bytes::sorts_before(z, y) && bytes::sorts_before(y, x) {
            bytes::lemma_order_transitive(z, y, x);
            bytes::lemma_order_irreflexive(x);
        }
    }

    fn goes_first(&self, other: &Self) -> (r: bool) {
        let a: &str = self.entry.name.as_str();
        let b: &str = other.entry.name.as_str();
        if text::same_text(a, b) {
            self.index <= other.index
        } else {
            bytes::is_before(b.as_bytes(), a.as_bytes())
        }
    }
}

/// Whether `out` is `entries` with the last name first, entries of one name in
/// the order they were in. `from` says where each stood.
pub open spec fn reordered(
    entries: Seq<(Seq<char>, u32, bool)>,
    out: Seq<(Seq<char>, u32, bool)>,
    from: Seq<int>,
) -> bool {
    &&& out.len() == entries.len()
    &&& from.len() == entries.len()
    &&& from.no_duplicates()
    &&& forall|i: int|
        0 <= i < out.len() ==> 0 <= #[trigger] from[i] < entries.len() && out[i]
            == entries[from[i]]
    &&& forall|i: int, j: int|
        #![trigger out[i], out[j]]
        0 <= i < j < out.len() ==> later_name(out[i].0, from[i], out[j].0, from[j])
}

/// A directory's names, sorted and reversed, ready to be popped in order.
pub fn sorted_children(entries: Vec<Entry>) -> (out: Vec<Entry>)
    ensures
        exists|from: Seq<int>| #[trigger]
            reordered(removal::entries_view(entries@), removal::entries_view(out@), from),
{
    let mut list: Vec<Child> = Vec::new();
    let mut i: usize = 0;
    while i < entries.len()
        invariant
            i <= entries@.len(),
            list@.len() == i,
            forall|k: int|
                0 <= k < i ==> (#[trigger] list@[k]).index == k && list@[k].entry@
                    == entries@[k]@,
        decreases entries.len() - i,
    {
        list.push(Child { entry: entries[i].clone(), index: i });
        i += 1;
    }
    let ghost before = list@;
    let list: Vec<Child> = sort::sorted(list);
    let ghost from = Seq::new(list@.len(), |k: int| list@[k].index as int);
    proof {
        assert(before.no_duplicates()) by {
            assert forall|a: int, b: int| 0 <= a < before.len() && 0 <= b < before.len() && a
                != b implies before[a] != before[b] by {
                assert(before[a].index != before[b].index);
            }
        }
        before.lemma_multiset_has_no_duplicates();
        list@.lemma_multiset_has_no_duplicates_conv();
        lemma_same_things(before, list@);
        assert forall|k: int| 0 <= k < list@.len() implies 0 <= #[trigger] from[k]
            < before.len() && list@[k] == before[from[k]] by {
            assert(before.contains(list@[k]));
        }
        assert(from.no_duplicates()) by {
            assert forall|a: int, b: int| 0 <= a < from.len() && 0 <= b < from.len() && a
                != b implies from[a] != from[b] by {
                if from[a] == from[b] {
                    assert(list@[a] == before[from[a]] && list@[b] == before[from[b]]);
                }
            }
        }
    }
    let mut out: Vec<Entry> = Vec::new();
    let mut k: usize = 0;
    while k < list.len()
        invariant
            k <= list@.len(),
            out@.len() == k,
            forall|j: int| 0 <= j < k ==> (#[trigger] out@[j])@ == list@[j].entry@,
        decreases list.len() - k,
    {
        out.push(list[k].entry.clone());
        k += 1;
    }
    proof {
        let a = removal::entries_view(entries@);
        let b = removal::entries_view(out@);
        assert forall|i: int, j: int| 0 <= i < j < b.len() implies later_name(
            (#[trigger] b[i]).0,
            from[i],
            (#[trigger] b[j]).0,
            from[j],
        ) by {
            assert(list@[i].ranks(&list@[j]));
        }
        assert forall|i: int| 0 <= i < b.len() implies 0 <= #[trigger] from[i] < a.len() && b[i]
            == a[from[i]] by {
            assert(list@[i] == before[from[i]]);
        }
        assert(reordered(a, b, from));
    }
    out
}

proof fn lemma_same_things(a: Seq<Child>, b: Seq<Child>)
    requires
        a.to_multiset() == b.to_multiset(),
    ensures
        a.len() == b.len(),
        forall|k: int| 0 <= k < b.len() ==> a.contains(#[trigger] b[k]),
{
    broadcast use vstd::seq_lib::group_to_multiset_ensures;

    assert(a.len() == a.to_multiset().len() && b.len() == b.to_multiset().len());
    assert forall|k: int| 0 <= k < b.len() implies a.contains(#[trigger] b[k]) by {
        assert(b.contains(b[k]));
        assert(b.to_multiset().count(b[k]) > 0);
    }
}

/// A directory being read out, and what is left of its names, the next one
/// last.
pub type Level = (String, Vec<Entry>);

/// Levels as the contracts speak of them.
pub open spec fn levels_view(stack: Seq<Level>) -> Seq<(Seq<char>, Seq<(Seq<char>, u32, bool)>)> {
    stack.map_values(|l: Level| (l.0@, removal::entries_view(l.1@)))
}

/// Levels without those at the end that have no names left.
pub open spec fn unfinished(stack: Seq<(Seq<char>, Seq<(Seq<char>, u32, bool)>)>) -> Seq<
    (Seq<char>, Seq<(Seq<char>, u32, bool)>),
>
    decreases stack.len(),
{
    if stack.len() > 0 && stack.last().1.len() == 0 {
        unfinished(stack.drop_last())
    } else {
        stack
    }
}

/// Inodes and the names they were written under, as the contracts speak of
/// them.
pub open spec fn seen_view(seen: Map<u32, String>) -> Map<u32, Seq<char>> {
    seen.map_values(|s: String| s@)
}

/// A tree being read out.
#[derive(Debug)]
pub struct Walk {
    /// Its root, without separators at the end.
    pub root: String,
    /// The directories from the root to where the walk is.
    pub stack: Vec<Level>,
    /// Inodes already written, so that the second name for one becomes a hard
    /// link rather than a second copy of the contents.
    pub seen: BTreeMap<u32, String>,
    /// What was done.
    pub report: PackReport,
}

/// What is still to be found out about a name before it can be written.
#[derive(Debug, Clone, Copy, PartialEq, Eq, Structural)]
pub enum Wants {
    /// The names in it.
    Children,
    /// Where it points.
    Target,
    /// Its device numbers.
    Numbers,
    /// Its contents.
    Contents,
}

/// What is still to be found out about something of this mode.
pub open spec fn wants(mode: u16) -> Wants {
    let kind = mode & dir::IFMT;
    if kind == dir::IFDIR {
        Wants::Children
    } else if kind == dir::IFLNK {
        Wants::Target
    } else if kind == dir::IFCHR || kind == dir::IFBLK || kind == dir::IFIFO || kind
        == dir::IFSOCK {
        Wants::Numbers
    } else {
        Wants::Contents
    }
}

/// What a name is, from its mode.
pub open spec fn kind_of(mode: u16) -> EntryKind {
    let kind = mode & dir::IFMT;
    if kind == dir::IFDIR {
        EntryKind::Directory
    } else if kind == dir::IFLNK {
        EntryKind::Symlink
    } else if kind == dir::IFCHR {
        EntryKind::CharDevice
    } else if kind == dir::IFBLK {
        EntryKind::BlockDevice
    } else if kind == dir::IFIFO || kind == dir::IFSOCK {
        EntryKind::Fifo
    } else {
        EntryKind::File
    }
}

/// What was found out about a name.
#[derive(Debug)]
pub struct Findings {
    /// Its extended attributes.
    pub xattrs: Vec<Xattr>,
    /// Where it points, if it is a symbolic link.
    pub target: String,
    /// Its device numbers, if it is a special file.
    pub numbers: (u32, u32),
    /// How long its contents are, if it is a file.
    pub size: u64,
}

/// What is written of a name that is not the first for its inode.
pub open spec fn link_header(name: Seq<char>, target: Seq<char>, stat: Stat) -> HeaderView {
    HeaderView {
        uid: stat.uid,
        gid: stat.gid,
        mtime: stat.mtime,
        link: target,
        ..HeaderView::plain(name, EntryKind::HardLink, stat.mode & 0o7777)
    }
}

/// What is written of a name.
pub open spec fn described(
    name: Seq<char>,
    stat: Stat,
    attrs: Seq<(Seq<char>, Seq<u8>)>,
    target: Seq<char>,
    numbers: (u32, u32),
    size: u64,
) -> HeaderView {
    let h = HeaderView {
        uid: stat.uid,
        gid: stat.gid,
        mtime: stat.mtime,
        ..HeaderView::plain(name, kind_of(stat.mode), stat.mode & 0o7777)
    };
    match wants(stat.mode) {
        Wants::Children => HeaderView { xattrs: attrs, ..h },
        Wants::Target => HeaderView { link: target, ..h },
        Wants::Numbers => HeaderView {
            xattrs: attrs,
            major: numbers.0,
            minor: numbers.1,
            ..h
        },
        Wants::Contents => HeaderView { xattrs: attrs, size, ..h },
    }
}

/// A report with a name counted. A symbolic link's attributes are not carried
/// across, and so not counted.
pub open spec fn counted(r: PackReport, stat: Stat, attrs: nat, size: u64) -> PackReport {
    let r = PackReport {
        xattrs: (r.xattrs + (if wants(stat.mode) is Target {
            0
        } else {
            attrs
        })) as u64,
        ..r
    };
    match wants(stat.mode) {
        Wants::Children => PackReport { directories: (r.directories + 1) as u64, ..r },
        Wants::Target => PackReport { symlinks: (r.symlinks + 1) as u64, ..r },
        Wants::Numbers => PackReport { devices: (r.devices + 1) as u64, ..r },
        Wants::Contents => PackReport {
            files: (r.files + 1) as u64,
            bytes: (r.bytes + size) as u64,
            ..r
        },
    }
}

/// Whether a report's counters have room for a name.
pub open spec fn has_room(r: PackReport, attrs: nat, size: u64) -> bool {
    &&& r.files < u64::MAX
    &&& r.directories < u64::MAX
    &&& r.symlinks < u64::MAX
    &&& r.hard_links < u64::MAX
    &&& r.devices < u64::MAX
    &&& r.bytes + size <= u64::MAX
    &&& r.xattrs + attrs <= u64::MAX
}

/// Inodes written, once a name has been visited.
pub open spec fn seen_after(seen: Map<u32, Seq<char>>, name: Seq<char>, stat: Stat) -> Map<
    u32,
    Seq<char>,
> {
    if !seen.contains_key(stat.inode) && stat.links > 1 && stat.mode & dir::IFMT != dir::IFDIR {
        seen.insert(stat.inode, name)
    } else {
        seen
    }
}

/// The name an inode was written under.
fn written_as(seen: &BTreeMap<u32, String>, inum: u32) -> (r: Option<String>)
    ensures
        match r {
            Some(name) => seen_view(seen@).contains_key(inum) && seen_view(seen@)[inum] == name@,
            None => !seen_view(seen@).contains_key(inum),
        },
{
    broadcast use vstd::std_specs::btree::group_btree_axioms;
    broadcast use vstd::laws_cmp::group_laws_cmp;

    match seen.get(&inum) {
        Some(name) => Some(name.clone()),
        None => None,
    }
}

/// Note the name an inode was written under.
fn note_written(seen: &mut BTreeMap<u32, String>, inum: u32, name: String)
    ensures
        seen_view(final(seen)@) == seen_view(old(seen)@).insert(inum, name@),
{
    broadcast use vstd::std_specs::btree::group_btree_axioms;
    broadcast use vstd::laws_cmp::group_laws_cmp;

    seen.insert(inum, name);
    assert(seen_view(seen@) =~= seen_view(old(seen)@).insert(inum, name@));
}

impl Walk {
    /// Start reading out a tree.
    pub fn new(root: &str) -> (r: Self)
        ensures
            r.root@ == field::without_trailing(root@),
            r.stack@.len() == 0,
            r.seen@ == Map::<u32, String>::empty(),
            r.report == PackReport::nothing(),
    {
        Walk {
            root: paths::trim_end(root),
            stack: Vec::new(),
            seen: BTreeMap::new(),
            report: PackReport::default(),
        }
    }

    /// The path under which a directory of the walk is listed.
    pub fn listing_path(dir: &str) -> (path: String)
        ensures
            path@ == (if dir@.len() == 0 {
                seq!['/']
            } else {
                dir@
            }),
    {
        if text::chars_of(dir).len() == 0 {
            let mut root: String = String::new();
            root.push('/');
            assert(root@ =~= seq!['/']);
            root
        } else {
            dir.to_owned()
        }
    }

    /// Go into a directory, which holds these names.
    pub fn enter(&mut self, dir: &str, entries: Vec<Entry>)
        ensures
            final(self).root@ == old(self).root@,
            final(self).seen@ == old(self).seen@,
            final(self).report == old(self).report,
            exists|rest: Seq<(Seq<char>, u32, bool)>, from: Seq<int>| #[trigger]
                reordered(removal::entries_view(entries@), rest, from) && levels_view(
                    final(self).stack@,
                ) == levels_view(old(self).stack@).push((dir@, rest)),
    {
        let rest: Vec<Entry> = sorted_children(entries);
        let ghost was = self.stack@;
        self.stack.push((dir.to_owned(), rest));
        proof {
            let r = removal::entries_view(rest@);
            let from = choose|from: Seq<int>| #[trigger]
                reordered(removal::entries_view(entries@), r, from);
            assert(levels_view(self.stack@) =~= levels_view(was).push((dir@, r)));
            assert(reordered(removal::entries_view(entries@), r, from));
        }
    }

    /// The path to visit next, the tree depth-first and each directory's names
    /// in order; none at the end.
    pub fn next(&mut self) -> (r: Option<String>)
        ensures
            final(self).root@ == old(self).root@,
            final(self).seen@ == old(self).seen@,
            final(self).report == old(self).report,
            ({
                let stack = unfinished(levels_view(old(self).stack@));
                match r {
                    None => stack.len() == 0 && final(self).stack@.len() == 0,
                    Some(path) => {
                        &&& stack.len() > 0
                        &&& stack.last().1.len() > 0
                        &&& path@ == paths::joined(stack.last().0, stack.last().1.last().0)
                        &&& levels_view(final(self).stack@) == stack.drop_last().push(
                            (stack.last().0, stack.last().1.drop_last()),
                        )
                    },
                }
            }),
    {
        loop
            invariant
                self.root@ == old(self).root@,
                self.seen@ == old(self).seen@,
                self.report == old(self).report,
                unfinished(levels_view(old(self).stack@)) == unfinished(levels_view(self.stack@)),
            decreases self.stack@.len(),
        {
            let ghost was = self.stack@;
            match self.stack.pop() {
                None => {
                    assert(levels_view(was) =~= Seq::empty());
                    return None;
                },
                Some(level) => {
                    let (dir, mut rest) = level;
                    let ghost names = rest@;
                    assert(levels_view(was).drop_last() =~= levels_view(self.stack@));
                    assert(levels_view(was).last() == (dir@, removal::entries_view(names)));
                    match rest.pop() {
                        Some(entry) => {
                            let path: String = paths::join(dir.as_str(), entry.name.as_str());
                            let ghost below = self.stack@;
                            self.stack.push((dir, rest));
                            proof {
                                let stack = levels_view(was);
                                assert(unfinished(stack) == stack);
                                assert(removal::entries_view(rest@) =~= removal::entries_view(
                                    names,
                                ).drop_last());
                                assert(levels_view(self.stack@) =~= stack.drop_last().push(
                                    (stack.last().0, stack.last().1.drop_last()),
                                ));
                            }
                            return Some(path);
                        },
                        None => {},
                    }
                },
            }
        }
    }

    /// The name under which a path is written.
    pub fn name_of(&self, path: &str) -> (name: String)
        requires
            self.root@.len() <= path@.len(),
        ensures
            name@ == paths::relative(self.root@, path@),
    {
        paths::relative_to(self.root.as_str(), path)
    }

    /// Visit a path. The second name for an inode is written as a hard link to
    /// the first; of any other, this says what is still to be found out.
    pub fn visit(&mut self, path: &str, stat: &Stat) -> (r: std::result::Result<Wants, Header>)
        requires
            old(self).root@.len() <= path@.len(),
            old(self).report.hard_links < u64::MAX,
        ensures
            final(self).root@ == old(self).root@,
            final(self).stack@ == old(self).stack@,
            ({
                let seen = seen_view(old(self).seen@);
                let name = paths::relative(old(self).root@, path@);
                &&& seen_view(final(self).seen@) == seen_after(seen, name, *stat)
                &&& match r {
                    Ok(w) => {
                        &&& !seen.contains_key(stat.inode)
                        &&& w == wants(stat.mode)
                        &&& final(self).report == old(self).report
                    },
                    Err(h) => {
                        &&& seen.contains_key(stat.inode)
                        &&& h@ == link_header(name, seen[stat.inode], *stat)
                        &&& final(self).report == (PackReport {
                            hard_links: (old(self).report.hard_links + 1) as u64,
                            ..old(self).report
                        })
                    },
                }
            }),
    {
        let name: String = self.name_of(path);
        match written_as(&self.seen, stat.inode) {
            Some(target) => {
                let mut h: Header = Header::default();
                h.path = name;
                h.kind = EntryKind::HardLink;
                h.link = target;
                h.mode = stat.mode & 0o7777;
                h.uid = stat.uid;
                h.gid = stat.gid;
                h.mtime = stat.mtime;
                self.report.hard_links = self.report.hard_links + 1;
                assert(h@ =~= link_header(
                    paths::relative(old(self).root@, path@),
                    seen_view(old(self).seen@)[stat.inode],
                    *stat,
                ));
                return Err(h);
            },
            None => {},
        }
        if stat.links > 1 && !stat.is_dir() {
            note_written(&mut self.seen, stat.inode, name);
        }
        let kind: u16 = stat.mode & dir::IFMT;
        if kind == dir::IFDIR {
            Ok(Wants::Children)
        } else if kind == dir::IFLNK {
            Ok(Wants::Target)
        } else if kind == dir::IFCHR || kind == dir::IFBLK || kind == dir::IFIFO || kind
            == dir::IFSOCK {
            Ok(Wants::Numbers)
        } else {
            Ok(Wants::Contents)
        }
    }

    /// Whether the report's counters have room for a name.
    pub fn can_count(&self, found: &Findings) -> (r: bool)
        ensures
            r == has_room(self.report, found.xattrs@.len(), found.size),
    {
        let r: PackReport = self.report;
        assert(found.xattrs.len() == found.xattrs@.len());
        r.files < u64::MAX && r.directories < u64::MAX && r.symlinks < u64::MAX && r.hard_links
            < u64::MAX && r.devices < u64::MAX && r.bytes <= u64::MAX - found.size && r.xattrs
            <= u64::MAX - found.xattrs.len() as u64
    }

    /// What to write of a name, given what was found out about it.
    pub fn describe(&mut self, path: &str, stat: &Stat, found: Findings) -> (h: Header)
        requires
            old(self).root@.len() <= path@.len(),
            has_room(old(self).report, found.xattrs@.len(), found.size),
        ensures
            final(self).root@ == old(self).root@,
            final(self).stack@ == old(self).stack@,
            final(self).seen@ == old(self).seen@,
            final(self).report == counted(
                old(self).report,
                *stat,
                found.xattrs@.len(),
                found.size,
            ),
            h@ == described(
                paths::relative(old(self).root@, path@),
                *stat,
                xattrs::attrs_view(found.xattrs@),
                found.target@,
                found.numbers,
                found.size,
            ),
            final(self).report.xattrs == old(self).report.xattrs + h@.xattrs.len(),
    {
        let mut h: Header = Header::default();
        h.path = self.name_of(path);
        h.mode = stat.mode & 0o7777;
        h.uid = stat.uid;
        h.gid = stat.gid;
        h.mtime = stat.mtime;
        assert(h@.xattrs =~= Seq::empty());
        assert(found.xattrs.len() == found.xattrs@.len());
        let carried: u64 = found.xattrs.len() as u64;
        let list: Vec<(String, Vec<u8>)> = xattrs::from_xattrs(found.xattrs);
        let kind: u16 = stat.mode & dir::IFMT;
        if kind == dir::IFDIR {
            h.kind = EntryKind::Directory;
            h.xattrs = list;
            self.report.xattrs = self.report.xattrs + carried;
            self.report.directories = self.report.directories + 1;
        } else if kind == dir::IFLNK {
            h.kind = EntryKind::Symlink;
            h.link = found.target;
            self.report.symlinks = self.report.symlinks + 1;
        } else if kind == dir::IFCHR || kind == dir::IFBLK || kind == dir::IFIFO || kind
            == dir::IFSOCK {
            h.kind = if kind == dir::IFCHR {
                EntryKind::CharDevice
            } else if kind == dir::IFBLK {
                EntryKind::BlockDevice
            } else {
                EntryKind::Fifo
            };
            h.major = found.numbers.0;
            h.minor = found.numbers.1;
            h.xattrs = list;
            self.report.xattrs = self.report.xattrs + carried;
            self.report.devices = self.report.devices + 1;
        } else {
            h.size = found.size;
            h.xattrs = list;
            self.report.xattrs = self.report.xattrs + carried;
            self.report.files = self.report.files + 1;
            self.report.bytes = self.report.bytes + found.size;
        }
        h
    }
}

} // verus!
