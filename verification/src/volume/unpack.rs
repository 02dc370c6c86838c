//! Laying an archive down in a filesystem: what each entry calls for, and what
//! is put off to the end.

use vstd::prelude::*;

use crate::tar::field;
use crate::tar::header::{self, EntryKind, Header, HeaderView};
use crate::tar::pax;
use crate::text;
use crate::volume::paths;
use crate::volume::removal::{self, Whiteout};
use crate::volume::types::{Attrs, Entry, Special, UnpackReport};
use crate::volume::xattrs::{self, Xattr};

verus! {

/// One thing that unpacking an entry calls for.
#[derive(Debug)]
pub enum Job {
    /// Obey a whiteout marker.
    Whiteout {
        /// The directory it stands in.
        dir: String,
        /// Its name.
        name: String,
    },
    /// Create every missing directory along a path.
    MakeParents(String),
    /// See to it that there is a directory. What is there and is none is
    /// removed.
    Directory {
        /// Its path.
        path: String,
        /// What a new one is created with.
        attrs: Attrs,
    },
    /// Remove whatever is at a path.
    Replace(String),
    /// Create a file with the entry's contents.
    File {
        /// Its path.
        path: String,
        /// What it is created with.
        attrs: Attrs,
    },
    /// Create a symbolic link.
    Symlink {
        /// Its path.
        path: String,
        /// Where it points.
        target: String,
    },
    /// Create a hard link.
    HardLink {
        /// The path that exists.
        target: String,
        /// The new path.
        path: String,
    },
    /// Create a device node or a FIFO.
    Special {
        /// Its path.
        path: String,
        /// What it is.
        special: Special,
        /// What it is created with.
        attrs: Attrs,
    },
    /// Set permission bits.
    Mode {
        /// Whose.
        path: String,
        /// The bits.
        mode: u16,
    },
    /// Set owner and group.
    Owner {
        /// Whose.
        path: String,
        /// Owning user.
        uid: u32,
        /// Owning group.
        gid: u32,
    },
    /// Replace all extended attributes.
    Attributes {
        /// Whose.
        path: String,
        /// The attributes.
        list: Vec<Xattr>,
    },
    /// Set times.
    Times {
        /// Whose.
        path: String,
        /// The time.
        secs: u32,
    },
}

/// A job as the contracts speak of it.
pub enum JobView {
    Whiteout { dir: Seq<char>, name: Seq<char> },
    MakeParents(Seq<char>),
    Directory { path: Seq<char>, attrs: Attrs },
    Replace(Seq<char>),
    File { path: Seq<char>, attrs: Attrs },
    Symlink { path: Seq<char>, target: Seq<char> },
    HardLink { target: Seq<char>, path: Seq<char> },
    Special { path: Seq<char>, special: Special, attrs: Attrs },
    Mode { path: Seq<char>, mode: u16 },
    Owner { path: Seq<char>, uid: u32, gid: u32 },
    Attributes { path: Seq<char>, list: Seq<(Seq<char>, Seq<u8>)> },
    Times { path: Seq<char>, secs: u32 },
}

impl View for Job {
    type V = JobView;

    open spec fn view(&self) -> JobView {
        match self {
            Job::Whiteout { dir, name } => JobView::Whiteout { dir: dir@, name: name@ },
            Job::MakeParents(path) => JobView::MakeParents(path@),
            Job::Directory { path, attrs } => JobView::Directory { path: path@, attrs: *attrs },
            Job::Replace(path) => JobView::Replace(path@),
            Job::File { path, attrs } => JobView::File { path: path@, attrs: *attrs },
            Job::Symlink { path, target } => JobView::Symlink { path: path@, target: target@ },
            Job::HardLink { target, path } => JobView::HardLink { target: target@, path: path@ },
            Job::Special { path, special, attrs } => JobView::Special {
                path: path@,
                special: *special,
                attrs: *attrs,
            },
            Job::Mode { path, mode } => JobView::Mode { path: path@, mode: *mode },
            Job::Owner { path, uid, gid } => JobView::Owner { path: path@, uid: *uid, gid: *gid },
            Job::Attributes { path, list } => JobView::Attributes {
                path: path@,
                list: xattrs::attrs_view(list@),
            },
            Job::Times { path, secs } => JobView::Times { path: path@, secs: *secs },
        }
    }
}

/// Jobs as the contracts speak of them.
pub open spec fn jobs_view(list: Seq<Job>) -> Seq<JobView> {
    list.map_values(|j: Job| j@)
}

/// What an entry is created with.
pub open spec fn attrs_of(h: HeaderView) -> Attrs {
    Attrs { mode: h.mode, uid: h.uid, gid: h.gid }
}

/// Where an entry lands.
pub open spec fn path_of(base: Seq<char>, h: HeaderView) -> Seq<char> {
    paths::placed_at(base, h.path)
}

/// Whether an entry is a whiteout marker to be obeyed.
pub open spec fn whites_out(whiteouts: bool, h: HeaderView) -> bool {
    whiteouts && removal::is_marker(paths::below(h.path))
}

/// What kind of special file an entry is.
pub open spec fn special_of(h: HeaderView) -> Special {
    match h.kind {
        EntryKind::CharDevice => Special::CharDevice { major: h.major, minor: h.minor },
        EntryKind::BlockDevice => Special::BlockDevice { major: h.major, minor: h.minor },
        _ => Special::Fifo,
    }
}

/// Making somewhere for an entry to go.
pub open spec fn parents_of(base: Seq<char>, h: HeaderView) -> Seq<JobView> {
    if paths::above(h.path).len() > 0 {
        seq![JobView::MakeParents(paths::placed_at(base, paths::above(h.path)))]
    } else {
        Seq::empty()
    }
}

/// Creating what an entry is. A file is always a fresh inode: writing over the
/// old one would inherit its mode, its ownership and its attributes.
pub open spec fn made(base: Seq<char>, h: HeaderView) -> Seq<JobView> {
    let path = path_of(base, h);
    match h.kind {
        EntryKind::Directory => seq![JobView::Directory { path, attrs: attrs_of(h) }],
        EntryKind::File => seq![
            JobView::Replace(path),
            JobView::File { path, attrs: attrs_of(h) },
        ],
        EntryKind::Symlink => seq![
            JobView::Replace(path),
            JobView::Symlink { path, target: h.link },
        ],
        EntryKind::HardLink => seq![
            JobView::Replace(path),
            JobView::HardLink { target: paths::placed_at(base, field::normal(h.link)), path },
        ],
        _ => seq![
            JobView::Replace(path),
            JobView::Special { path, special: special_of(h), attrs: attrs_of(h) },
        ],
    }
}

/// Whether an entry's attributes and time are set right after it is created.
/// A symlink's own are neither settable nor meaningful, a hard link shares its
/// target's inode, and a directory waits for the end.
pub open spec fn finished_at_once(kind: EntryKind) -> bool {
    !(kind is Symlink || kind is HardLink || kind is Directory)
}

/// Setting an entry's attributes and time.
pub open spec fn dressed(base: Seq<char>, h: HeaderView) -> Seq<JobView> {
    let path = path_of(base, h);
    (if h.xattrs.len() > 0 {
        seq![JobView::Attributes { path, list: h.xattrs }]
    } else {
        Seq::empty()
    }) + (if h.mtime != 0 {
        seq![JobView::Times { path, secs: h.mtime }]
    } else {
        Seq::empty()
    })
}

/// All that an entry calls for when it comes.
pub open spec fn jobs(base: Seq<char>, whiteouts: bool, h: HeaderView) -> Seq<JobView> {
    if h.path.len() == 0 {
        Seq::empty()
    } else if whites_out(whiteouts, h) {
        seq![
            JobView::Whiteout {
                dir: paths::placed_at(base, paths::above(h.path)),
                name: paths::below(h.path),
            },
        ]
    } else {
        parents_of(base, h) + made(base, h) + (if finished_at_once(h.kind) {
            dressed(base, h)
        } else {
            Seq::empty()
        })
    }
}

/// A report with an entry counted. The attributes of a directory are counted
/// when they are set.
pub open spec fn counted(r: UnpackReport, whiteouts: bool, h: HeaderView) -> UnpackReport {
    if h.path.len() == 0 || whites_out(whiteouts, h) {
        r
    } else {
        match h.kind {
            EntryKind::Directory => UnpackReport {
                directories: (r.directories + 1) as u64,
                ..r
            },
            EntryKind::File => UnpackReport {
                files: (r.files + 1) as u64,
                bytes: (r.bytes + h.size) as u64,
                xattrs: (r.xattrs + h.xattrs.len()) as u64,
                ..r
            },
            EntryKind::Symlink => UnpackReport { symlinks: (r.symlinks + 1) as u64, ..r },
            EntryKind::HardLink => UnpackReport { hard_links: (r.hard_links + 1) as u64, ..r },
            _ => UnpackReport {
                devices: (r.devices + 1) as u64,
                xattrs: (r.xattrs + h.xattrs.len()) as u64,
                ..r
            },
        }
    }
}

/// Whether a report's counters have room for an entry, with `waiting`
/// attributes yet to be counted.
pub open spec fn has_room(r: UnpackReport, waiting: nat, h: HeaderView) -> bool {
    &&& r.files < u64::MAX
    &&& r.directories < u64::MAX
    &&& r.symlinks < u64::MAX
    &&& r.hard_links < u64::MAX
    &&& r.devices < u64::MAX
    &&& r.bytes + h.size <= u64::MAX
    &&& r.xattrs + waiting + h.xattrs.len() <= u64::MAX
}

/// A directory whose mode, attributes and time are put off to the end, because
/// writing its children changes them.
#[derive(Debug)]
pub struct Deferred {
    /// Its path.
    pub path: String,
    /// Its permissions and ownership.
    pub attrs: Attrs,
    /// Its time.
    pub mtime: u32,
    /// Its extended attributes: one that was there already must end up with
    /// these labels, and not the ones underneath.
    pub xattrs: Vec<(String, Vec<u8>)>,
    /// Its path spelled out from its components.
    pub place: Vec<char>,
}

/// A deferred directory as the contracts speak of it.
#[verifier::ext_equal]
pub struct DeferredView {
    pub path: Seq<char>,
    pub attrs: Attrs,
    pub mtime: u32,
    pub xattrs: Seq<(Seq<char>, Seq<u8>)>,
}

impl View for Deferred {
    type V = DeferredView;

    open spec fn view(&self) -> DeferredView {
        DeferredView {
            path: self.path@,
            attrs: self.attrs,
            mtime: self.mtime,
            xattrs: pax::records_view(self.xattrs@),
        }
    }
}

/// Deferred directories as the contracts speak of them.
pub open spec fn deferred_view(list: Seq<Deferred>) -> Seq<DeferredView> {
    list.map_values(|d: Deferred| d@)
}

/// How many extended attributes wait with the directories put off.
pub open spec fn waiting(list: Seq<DeferredView>) -> nat
    decreases list.len(),
{
    if list.len() == 0 {
        0
    } else {
        waiting(list.drop_last()) + list.last().xattrs.len()
    }
}

proof fn lemma_waiting_add(a: Seq<DeferredView>, b: Seq<DeferredView>)
    ensures
        waiting(a + b) == waiting(a) + waiting(b),
    decreases b.len(),
{
    if b.len() == 0 {
        assert(a + b =~= a);
    } else {
        lemma_waiting_add(a, b.drop_last());
        assert((a + b).drop_last() =~= a + b.drop_last());
    }
}

/// What an entry takes away of what earlier entries laid down.
pub enum Gone {
    /// Nothing.
    Nothing,
    /// Whatever is at this path, and all below it.
    At(Seq<char>),
    /// All below this path.
    Below(Seq<char>),
}

/// What an entry takes away. A directory stays where there is one, and
/// everything else is made anew.
pub open spec fn gone_by(base: Seq<char>, whiteouts: bool, h: HeaderView) -> Gone {
    let dir = paths::placed_at(base, paths::above(h.path));
    let name = paths::below(h.path);
    if h.path.len() == 0 {
        Gone::Nothing
    } else if whites_out(whiteouts, h) {
        if name == ".wh..wh..opq"@ {
            Gone::Below(dir)
        } else if paths::opens_with(name, ".wh..wh."@) {
            Gone::Nothing
        } else {
            Gone::At(paths::joined(dir, name.skip(".wh."@.len() as int)))
        }
    } else if h.kind is Directory {
        Gone::Nothing
    } else {
        Gone::At(path_of(base, h))
    }
}

/// Whether a path is gone.
pub open spec fn is_gone(path: Seq<char>, gone: Gone) -> bool {
    match gone {
        Gone::Nothing => false,
        Gone::At(p) => paths::tidy(path) == paths::tidy(p) || paths::is_below(
            paths::tidy(path),
            paths::tidy(p),
        ),
        Gone::Below(p) => paths::is_below(paths::tidy(path), paths::tidy(p)),
    }
}

/// The directories put off that are still there.
pub open spec fn still_there(list: Seq<DeferredView>, gone: Gone) -> Seq<DeferredView>
    decreases list.len(),
{
    if list.len() == 0 {
        Seq::empty()
    } else {
        let before = still_there(list.drop_last(), gone);
        if is_gone(list.last().path, gone) {
            before
        } else {
            before.push(list.last())
        }
    }
}

/// Where nothing is gone, all are there.
proof fn lemma_all_there(list: Seq<DeferredView>)
    ensures
        still_there(list, Gone::Nothing) == list,
    decreases list.len(),
{
    if list.len() > 0 {
        lemma_all_there(list.drop_last());
        assert(list.drop_last().push(list.last()) =~= list);
    } else {
        assert(list =~= Seq::empty());
    }
}

/// What is put off of an entry.
pub open spec fn put_off(base: Seq<char>, whiteouts: bool, h: HeaderView) -> Seq<DeferredView> {
    if h.path.len() > 0 && !whites_out(whiteouts, h) && h.kind is Directory {
        seq![
            DeferredView {
                path: path_of(base, h),
                attrs: attrs_of(h),
                mtime: h.mtime,
                xattrs: h.xattrs,
            },
        ]
    } else {
        Seq::empty()
    }
}

/// What is put off once all entries have come.
pub open spec fn put_off_by(
    base: Seq<char>,
    whiteouts: bool,
    entries: Seq<HeaderView>,
) -> Seq<DeferredView>
    decreases entries.len(),
{
    if entries.len() == 0 {
        Seq::empty()
    } else {
        still_there(
            put_off_by(base, whiteouts, entries.drop_last()),
            gone_by(base, whiteouts, entries.last()),
        ) + put_off(base, whiteouts, entries.last())
    }
}

/// An archive being unpacked.
#[derive(Debug)]
pub struct Unpacking {
    /// Where it lands, without separators at either end.
    pub base: String,
    /// Whether whiteout markers are obeyed.
    pub whiteouts: bool,
    /// What was done.
    pub report: UnpackReport,
    /// What is put off.
    pub deferred: Vec<Deferred>,
    /// How many extended attributes wait with it.
    pub pending: u64,
}

impl Unpacking {
    /// What is put off is kept with its place, and counted.
    pub open spec fn inv(&self) -> bool {
        &&& forall|i: int|
            0 <= i < self.deferred@.len() ==> (#[trigger] self.deferred@[i]).place@
                == paths::tidy(self.deferred@[i].path@)
        &&& self.pending == waiting(deferred_view(self.deferred@))
        &&& self.report.xattrs + self.pending <= u64::MAX
    }

    /// Start unpacking at `dest`: the directory to create first, if it is not
    /// the root.
    pub fn new(dest: &str, whiteouts: bool) -> (r: (Self, Option<String>))
        ensures
            r.0.base@ == field::normal(dest@),
            r.0.whiteouts == whiteouts,
            r.0.report == UnpackReport::nothing(),
            r.0.deferred@.len() == 0,
            r.0.inv(),
            match r.1 {
                Some(dir) => r.0.base@.len() > 0 && dir@ == seq!['/'] + r.0.base@,
                None => r.0.base@.len() == 0,
            },
    {
        let base: String = field::normalise(dest);
        let first: Option<String> = if text::chars_of(base.as_str()).len() > 0 {
            let mut dir: String = String::new();
            dir.push('/');
            assert(dir@ =~= seq!['/']);
            dir.append(base.as_str());
            Some(dir)
        } else {
            None
        };
        (
            Unpacking {
                base,
                whiteouts,
                report: UnpackReport::default(),
                deferred: Vec::new(),
                pending: 0,
            },
            first,
        )
    }

    /// Whether the report's counters have room for an entry.
    pub fn can_count(&self, h: &Header) -> (r: bool)
        ensures
            r == has_room(self.report, self.pending as nat, h@),
    {
        let r: UnpackReport = self.report;
        assert(h.xattrs.len() == h@.xattrs.len());
        r.files < u64::MAX && r.directories < u64::MAX && r.symlinks < u64::MAX && r.hard_links
            < u64::MAX && r.devices < u64::MAX && r.bytes <= u64::MAX - h.size && r.xattrs
            <= u64::MAX - h.xattrs.len() as u64 && self.pending <= u64::MAX - h.xattrs.len() as u64
            - r.xattrs
    }

    /// Leave off what was put off of directories that are gone.
    fn forget(&mut self, root: &Vec<char>, itself: bool, Ghost(gone): Ghost<Gone>)
        requires
            old(self).inv(),
            forall|path: Seq<char>| #[trigger]
                is_gone(path, gone) == ((itself && paths::tidy(path) == root@) || paths::is_below(
                    paths::tidy(path),
                    root@,
                )),
        ensures
            final(self).inv(),
            final(self).base@ == old(self).base@,
            final(self).whiteouts == old(self).whiteouts,
            final(self).report == old(self).report,
            final(self).pending <= old(self).pending,
            deferred_view(final(self).deferred@) == still_there(
                deferred_view(old(self).deferred@),
                gone,
            ),
    {
        let ghost list = deferred_view(self.deferred@);
        let ghost mut done: int = 0;
        let mut i: usize = 0;
        assert(list.take(0) =~= Seq::empty());
        assert(still_there(list.take(0), gone) + list.skip(0) =~= list);
        while i < self.deferred.len()
            invariant
                0 <= i <= self.deferred@.len(),
                0 <= done <= list.len(),
                list == deferred_view(old(self).deferred@),
                self.inv(),
                self.base@ == old(self).base@,
                self.whiteouts == old(self).whiteouts,
                self.report == old(self).report,
                self.pending <= old(self).pending,
                i == still_there(list.take(done), gone).len(),
                deferred_view(self.deferred@) == still_there(list.take(done), gone) + list.skip(
                    done,
                ),
                forall|path: Seq<char>| #[trigger]
                    is_gone(path, gone) == ((itself && paths::tidy(path) == root@)
                        || paths::is_below(paths::tidy(path), root@)),
            decreases self.deferred.len() - i,
        {
            let ghost kept = still_there(list.take(done), gone);
            let ghost was = self.deferred@;
            let ghost d = list[done];
            proof {
                let view = deferred_view(was);
                assert(view.len() == kept.len() + (list.len() - done));
                assert(view[i as int] == list.skip(done)[0]);
                assert(was[i as int]@ == d);
                assert(list.take(done + 1).drop_last() =~= list.take(done));
                assert(list.take(done + 1).last() == d);
                assert(is_gone(d.path, gone) == is_gone(was[i as int].path@, gone));
            }
            let place: &Vec<char> = &self.deferred[i].place;
            if (itself && paths::same_place(place, root)) || paths::lies_below(place, root) {
                let out: Deferred = self.deferred.remove(i);
                assert(out.xattrs.len() == out.xattrs@.len());
                proof {
                    let view = deferred_view(self.deferred@);
                    let rest = list.skip(done + 1);
                    assert(deferred_view(was) =~= kept + seq![d] + rest);
                    assert(self.deferred@ == was.remove(i as int));
                    assert(view =~= deferred_view(was).remove(i as int));
                    assert(view =~= kept + rest);
                    lemma_waiting_add(kept, rest);
                    lemma_waiting_add(kept, seq![d]);
                    lemma_waiting_add(kept + seq![d], rest);
                    assert(seq![d].drop_last() =~= Seq::<DeferredView>::empty());
                    assert(waiting(Seq::<DeferredView>::empty()) == 0);
                    assert(seq![d].last() == d);
                    assert(waiting(seq![d]) == d.xattrs.len());
                    assert(out.xattrs@.len() == d.xattrs.len());
                }
                self.pending = self.pending - out.xattrs.len() as u64;
            } else {
                assert(kept + list.skip(done) =~= kept.push(d) + list.skip(done + 1));
                i += 1;
            }
            proof {
                done = done + 1;
            }
        }
        proof {
            assert(list.skip(done).len() == 0);
            assert(list.take(done) =~= list);
            assert(still_there(list, gone) + list.skip(done) =~= still_there(list, gone));
        }
    }

    /// Take the next entry: what it calls for.
    pub fn entry(&mut self, h: &Header) -> (out: Vec<Job>)
        requires
            old(self).inv(),
            has_room(old(self).report, old(self).pending as nat, h@),
        ensures
            final(self).inv(),
            final(self).base@ == old(self).base@,
            final(self).whiteouts == old(self).whiteouts,
            jobs_view(out@) == jobs(old(self).base@, old(self).whiteouts, h@),
            final(self).report == counted(old(self).report, old(self).whiteouts, h@),
            deferred_view(final(self).deferred@) == still_there(
                deferred_view(old(self).deferred@),
                gone_by(old(self).base@, old(self).whiteouts, h@),
            ) + put_off(old(self).base@, old(self).whiteouts, h@),
    {
        let ghost base = self.base@;
        let ghost white = self.whiteouts;
        let ghost gone = gone_by(base, white, h@);
        proof {
            lemma_all_there(deferred_view(self.deferred@));
        }
        let mut out: Vec<Job> = Vec::new();
        assert(jobs_view(out@) =~= Seq::empty());
        if text::chars_of(h.path.as_str()).len() == 0 {
            assert(deferred_view(self.deferred@) + put_off(base, white, h@) =~= deferred_view(
                self.deferred@,
            ));
            return out;
        }
        let (parent, name) = paths::split_last(h.path.as_str());
        if self.whiteouts && removal::is_whiteout(name.as_str()) {
            let dir: String = paths::place(self.base.as_str(), parent.as_str());
            match removal::apply_whiteout(dir.as_str(), name.as_str()) {
                Whiteout::Opaque => {
                    let root: Vec<char> = paths::tidied(dir.as_str());
                    self.forget(&root, false, Ghost(gone));
                },
                Whiteout::Nothing => {},
                Whiteout::Remove(path) => {
                    let root: Vec<char> = paths::tidied(path.as_str());
                    self.forget(&root, true, Ghost(gone));
                },
            }
            out.push(Job::Whiteout { dir, name });
            assert(jobs_view(out@) =~= jobs(base, white, h@));
            assert(deferred_view(self.deferred@) + put_off(base, white, h@) =~= deferred_view(
                self.deferred@,
            ));
            return out;
        }
        let path: String = paths::place(self.base.as_str(), h.path.as_str());
        let attrs: Attrs = Attrs { mode: h.mode, uid: h.uid, gid: h.gid };
        // Whatever is being unpacked needs somewhere to go.
        if text::chars_of(parent.as_str()).len() > 0 {
            out.push(Job::MakeParents(paths::place(self.base.as_str(), parent.as_str())));
        }
        assert(jobs_view(out@) =~= parents_of(base, h@));
        let ghost first = out@;
        let stays: bool = match h.kind {
            EntryKind::Directory => true,
            _ => false,
        };
        if !stays {
            // What was put off of a directory that is replaced must not be
            // done to what replaces it.
            let root: Vec<char> = paths::tidied(path.as_str());
            self.forget(&root, true, Ghost(gone));
        }
        match h.kind {
            EntryKind::Directory => {
                out.push(Job::Directory { path: path.clone(), attrs });
                let ghost was = self.deferred@;
                let d: Deferred = Deferred {
                    path: path.clone(),
                    attrs,
                    mtime: h.mtime,
                    xattrs: header::copy_records(&h.xattrs),
                    place: paths::tidied(path.as_str()),
                };
                self.deferred.push(d);
                assert(deferred_view(self.deferred@) =~= deferred_view(was) + put_off(
                    base,
                    white,
                    h@,
                ));
                self.report.directories = self.report.directories + 1;
                assert(h.xattrs.len() == h@.xattrs.len());
                assert(deferred_view(self.deferred@).drop_last() =~= deferred_view(was));
                self.pending = self.pending + h.xattrs.len() as u64;
            },
            EntryKind::File => {
                // Always a fresh inode. Writing over the old one would inherit
                // its mode, its ownership and its extended attributes — so a
                // layer that replaces a file would keep the label of the file
                // it replaced.
                out.push(Job::Replace(path.clone()));
                out.push(Job::File { path: path.clone(), attrs });
                self.report.files = self.report.files + 1;
                self.report.bytes = self.report.bytes + h.size;
            },
            EntryKind::Symlink => {
                out.push(Job::Replace(path.clone()));
                out.push(Job::Symlink { path: path.clone(), target: h.link.clone() });
                self.report.symlinks = self.report.symlinks + 1;
            },
            EntryKind::HardLink => {
                // A link target is a path within the archive, written the same
                // way the entry names are.
                let within: String = field::normalise(h.link.as_str());
                let target: String = paths::place(self.base.as_str(), within.as_str());
                out.push(Job::Replace(path.clone()));
                out.push(Job::HardLink { target, path: path.clone() });
                self.report.hard_links = self.report.hard_links + 1;
            },
            EntryKind::CharDevice => {
                out.push(Job::Replace(path.clone()));
                let special: Special = Special::CharDevice { major: h.major, minor: h.minor };
                out.push(Job::Special { path: path.clone(), special, attrs });
                self.report.devices = self.report.devices + 1;
            },
            EntryKind::BlockDevice => {
                out.push(Job::Replace(path.clone()));
                let special: Special = Special::BlockDevice { major: h.major, minor: h.minor };
                out.push(Job::Special { path: path.clone(), special, attrs });
                self.report.devices = self.report.devices + 1;
            },
            EntryKind::Fifo => {
                out.push(Job::Replace(path.clone()));
                out.push(Job::Special { path: path.clone(), special: Special::Fifo, attrs });
                self.report.devices = self.report.devices + 1;
            },
        }
        assert(jobs_view(out@) =~= jobs_view(first) + made(base, h@));
        assert(h.xattrs.len() == h@.xattrs.len());
        let ghost second = out@;
        let at_once: bool = match h.kind {
            EntryKind::Symlink => false,
            EntryKind::HardLink => false,
            EntryKind::Directory => false,
            _ => true,
        };
        if at_once {
            if h.xattrs.len() > 0 {
                self.report.xattrs = self.report.xattrs + h.xattrs.len() as u64;
                let list: Vec<Xattr> = xattrs::to_xattrs(&h.xattrs);
                out.push(Job::Attributes { path: path.clone(), list });
            }
            if h.mtime != 0 {
                out.push(Job::Times { path, secs: h.mtime });
            }
            assert(jobs_view(out@) =~= jobs_view(second) + dressed(base, h@));
        }
        assert(!(h.kind is Directory) ==> deferred_view(self.deferred@) + put_off(
            base,
            white,
            h@,
        ) =~= deferred_view(self.deferred@));
        assert(jobs_view(out@) =~= jobs(base, white, h@));
        out
    }
}

impl Unpacking {
    /// Obey a whiteout marker: the paths to remove, which are counted. `there`
    /// says whether what the marker speaks of is there — the directory, if it
    /// is opaque, and the one path otherwise — and `found` is what is in the
    /// directory.
    pub fn obey(&mut self, dir: &str, name: &str, there: bool, found: &Vec<Entry>) -> (out: Vec<
        String,
    >)
        requires
            old(self).inv(),
            removal::is_marker(name@),
            old(self).report.removed + removal::whited_out(
                dir@,
                name@,
                there,
                removal::entries_view(found@),
            ).len() <= u64::MAX,
        ensures
            final(self).inv(),
            final(self).base@ == old(self).base@,
            final(self).whiteouts == old(self).whiteouts,
            final(self).deferred@ == old(self).deferred@,
            final(self).pending == old(self).pending,
            paths::texts(out@) == removal::whited_out(
                dir@,
                name@,
                there,
                removal::entries_view(found@),
            ),
            final(self).report == (UnpackReport {
                removed: (old(self).report.removed + out@.len()) as u64,
                ..old(self).report
            }),
    {
        let out: Vec<String> = removal::to_remove(dir, name, there, found);
        assert(out@.len() == paths::texts(out@).len());
        self.report.removed = self.report.removed + out.len() as u64;
        out
    }
}

/// Finishing a directory that was put off. Its attributes are replaced even
/// when there are none: that is what clears the labels a lower layer put on
/// the same directory.
pub open spec fn finished(d: DeferredView) -> Seq<JobView> {
    seq![
        JobView::Mode { path: d.path, mode: d.attrs.mode },
        JobView::Owner { path: d.path, uid: d.attrs.uid, gid: d.attrs.gid },
        JobView::Attributes { path: d.path, list: d.xattrs },
    ] + (if d.mtime != 0 {
        seq![JobView::Times { path: d.path, secs: d.mtime }]
    } else {
        Seq::empty()
    })
}

/// How deep a directory put off is.
pub open spec fn level(d: DeferredView) -> nat {
    paths::depth(paths::tidy(d.path))
}

/// The directories put off that are as deep as `depth`, in order.
pub open spec fn at_depth(list: Seq<DeferredView>, depth: nat) -> Seq<DeferredView>
    decreases list.len(),
{
    if list.len() == 0 {
        Seq::empty()
    } else {
        let before = at_depth(list.drop_last(), depth);
        if level(list.last()) == depth {
            before.push(list.last())
        } else {
            before
        }
    }
}

/// The directories put off that are at most as deep as `depth`, the deepest
/// first.
pub open spec fn deepest_first(list: Seq<DeferredView>, depth: int) -> Seq<DeferredView>
    decreases depth + 1,
{
    if depth < 0 {
        Seq::empty()
    } else {
        at_depth(list, depth as nat) + deepest_first(list, depth - 1)
    }
}

/// How deep the deepest directory put off is.
pub open spec fn deepest(list: Seq<DeferredView>) -> nat
    decreases list.len(),
{
    if list.len() == 0 {
        0
    } else {
        let before = deepest(list.drop_last());
        let last = level(list.last());
        if last > before {
            last
        } else {
            before
        }
    }
}

/// Finishing directories, one after the other.
pub open spec fn all_finished(list: Seq<DeferredView>) -> Seq<JobView>
    decreases list.len(),
{
    if list.len() == 0 {
        Seq::empty()
    } else {
        all_finished(list.drop_last()) + finished(list.last())
    }
}

pub proof fn lemma_all_finished_add(a: Seq<DeferredView>, b: Seq<DeferredView>)
    ensures
        all_finished(a + b) == all_finished(a) + all_finished(b),
    decreases b.len(),
{
    if b.len() == 0 {
        assert(a + b =~= a);
        assert(all_finished(a) + all_finished(b) =~= all_finished(a));
    } else {
        lemma_all_finished_add(a, b.drop_last());
        assert((a + b).drop_last() =~= a + b.drop_last());
        assert(all_finished(a + b) =~= all_finished(a) + all_finished(b));
    }
}

/// Push what finishing a directory takes.
fn finish_one(out: &mut Vec<Job>, d: &Deferred)
    ensures
        jobs_view(final(out)@) == jobs_view(old(out)@) + finished(d@),
{
    let ghost was = out@;
    out.push(Job::Mode { path: d.path.clone(), mode: d.attrs.mode });
    out.push(Job::Owner { path: d.path.clone(), uid: d.attrs.uid, gid: d.attrs.gid });
    let list: Vec<Xattr> = xattrs::to_xattrs(&d.xattrs);
    out.push(Job::Attributes { path: d.path.clone(), list });
    if d.mtime != 0 {
        out.push(Job::Times { path: d.path.clone(), secs: d.mtime });
    }
    assert(jobs_view(out@) =~= jobs_view(was) + finished(d@));
}

impl Unpacking {
    /// What was put off, the deepest directory first — so that a parent's time
    /// is not disturbed after it has been set by work done inside it — and
    /// what was done in all.
    pub fn finish(self) -> (r: (Vec<Job>, UnpackReport))
        requires
            self.inv(),
        ensures
            ({
                let list = deferred_view(self.deferred@);
                &&& jobs_view(r.0@) == all_finished(
                    deepest_first(list, deepest(list) as int),
                )
                &&& r.1 == (UnpackReport {
                    xattrs: (self.report.xattrs + waiting(list)) as u64,
                    ..self.report
                })
            }),
    {
        let ghost list = deferred_view(self.deferred@);
        let mut depths: Vec<usize> = Vec::new();
        let mut most: usize = 0;
        let mut i: usize = 0;
        assert(list.take(0) =~= Seq::empty());
        while i < self.deferred.len()
            invariant
                i <= self.deferred@.len(),
                list == deferred_view(self.deferred@),
                self.inv(),
                depths@.len() == i,
                forall|k: int|
                    0 <= k < i ==> #[trigger] depths@[k] == level(list[k]),
                most == deepest(list.take(i as int)),
            decreases self.deferred.len() - i,
        {
            let place: String = text::string_of(self.deferred[i].place.as_slice());
            let d: usize = paths::depth_of(place.as_str());
            proof {
                assert(list.take(i + 1).drop_last() =~= list.take(i as int));
                assert(list.take(i + 1).last() == self.deferred@[i as int]@);
            }
            depths.push(d);
            if d > most {
                most = d;
            }
            i += 1;
        }
        assert(list.take(i as int) =~= list);
        let mut out: Vec<Job> = Vec::new();
        let mut depth: usize = most;
        let ghost all = deepest_first(list, most as int);
        let ghost mut done: Seq<DeferredView> = Seq::empty();
        assert(jobs_view(out@) =~= all_finished(done));
        assert(done + all =~= all);
        loop
            invariant_except_break
                all == done + deepest_first(list, depth as int),
            invariant
                list == deferred_view(self.deferred@),
                depths@.len() == list.len(),
                forall|k: int|
                    0 <= k < list.len() ==> #[trigger] depths@[k] == level(list[k]),
                jobs_view(out@) == all_finished(done),
            ensures
                jobs_view(out@) == all_finished(all),
            decreases depth,
        {
            let mut k: usize = 0;
            let ghost start = out@;
            assert(list.take(0) =~= Seq::empty());
            assert(jobs_view(start) + all_finished(at_depth(list.take(0), depth as nat))
                =~= jobs_view(start));
            while k < self.deferred.len()
                invariant
                    k <= self.deferred@.len(),
                    list == deferred_view(self.deferred@),
                    depths@.len() == list.len(),
                    forall|j: int|
                        0 <= j < list.len() ==> #[trigger] depths@[j] == level(list[j]),
                    jobs_view(out@) == jobs_view(start) + all_finished(
                        at_depth(list.take(k as int), depth as nat),
                    ),
                decreases self.deferred.len() - k,
            {
                let ghost was = at_depth(list.take(k as int), depth as nat);
                proof {
                    assert(list.take(k + 1).drop_last() =~= list.take(k as int));
                    assert(list.take(k + 1).last() == list[k as int]);
                    assert(was.push(list[k as int]).drop_last() =~= was);
                }
                if depths[k] == depth {
                    finish_one(&mut out, &self.deferred[k]);
                    assert(jobs_view(out@) =~= jobs_view(start) + all_finished(
                        was.push(list[k as int]),
                    ));
                }
                k += 1;
            }
            proof {
                assert(list.take(k as int) =~= list);
                let here = at_depth(list, depth as nat);
                lemma_all_finished_add(done, here);
                assert(done + (here + deepest_first(list, depth - 1)) =~= (done + here)
                    + deepest_first(list, depth - 1));
                done = done + here;
            }
            if depth == 0 {
                assert(deepest_first(list, -1) =~= Seq::empty());
                assert(all =~= done);
                break;
            }
            depth -= 1;
        }
        let mut report: UnpackReport = self.report;
        report.xattrs = report.xattrs + self.pending;
        (out, report)
    }
}

/// What a directory that is unpacked calls for, given what is there: whether
/// something is removed, and whether the directory is created.
///
/// A name that was a file in a lower layer and is a directory in this one has
/// to change kind, not merge.
pub fn directory_steps(existing: Option<bool>) -> (r: (bool, bool))
    ensures
        r == (existing == Some(false), existing != Some(true)),
{
    match existing {
        Some(is_dir) => (!is_dir, !is_dir),
        None => (false, true),
    }
}

} // verus!
