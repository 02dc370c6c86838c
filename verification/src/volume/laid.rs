//! A filesystem as far as archives speak of it, and what unpacking makes of it.
//!
//! Names are names here: none is `.` or `..`, and no symbolic link is followed.

use vstd::multiset::Multiset;
use vstd::prelude::*;

use crate::tar::header::HeaderView;
use crate::volume::paths;
use crate::volume::types::{Attrs, Special};
use crate::volume::unpack::{self, DeferredView, JobView};

verus! {

/// Where something stands: the components of its path.
pub type Place = Seq<Seq<char>>;

/// What something is.
pub enum What {
    /// A directory.
    Directory,
    /// A file with these contents.
    File(Seq<u8>),
    /// A symbolic link to this target.
    Symlink(Seq<char>),
    /// A special file.
    Special(Special),
}

/// An inode, as far as an archive speaks of it.
#[verifier::ext_equal]
pub struct Thing {
    /// What it is.
    pub what: What,
    /// Permission bits.
    pub mode: u16,
    /// Owner.
    pub uid: u32,
    /// Group.
    pub gid: u32,
    /// Modification time.
    pub mtime: u32,
    /// Extended attributes.
    pub xattrs: Multiset<(Seq<char>, Seq<u8>)>,
}

/// A filesystem: which names lead to which inodes, and what those are.
#[verifier::ext_equal]
pub struct Laid {
    /// The inode at each place.
    pub names: Map<Place, nat>,
    /// What each inode is.
    pub things: Map<nat, Thing>,
    /// The inode that is made next.
    pub next: nat,
}

/// What stands at a place.
pub open spec fn thing_at(l: Laid, at: Place) -> Thing {
    l.things[l.names[at]]
}

/// With what stands at a place changed.
pub open spec fn with_thing(l: Laid, at: Place, t: Thing) -> Laid {
    if l.names.contains_key(at) {
        Laid { things: l.things.insert(l.names[at], t), ..l }
    } else {
        l
    }
}

/// A directory that names were changed in.
pub open spec fn touched(l: Laid, at: Place, now: u32) -> Laid {
    with_thing(l, at, Thing { mtime: now, ..thing_at(l, at) })
}

/// With a name entered.
pub open spec fn entered(l: Laid, at: Place, id: nat, now: u32) -> Laid {
    touched(Laid { names: l.names.insert(at, id), ..l }, at.drop_last(), now)
}

/// With something new at a place.
pub open spec fn created(l: Laid, at: Place, t: Thing, now: u32) -> Laid {
    entered(Laid { things: l.things.insert(l.next, t), next: l.next + 1, ..l }, at, l.next, now)
}

/// Whether a place is another, or inside it.
pub open spec fn within(at: Place, outer: Place) -> bool {
    outer.len() <= at.len() && at.take(outer.len() as int) == outer
}

/// With nothing inside a place.
pub open spec fn emptied(l: Laid, at: Place, now: u32) -> Laid {
    touched(
        Laid {
            names: l.names.remove_keys(Set::new(|p: Place| within(p, at) && p != at)),
            ..l
        },
        at,
        now,
    )
}

/// With nothing at a place, nor inside it.
pub open spec fn removed(l: Laid, at: Place, now: u32) -> Laid {
    if l.names.contains_key(at) {
        touched(
            Laid { names: l.names.remove_keys(Set::new(|p: Place| within(p, at))), ..l },
            at.drop_last(),
            now,
        )
    } else {
        l
    }
}

/// Something new, with these permissions and this owner.
pub open spec fn fresh(what: What, attrs: Attrs, now: u32) -> Thing {
    Thing {
        what,
        mode: attrs.mode & 0o7777,
        uid: attrs.uid,
        gid: attrs.gid,
        mtime: now,
        xattrs: Multiset::empty(),
    }
}

/// With the first `n` directories on the way to a place made, where they are
/// not there.
pub open spec fn made_along(l: Laid, at: Place, n: nat, now: u32) -> Laid
    decreases n,
{
    if n == 0 {
        l
    } else {
        let before = made_along(l, at, (n - 1) as nat, now);
        let dir = at.take(n as int);
        if before.names.contains_key(dir) {
            before
        } else {
            created(
                before,
                dir,
                fresh(What::Directory, Attrs { mode: 0o755, uid: 0, gid: 0 }, now),
                now,
            )
        }
    }
}

/// A filesystem after a job. A file gets the contents that come with its
/// entry.
pub open spec fn performed(l: Laid, j: JobView, data: Seq<u8>, now: u32) -> Laid {
    match j {
        JobView::Whiteout { dir, name } => {
            let at = paths::components(dir);
            if name == ".wh..wh..opq"@ {
                emptied(l, at, now)
            } else if paths::opens_with(name, ".wh..wh."@) {
                l
            } else {
                removed(
                    l,
                    paths::components(paths::joined(dir, name.skip(".wh."@.len() as int))),
                    now,
                )
            }
        },
        JobView::MakeParents(path) => {
            let at = paths::components(path);
            made_along(l, at, at.len(), now)
        },
        JobView::Directory { path, attrs } => {
            let at = paths::components(path);
            if l.names.contains_key(at) && thing_at(l, at).what is Directory {
                l
            } else {
                created(removed(l, at, now), at, fresh(What::Directory, attrs, now), now)
            }
        },
        JobView::Replace(path) => removed(l, paths::components(path), now),
        JobView::File { path, attrs } => created(
            l,
            paths::components(path),
            fresh(What::File(data), attrs, now),
            now,
        ),
        JobView::Symlink { path, target } => created(
            l,
            paths::components(path),
            fresh(What::Symlink(target), Attrs { mode: 0o777, uid: 0, gid: 0 }, now),
            now,
        ),
        JobView::HardLink { target, path } => entered(
            l,
            paths::components(path),
            l.names[paths::components(target)],
            now,
        ),
        JobView::Special { path, special, attrs } => created(
            l,
            paths::components(path),
            fresh(What::Special(special), attrs, now),
            now,
        ),
        JobView::Mode { path, mode } => {
            let at = paths::components(path);
            with_thing(l, at, Thing { mode: mode & 0o7777, ..thing_at(l, at) })
        },
        JobView::Owner { path, uid, gid } => {
            let at = paths::components(path);
            with_thing(l, at, Thing { uid, gid, ..thing_at(l, at) })
        },
        JobView::Attributes { path, list } => {
            let at = paths::components(path);
            with_thing(l, at, Thing { xattrs: list.to_multiset(), ..thing_at(l, at) })
        },
        JobView::Times { path, secs } => {
            let at = paths::components(path);
            with_thing(l, at, Thing { mtime: secs, ..thing_at(l, at) })
        },
    }
}

/// A filesystem after jobs, one after the other.
pub open spec fn all_performed(l: Laid, jobs: Seq<JobView>, data: Seq<u8>, now: u32) -> Laid
    decreases jobs.len(),
{
    if jobs.len() == 0 {
        l
    } else {
        performed(all_performed(l, jobs.drop_last(), data, now), jobs.last(), data, now)
    }
}

/// A filesystem after all that the entries of an archive call for as they
/// come.
pub open spec fn laid_down(
    l: Laid,
    base: Seq<char>,
    whiteouts: bool,
    entries: Seq<(HeaderView, Seq<u8>)>,
    now: u32,
) -> Laid
    decreases entries.len(),
{
    if entries.len() == 0 {
        l
    } else {
        let (h, data) = entries.last();
        all_performed(
            laid_down(l, base, whiteouts, entries.drop_last(), now),
            unpack::jobs(base, whiteouts, h),
            data,
            now,
        )
    }
}

/// The headers of entries.
pub open spec fn heads(entries: Seq<(HeaderView, Seq<u8>)>) -> Seq<HeaderView> {
    entries.map_values(|e: (HeaderView, Seq<u8>)| e.0)
}

/// A filesystem after an archive has been unpacked into it.
pub open spec fn unpacked(
    l: Laid,
    base: Seq<char>,
    whiteouts: bool,
    entries: Seq<(HeaderView, Seq<u8>)>,
    now: u32,
) -> Laid {
    let list = unpack::put_off_by(base, whiteouts, heads(entries));
    all_performed(
        laid_down(l, base, whiteouts, entries, now),
        unpack::all_finished(unpack::deepest_first(list, unpack::deepest(list) as int)),
        Seq::empty(),
        now,
    )
}

pub proof fn lemma_performed_add(l: Laid, a: Seq<JobView>, b: Seq<JobView>, data: Seq<u8>, now: u32)
    ensures
        all_performed(l, a + b, data, now) == all_performed(
            all_performed(l, a, data, now),
            b,
            data,
            now,
        ),
    decreases b.len(),
{
    if b.len() == 0 {
        assert(a + b =~= a);
    } else {
        lemma_performed_add(l, a, b.drop_last(), data, now);
        assert((a + b).drop_last() =~= a + b.drop_last());
        assert((a + b).last() == b.last());
    }
}

pub proof fn lemma_performed_one(l: Laid, j: JobView, data: Seq<u8>, now: u32)
    ensures
        all_performed(l, seq![j], data, now) == performed(l, j, data, now),
{
    assert(seq![j].drop_last() =~= Seq::<JobView>::empty());
    assert(seq![j].last() == j);
    reveal_with_fuel(all_performed, 2);
}

/// A directory once it is finished.
pub open spec fn finished_thing(t: Thing, d: DeferredView) -> Thing {
    Thing {
        mode: d.attrs.mode & 0o7777,
        uid: d.attrs.uid,
        gid: d.attrs.gid,
        xattrs: d.xattrs.to_multiset(),
        mtime: if d.mtime != 0 {
            d.mtime
        } else {
            t.mtime
        },
        ..t
    }
}

pub proof fn lemma_finished_one(x: Laid, d: DeferredView, data: Seq<u8>, now: u32)
    requires
        x.names.contains_key(paths::components(d.path)),
    ensures
        ({
            let at = paths::components(d.path);
            all_performed(x, unpack::finished(d), data, now) == with_thing(
                x,
                at,
                finished_thing(thing_at(x, at), d),
            )
        }),
{
    let at = paths::components(d.path);
    let mode = JobView::Mode { path: d.path, mode: d.attrs.mode };
    let owner = JobView::Owner { path: d.path, uid: d.attrs.uid, gid: d.attrs.gid };
    let attrs = JobView::Attributes { path: d.path, list: d.xattrs };
    let times = JobView::Times { path: d.path, secs: d.mtime };
    let last = if d.mtime != 0 {
        seq![times]
    } else {
        Seq::empty()
    };
    assert(seq![mode, owner, attrs] =~= seq![mode] + seq![owner] + seq![attrs]);
    lemma_performed_add(x, seq![mode, owner, attrs], last, data, now);
    lemma_performed_add(x, seq![mode] + seq![owner], seq![attrs], data, now);
    lemma_performed_add(x, seq![mode], seq![owner], data, now);
    lemma_performed_one(x, mode, data, now);
    let a = performed(x, mode, data, now);
    lemma_performed_one(a, owner, data, now);
    let b = performed(a, owner, data, now);
    lemma_performed_one(b, attrs, data, now);
    let c = performed(b, attrs, data, now);
    if d.mtime != 0 {
        lemma_performed_one(c, times, data, now);
    }
    let done = all_performed(x, unpack::finished(d), data, now);
    assert(done =~= with_thing(x, at, finished_thing(thing_at(x, at), d)));
}

/// Whether the directory that a place is in is there.
pub open spec fn has_home(l: Laid, at: Place) -> bool {
    &&& at.len() > 0
    &&& l.names.contains_key(at.drop_last())
    &&& thing_at(l, at.drop_last()).what is Directory
}

/// Whether a filesystem is sound: its root is a directory, every other name
/// stands in one, no directory has two names, and the inode that is made next
/// is in use nowhere.
pub open spec fn is_sound(l: Laid) -> bool {
    &&& l.names.contains_key(Seq::<Seq<char>>::empty())
    &&& thing_at(l, Seq::<Seq<char>>::empty()).what is Directory
    &&& forall|p: Place| #[trigger] l.names.contains_key(p) ==> l.names[p] < l.next
    &&& forall|p: Place| l.names.contains_key(p) && p.len() > 0 ==> #[trigger] has_home(l, p)
    &&& forall|p: Place, q: Place|
        #![trigger l.names.contains_key(p), l.names.contains_key(q)]
        l.names.contains_key(p) && l.names.contains_key(q) && l.names[p] == l.names[q]
            && thing_at(l, p).what is Directory ==> p == q
}

/// Whether a job can be done. Nothing is made where something stands, or
/// outside a directory, or out of a directory that has a name already, and the
/// root is not removed.
pub open spec fn can(l: Laid, j: JobView) -> bool {
    match j {
        JobView::Whiteout { dir, name } => {
            ||| name == ".wh..wh..opq"@
            ||| paths::opens_with(name, ".wh..wh."@)
            ||| paths::components(paths::joined(dir, name.skip(".wh."@.len() as int))).len() > 0
        },
        JobView::MakeParents(path) => {
            let at = paths::components(path);
            forall|n: int|
                0 <= n <= at.len() && l.names.contains_key(#[trigger] at.take(n)) ==> thing_at(
                    l,
                    at.take(n),
                ).what is Directory
        },
        JobView::Directory { path, attrs } => has_home(l, paths::components(path)),
        JobView::Replace(path) => paths::components(path).len() > 0,
        JobView::File { path, attrs } => {
            let at = paths::components(path);
            has_home(l, at) && !l.names.contains_key(at)
        },
        JobView::Symlink { path, target } => {
            let at = paths::components(path);
            has_home(l, at) && !l.names.contains_key(at)
        },
        JobView::HardLink { target, path } => {
            let at = paths::components(path);
            let there = paths::components(target);
            &&& has_home(l, at) && !l.names.contains_key(at)
            &&& l.names.contains_key(there) && !(thing_at(l, there).what is Directory)
        },
        JobView::Special { path, special, attrs } => {
            let at = paths::components(path);
            has_home(l, at) && !l.names.contains_key(at)
        },
        JobView::Mode { path, mode } => l.names.contains_key(paths::components(path)),
        JobView::Owner { path, uid, gid } => l.names.contains_key(paths::components(path)),
        JobView::Attributes { path, list } => l.names.contains_key(paths::components(path)),
        JobView::Times { path, secs } => l.names.contains_key(paths::components(path)),
    }
}

/// Whether jobs can be done, one after the other.
pub open spec fn all_can(l: Laid, jobs: Seq<JobView>, data: Seq<u8>, now: u32) -> bool
    decreases jobs.len(),
{
    if jobs.len() == 0 {
        true
    } else {
        &&& all_can(l, jobs.drop_last(), data, now)
        &&& can(all_performed(l, jobs.drop_last(), data, now), jobs.last())
    }
}

/// Whether all that the entries of an archive call for can be done.
pub open spec fn goes_well(
    l: Laid,
    base: Seq<char>,
    whiteouts: bool,
    entries: Seq<(HeaderView, Seq<u8>)>,
    now: u32,
) -> bool
    decreases entries.len(),
{
    if entries.len() == 0 {
        true
    } else {
        let (h, data) = entries.last();
        &&& goes_well(l, base, whiteouts, entries.drop_last(), now)
        &&& all_can(
            laid_down(l, base, whiteouts, entries.drop_last(), now),
            unpack::jobs(base, whiteouts, h),
            data,
            now,
        )
    }
}

pub proof fn lemma_can_add(l: Laid, a: Seq<JobView>, b: Seq<JobView>, data: Seq<u8>, now: u32)
    ensures
        all_can(l, a + b, data, now) == (all_can(l, a, data, now) && all_can(
            all_performed(l, a, data, now),
            b,
            data,
            now,
        )),
    decreases b.len(),
{
    if b.len() == 0 {
        assert(a + b =~= a);
    } else {
        lemma_can_add(l, a, b.drop_last(), data, now);
        lemma_performed_add(l, a, b.drop_last(), data, now);
        assert((a + b).drop_last() =~= a + b.drop_last());
        assert((a + b).last() == b.last());
    }
}

pub proof fn lemma_can_one(l: Laid, j: JobView, data: Seq<u8>, now: u32)
    ensures
        all_can(l, seq![j], data, now) == can(l, j),
{
    assert(seq![j].drop_last() =~= Seq::<JobView>::empty());
    assert(seq![j].last() == j);
    reveal_with_fuel(all_can, 2);
}

} // verus!
