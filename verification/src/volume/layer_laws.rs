//! What unpacking makes of a filesystem that already holds something.

use vstd::multiset::Multiset;
use vstd::prelude::*;

use crate::tar::header::{EntryKind, HeaderView};
use crate::volume::laid::{self, Laid, Place, Thing, What};
use crate::volume::paths;
use crate::volume::paths_laws;
use crate::volume::removal;
use crate::volume::types::Attrs;
use crate::volume::unpack::{self, DeferredView, JobView};
use crate::volume::unpack_laws;

verus! {

/// Whether two inodes are the same but for their times.
pub open spec fn same_but_time(a: Thing, b: Thing) -> bool {
    &&& a.what == b.what
    &&& a.mode == b.mode
    &&& a.uid == b.uid
    &&& a.gid == b.gid
    &&& a.xattrs == b.xattrs
}

/// Inodes are added, and those that are there change in their times alone.
spec fn grows(x: Laid, y: Laid) -> bool {
    &&& x.next <= y.next
    &&& forall|m: nat| m < x.next ==> same_but_time(x.things[m], #[trigger] y.things[m])
}

proof fn lemma_grows(x: Laid, y: Laid, z: Laid)
    requires
        grows(x, y),
        grows(y, z),
    ensures
        grows(x, z),
{
    assert forall|m: nat| m < x.next implies same_but_time(x.things[m], #[trigger] z.things[m]) by {
        assert(same_but_time(x.things[m], y.things[m]));
    }
}

/// Every place on the way to a name is there, and is a directory.
proof fn lemma_way(l: Laid, p: Place, n: int)
    requires
        laid::is_sound(l),
        l.names.contains_key(p),
        0 <= n <= p.len(),
    ensures
        l.names.contains_key(p.take(n)),
        n < p.len() ==> laid::thing_at(l, p.take(n)).what is Directory,
    decreases p.len() - n,
{
    if n == p.len() {
        assert(p.take(n) =~= p);
    } else {
        lemma_way(l, p, n + 1);
        let q = p.take(n + 1);
        assert(laid::has_home(l, q));
        assert(q.drop_last() =~= p.take(n));
    }
}

proof fn lemma_within(p: Place, at: Place)
    requires
        at.len() > 0,
        p.len() > 0,
    ensures
        laid::within(p.drop_last(), at) ==> laid::within(p, at),
        laid::within(p, at) && p != at ==> laid::within(p.drop_last(), at),
{
    let up = p.drop_last();
    let n = at.len() as int;
    if laid::within(up, at) {
        assert(p.take(n) =~= up.take(n));
    }
    if laid::within(p, at) && p != at {
        if p.len() == at.len() {
            assert(p.take(n) =~= p);
        }
        assert(up.take(n) =~= p.take(n));
    }
}

/// A change of a directory's time.
proof fn lemma_touched(x: Laid, at: Place, now: u32)
    requires
        laid::is_sound(x),
    ensures
        ({
            let y = laid::touched(x, at, now);
            &&& y.names == x.names
            &&& y.next == x.next
            &&& grows(x, y)
            &&& forall|m: nat| same_but_time(x.things[m], #[trigger] y.things[m])
            &&& laid::is_sound(y)
        }),
{
    let y = laid::touched(x, at, now);
    lemma_sound_alike(x, y);
}

/// A filesystem with the same names and the same kinds of inodes is as sound.
proof fn lemma_sound_alike(x: Laid, y: Laid)
    requires
        laid::is_sound(x),
        y.names == x.names,
        y.next == x.next,
        forall|m: nat| (#[trigger] y.things[m]).what == x.things[m].what,
    ensures
        laid::is_sound(y),
{
    let root = Seq::<Seq<char>>::empty();
    assert(laid::thing_at(y, root).what == laid::thing_at(x, root).what);
    assert forall|p: Place| y.names.contains_key(p) && p.len() > 0 implies #[trigger]
        laid::has_home(y, p) by {
        assert(laid::has_home(x, p));
        assert(laid::thing_at(y, p.drop_last()).what == laid::thing_at(x, p.drop_last()).what);
    }
    assert forall|p: Place, q: Place|
        #![trigger y.names.contains_key(p), y.names.contains_key(q)]
        y.names.contains_key(p) && y.names.contains_key(q) && y.names[p] == y.names[q]
            && laid::thing_at(y, p).what is Directory implies p == q by {
        assert(laid::thing_at(y, p).what == laid::thing_at(x, p).what);
        assert(x.names.contains_key(p) && x.names.contains_key(q));
    }
}

/// What making something does.
proof fn lemma_created(x: Laid, at: Place, t: Thing, now: u32)
    requires
        laid::is_sound(x),
        laid::has_home(x, at),
        !x.names.contains_key(at),
    ensures
        ({
            let y = laid::created(x, at, t, now);
            &&& laid::is_sound(y)
            &&& grows(x, y)
            &&& y.names == x.names.insert(at, x.next)
            &&& y.next == x.next + 1
            &&& y.things[x.next] == t
        }),
{
    let y = laid::created(x, at, t, now);
    let up = at.drop_last();
    assert(up != at);
    assert(x.names[up] < x.next);
    assert forall|m: nat| m < x.next implies same_but_time(x.things[m], #[trigger] y.things[m]) by {}
    assert(y.names.contains_key(Seq::<Seq<char>>::empty()));
    assert(x.names[Seq::<Seq<char>>::empty()] < x.next);
    assert forall|p: Place| y.names.contains_key(p) && p.len() > 0 implies #[trigger]
        laid::has_home(y, p) by {
        if p != at {
            assert(laid::has_home(x, p));
        }
        let q = p.drop_last();
        assert(x.names.contains_key(q));
        assert(x.names[q] < x.next);
        assert(q != at);
        assert(same_but_time(x.things[x.names[q]], y.things[x.names[q]]));
    }
    assert forall|p: Place, q: Place|
        #![trigger y.names.contains_key(p), y.names.contains_key(q)]
        y.names.contains_key(p) && y.names.contains_key(q) && y.names[p] == y.names[q]
            && laid::thing_at(y, p).what is Directory implies p == q by {
        if p != at && q != at {
            assert(x.names.contains_key(p) && x.names.contains_key(q));
            assert(x.names[p] < x.next);
            assert(same_but_time(x.things[x.names[p]], y.things[x.names[p]]));
        } else if p != at {
            assert(x.names.contains_key(p));
            assert(x.names[p] < x.next);
        } else if q != at {
            assert(x.names.contains_key(q));
            assert(x.names[q] < x.next);
        }
    }
}

/// What entering another name does.
proof fn lemma_entered(x: Laid, at: Place, there: Place, now: u32)
    requires
        laid::is_sound(x),
        laid::has_home(x, at),
        !x.names.contains_key(at),
        x.names.contains_key(there),
        !(laid::thing_at(x, there).what is Directory),
    ensures
        ({
            let y = laid::entered(x, at, x.names[there], now);
            &&& laid::is_sound(y)
            &&& grows(x, y)
            &&& y.names == x.names.insert(at, x.names[there])
        }),
{
    let id = x.names[there];
    let y = laid::entered(x, at, id, now);
    let up = at.drop_last();
    assert(up != at);
    assert(forall|m: nat| same_but_time(x.things[m], #[trigger] y.things[m]));
    assert(laid::thing_at(y, Seq::<Seq<char>>::empty()).what == laid::thing_at(
        x,
        Seq::<Seq<char>>::empty(),
    ).what);
    assert forall|p: Place| y.names.contains_key(p) && p.len() > 0 implies #[trigger]
        laid::has_home(y, p) by {
        if p != at {
            assert(laid::has_home(x, p));
        }
        let q = p.drop_last();
        assert(x.names.contains_key(q));
        assert(q != at);
        assert(same_but_time(x.things[x.names[q]], y.things[x.names[q]]));
    }
    assert forall|p: Place, q: Place|
        #![trigger y.names.contains_key(p), y.names.contains_key(q)]
        y.names.contains_key(p) && y.names.contains_key(q) && y.names[p] == y.names[q]
            && laid::thing_at(y, p).what is Directory implies p == q by {
        assert(same_but_time(x.things[y.names[p]], y.things[y.names[p]]));
        assert(p != at && q != at);
        assert(x.names.contains_key(p) && x.names.contains_key(q));
    }
}

/// What removing a place, or what is inside it, does: `gone` says what goes,
/// and with something goes all that is inside it.
proof fn lemma_without(x: Laid, y: Laid, gone: spec_fn(Place) -> bool)
    requires
        laid::is_sound(x),
        y.next == x.next,
        y.things == x.things,
        !gone(Seq::<Seq<char>>::empty()),
        forall|p: Place| #[trigger]
            y.names.contains_key(p) <==> x.names.contains_key(p) && !gone(p),
        forall|p: Place| #[trigger] y.names.contains_key(p) ==> y.names[p] == x.names[p],
        forall|p: Place| p.len() > 0 && #[trigger] gone(p.drop_last()) ==> gone(p),
    ensures
        laid::is_sound(y),
{
    assert(y.names.contains_key(Seq::<Seq<char>>::empty()));
    assert forall|p: Place| #[trigger] y.names.contains_key(p) implies y.names[p] < y.next by {
        assert(x.names.contains_key(p));
    }
    assert forall|p: Place| y.names.contains_key(p) && p.len() > 0 implies #[trigger]
        laid::has_home(y, p) by {
        assert(laid::has_home(x, p));
        let q = p.drop_last();
        assert(gone(q) ==> gone(p));
        assert(y.names.contains_key(q));
    }
    assert forall|p: Place, q: Place|
        #![trigger y.names.contains_key(p), y.names.contains_key(q)]
        y.names.contains_key(p) && y.names.contains_key(q) && y.names[p] == y.names[q]
            && laid::thing_at(y, p).what is Directory implies p == q by {
        assert(x.names.contains_key(p) && x.names.contains_key(q));
    }
}

proof fn lemma_removed(x: Laid, at: Place, now: u32)
    requires
        laid::is_sound(x),
        at.len() > 0,
    ensures
        ({
            let y = laid::removed(x, at, now);
            &&& laid::is_sound(y)
            &&& grows(x, y)
            &&& y.next == x.next
            &&& forall|p: Place| #[trigger]
                y.names.contains_key(p) <==> x.names.contains_key(p) && !laid::within(p, at)
            &&& forall|p: Place| #[trigger] y.names.contains_key(p) ==> y.names[p] == x.names[p]
        }),
{
    let y = laid::removed(x, at, now);
    if x.names.contains_key(at) {
        let gone = |p: Place| laid::within(p, at);
        let mid = Laid {
            names: x.names.remove_keys(Set::new(|p: Place| laid::within(p, at))),
            ..x
        };
        assert forall|p: Place| p.len() > 0 && #[trigger] gone(p.drop_last()) implies gone(p) by {
            lemma_within(p, at);
        }
        lemma_without(x, mid, gone);
        lemma_touched(mid, at.drop_last(), now);
        assert(y == laid::touched(mid, at.drop_last(), now));
        assert forall|m: nat| m < x.next implies same_but_time(
            x.things[m],
            #[trigger] y.things[m],
        ) by {
            assert(same_but_time(mid.things[m], y.things[m]));
        }
    } else {
        assert forall|p: Place| #[trigger] x.names.contains_key(p) implies !laid::within(p, at) by {
            if laid::within(p, at) {
                lemma_way(x, p, at.len() as int);
            }
        }
    }
}

proof fn lemma_emptied(x: Laid, at: Place, now: u32)
    requires
        laid::is_sound(x),
    ensures
        ({
            let y = laid::emptied(x, at, now);
            &&& laid::is_sound(y)
            &&& grows(x, y)
            &&& y.next == x.next
            &&& forall|p: Place| #[trigger]
                y.names.contains_key(p) <==> x.names.contains_key(p) && !(laid::within(p, at)
                    && p != at)
            &&& forall|p: Place| #[trigger] y.names.contains_key(p) ==> y.names[p] == x.names[p]
        }),
{
    let y = laid::emptied(x, at, now);
    let gone = |p: Place| laid::within(p, at) && p != at;
    let mid = Laid {
        names: x.names.remove_keys(Set::new(|p: Place| laid::within(p, at) && p != at)),
        ..x
    };
    let root = Seq::<Seq<char>>::empty();
    assert(!gone(root)) by {
        if laid::within(root, at) {
            assert(at =~= root);
        }
    }
    assert forall|p: Place| p.len() > 0 && #[trigger] gone(p.drop_last()) implies gone(p) by {
        let n = at.len() as int;
        assert(p.take(n) =~= p.drop_last().take(n));
        assert(p.drop_last().len() >= at.len());
    }
    lemma_without(x, mid, gone);
    lemma_touched(mid, at, now);
    assert(y == laid::touched(mid, at, now));
    assert forall|m: nat| m < x.next implies same_but_time(x.things[m], #[trigger] y.things[m]) by {
        assert(same_but_time(mid.things[m], y.things[m]));
    }
}

/// What making the directories on the way to a place does.
proof fn lemma_made_along(x: Laid, at: Place, n: nat, now: u32)
    requires
        laid::is_sound(x),
        n <= at.len(),
        forall|k: int|
            0 <= k <= at.len() && x.names.contains_key(#[trigger] at.take(k)) ==> laid::thing_at(
                x,
                at.take(k),
            ).what is Directory,
    ensures
        ({
            let y = laid::made_along(x, at, n, now);
            &&& laid::is_sound(y)
            &&& grows(x, y)
            &&& forall|p: Place| #[trigger]
                x.names.contains_key(p) ==> y.names.contains_key(p) && y.names[p] == x.names[p]
            &&& forall|p: Place| #[trigger]
                y.names.contains_key(p) && !x.names.contains_key(p) ==> laid::within(at, p)
            &&& y.names.contains_key(at.take(n as int))
            &&& laid::thing_at(y, at.take(n as int)).what is Directory
        }),
    decreases n,
{
    if n == 0 {
        assert(at.take(0) =~= Seq::<Seq<char>>::empty());
    } else {
        lemma_made_along(x, at, (n - 1) as nat, now);
        let z = laid::made_along(x, at, (n - 1) as nat, now);
        let y = laid::made_along(x, at, n, now);
        let dir = at.take(n as int);
        assert(dir.drop_last() =~= at.take(n - 1));
        assert(laid::within(at, dir));
        if z.names.contains_key(dir) {
            if x.names.contains_key(dir) {
                assert(x.names[dir] < x.next);
                assert(same_but_time(x.things[x.names[dir]], z.things[x.names[dir]]));
            } else {
                lemma_new_directory(x, at, (n - 1) as nat, now, dir);
            }
        } else {
            let t = laid::fresh(What::Directory, Attrs { mode: 0o755, uid: 0, gid: 0 }, now);
            lemma_created(z, dir, t, now);
            lemma_grows(x, z, y);
        }
    }
}

/// What was made on the way to a place is no longer than the way.
proof fn lemma_new_directory(x: Laid, at: Place, n: nat, now: u32, dir: Place)
    requires
        laid::made_along(x, at, n, now).names.contains_key(dir),
        n < dir.len() <= at.len(),
        n <= at.len(),
    ensures
        x.names.contains_key(dir),
    decreases n,
{
    if n > 0 {
        let before = laid::made_along(x, at, (n - 1) as nat, now);
        assert(at.take(n as int).len() == n);
        lemma_new_directory(x, at, (n - 1) as nat, now, dir);
    }
}

/// Where an entry lands.
pub open spec fn site(base: Seq<char>, h: HeaderView) -> Place {
    paths::components(unpack::path_of(base, h))
}

/// Whether an entry lays something down: it is no whiteout marker to be obeyed.
pub open spec fn lays(whiteouts: bool, h: HeaderView) -> bool {
    h.path.len() > 0 && !unpack::whites_out(whiteouts, h)
}

/// Whether an entry takes away what stands at a place. An opaque marker takes
/// what is in its directory, another what it names; what is no directory is laid
/// down anew.
pub open spec fn clears(base: Seq<char>, whiteouts: bool, h: HeaderView, p: Place) -> bool {
    let dir = paths::placed_at(base, paths::above(h.path));
    let name = paths::below(h.path);
    if h.path.len() == 0 {
        false
    } else if unpack::whites_out(whiteouts, h) {
        if name == ".wh..wh..opq"@ {
            laid::within(p, paths::components(dir)) && p != paths::components(dir)
        } else if paths::opens_with(name, ".wh..wh."@) {
            false
        } else {
            laid::within(
                p,
                paths::components(paths::joined(dir, name.skip(".wh."@.len() as int))),
            )
        }
    } else {
        !(h.kind is Directory) && laid::within(p, site(base, h))
    }
}

/// Whether an inode is what an entry says: its contents, its target or its
/// device numbers, and but for a symbolic link its permissions, its owner and
/// its extended attributes, and no others. A hard link shares another's, of
/// which it says nothing.
pub open spec fn is_made(t: Thing, h: HeaderView, data: Seq<u8>) -> bool {
    &&& match h.kind {
        EntryKind::File => t.what == What::File(data),
        EntryKind::Directory => t.what is Directory,
        EntryKind::Symlink => t.what == What::Symlink(h.link),
        EntryKind::HardLink => true,
        _ => t.what == What::Special(unpack::special_of(h)),
    }
    &&& !(h.kind is Symlink || h.kind is HardLink) ==> {
        &&& t.mode == h.mode & 0o7777
        &&& t.uid == h.uid
        &&& t.gid == h.gid
        &&& t.xattrs == h.xattrs.to_multiset()
    }
}

/// What stands above a path is in front of it.
proof fn lemma_above(base: Seq<char>, path: Seq<char>)
    ensures
        laid::within(
            paths::components(paths::placed_at(base, path)),
            paths::components(paths::placed_at(base, paths::above(path))),
        ),
{
    let root = paths::components(base);
    let all = paths::components(path);
    let up = paths::components(paths::above(path));
    paths_laws::law_placing_adds_components(base, path);
    paths_laws::law_placing_adds_components(base, paths::above(path));
    paths::lemma_last_start(path, path.len() as int);
    let at = paths::name_start(path);
    assert(laid::within(all, up)) by {
        if at > 0 {
            assert(up == paths::components(path.take(at - 1)));
            assert(all.take(up.len() as int) =~= up);
        } else {
            assert(paths::components(Seq::<char>::empty()) =~= Seq::<Seq<char>>::empty());
            assert(all.take(0) =~= up);
        }
    }
    assert((root + all).take((root + up).len() as int) =~= root + up) by {
        assert(all.take(up.len() as int) == up);
        assert forall|k: int| 0 <= k < (root + up).len() implies (root + all).take(
            (root + up).len() as int,
        )[k] == (root + up)[k] by {
            if k >= root.len() {
                assert(all.take(up.len() as int)[k - root.len()] == up[k - root.len()]);
            }
        }
    }
}

proof fn lemma_within_twice(p: Place, q: Place, r: Place)
    requires
        laid::within(p, q),
        laid::within(q, r),
    ensures
        laid::within(p, r),
{
    assert(p.take(r.len() as int) =~= p.take(q.len() as int).take(r.len() as int));
}

/// What making somewhere for an entry to go does.
proof fn lemma_parents(base: Seq<char>, h: HeaderView, x: Laid, data: Seq<u8>, now: u32)
    requires
        laid::is_sound(x),
        laid::all_can(x, unpack::parents_of(base, h), data, now),
    ensures
        ({
            let y = laid::all_performed(x, unpack::parents_of(base, h), data, now);
            &&& laid::is_sound(y)
            &&& grows(x, y)
            &&& forall|p: Place| #[trigger]
                x.names.contains_key(p) ==> y.names.contains_key(p) && y.names[p] == x.names[p]
            &&& forall|p: Place| #[trigger]
                y.names.contains_key(p) && !x.names.contains_key(p) ==> laid::within(
                    site(base, h),
                    p,
                )
        }),
{
    if paths::above(h.path).len() > 0 {
        let path = paths::placed_at(base, paths::above(h.path));
        let at = paths::components(path);
        let job = JobView::MakeParents(path);
        laid::lemma_can_one(x, job, data, now);
        laid::lemma_performed_one(x, job, data, now);
        lemma_made_along(x, at, at.len(), now);
        lemma_above(base, h.path);
        let y = laid::performed(x, job, data, now);
        assert forall|p: Place| #[trigger]
            y.names.contains_key(p) && !x.names.contains_key(p) implies laid::within(
            site(base, h),
            p,
        ) by {
            lemma_within_twice(site(base, h), at, p);
        }
    }
}

/// What one step of an entry leaves: names but for those at and inside a place.
spec fn steps(x: Laid, y: Laid, at: Place) -> bool {
    &&& laid::is_sound(y)
    &&& grows(x, y)
    &&& y.names.contains_key(at)
    &&& forall|p: Place| #[trigger]
        x.names.contains_key(p) && !laid::within(p, at) ==> y.names.contains_key(p) && y.names[p]
            == x.names[p]
    &&& forall|p: Place| #[trigger]
        y.names.contains_key(p) && p != at ==> x.names.contains_key(p) && y.names[p] == x.names[p]
}

/// What laying down a directory does.
proof fn lemma_directory(x: Laid, path: Seq<char>, attrs: Attrs, data: Seq<u8>, now: u32)
    requires
        laid::is_sound(x),
        laid::can(x, JobView::Directory { path, attrs }),
    ensures
        ({
            let at = paths::components(path);
            let y = laid::performed(x, JobView::Directory { path, attrs }, data, now);
            &&& steps(x, y, at)
            &&& laid::thing_at(y, at).what is Directory
            &&& forall|p: Place| #[trigger]
                x.names.contains_key(p) && (p == at ==> laid::thing_at(x, p).what is Directory)
                    ==> y.names.contains_key(p) && y.names[p] == x.names[p]
        }),
{
    let at = paths::components(path);
    if !(x.names.contains_key(at) && laid::thing_at(x, at).what is Directory) {
        let mid = laid::removed(x, at, now);
        let up = at.drop_last();
        lemma_removed(x, at, now);
        assert(!laid::within(up, at));
        assert(mid.names.contains_key(up));
        assert(x.names[up] < x.next);
        assert(same_but_time(x.things[x.names[up]], mid.things[x.names[up]]));
        assert(laid::within(at, at)) by {
            assert(at.take(at.len() as int) =~= at);
        }
        let t = laid::fresh(What::Directory, attrs, now);
        lemma_created(mid, at, t, now);
        let y = laid::created(mid, at, t, now);
        lemma_grows(x, mid, y);
        assert forall|p: Place| #[trigger]
            x.names.contains_key(p) && (p == at ==> laid::thing_at(x, p).what is Directory)
            implies y.names.contains_key(p) && y.names[p] == x.names[p] by {
            if laid::within(p, at) && p != at {
                if p.len() == at.len() {
                    assert(p.take(at.len() as int) =~= p);
                }
                lemma_way(x, p, at.len() as int);
            }
            if !laid::within(p, at) {
                assert(mid.names.contains_key(p));
            }
        }
        assert forall|p: Place| #[trigger]
            x.names.contains_key(p) && !laid::within(p, at) implies y.names.contains_key(p)
            && y.names[p] == x.names[p] by {
            assert(mid.names.contains_key(p));
        }
        assert forall|p: Place| #[trigger] y.names.contains_key(p) && p != at implies
            x.names.contains_key(p) && y.names[p] == x.names[p] by {
            assert(mid.names.contains_key(p));
        }
    }
}

/// What clearing a place and making something there does.
proof fn lemma_replaced(x: Laid, path: Seq<char>, t: Thing, now: u32)
    requires
        laid::is_sound(x),
        laid::has_home(laid::removed(x, paths::components(path), now), paths::components(path)),
    ensures
        ({
            let at = paths::components(path);
            let mid = laid::removed(x, at, now);
            let y = laid::created(mid, at, t, now);
            &&& steps(x, y, at)
            &&& y.names[at] == x.next
            &&& y.next == x.next + 1
            &&& y.things[x.next] == t
        }),
{
    let at = paths::components(path);
    let mid = laid::removed(x, at, now);
    lemma_removed(x, at, now);
    assert(laid::within(at, at)) by {
        assert(at.take(at.len() as int) =~= at);
    }
    assert(!mid.names.contains_key(at));
    lemma_created(mid, at, t, now);
    let y = laid::created(mid, at, t, now);
    lemma_grows(x, mid, y);
    assert forall|p: Place| #[trigger] x.names.contains_key(p) && !laid::within(p, at) implies
        y.names.contains_key(p) && y.names[p] == x.names[p] by {
        assert(mid.names.contains_key(p));
    }
    assert forall|p: Place| #[trigger] y.names.contains_key(p) && p != at implies
        x.names.contains_key(p) && y.names[p] == x.names[p] by {
        assert(mid.names.contains_key(p));
    }
}

/// What clearing a place and giving something another name there does.
proof fn lemma_relinked(x: Laid, path: Seq<char>, target: Seq<char>, data: Seq<u8>, now: u32)
    requires
        laid::is_sound(x),
        paths::components(path).len() > 0,
        laid::can(
            laid::removed(x, paths::components(path), now),
            JobView::HardLink { target, path },
        ),
    ensures
        ({
            let at = paths::components(path);
            let mid = laid::removed(x, at, now);
            steps(x, laid::performed(mid, JobView::HardLink { target, path }, data, now), at)
        }),
{
    let at = paths::components(path);
    let mid = laid::removed(x, at, now);
    lemma_removed(x, at, now);
    lemma_entered(mid, at, paths::components(target), now);
    let y = laid::performed(mid, JobView::HardLink { target, path }, data, now);
    lemma_grows(x, mid, y);
    assert(laid::within(at, at)) by {
        assert(at.take(at.len() as int) =~= at);
    }
    assert forall|p: Place| #[trigger] x.names.contains_key(p) && !laid::within(p, at) implies
        y.names.contains_key(p) && y.names[p] == x.names[p] by {
        assert(mid.names.contains_key(p));
    }
    assert forall|p: Place| #[trigger] y.names.contains_key(p) && p != at implies
        x.names.contains_key(p) && y.names[p] == x.names[p] by {
        assert(mid.names.contains_key(p));
    }
}

/// What setting the attributes and the time of something new does.
proof fn lemma_dressed(base: Seq<char>, h: HeaderView, x: Laid, y: Laid, data: Seq<u8>, now: u32)
    requires
        steps(x, y, site(base, h)),
        y.names[site(base, h)] == x.next,
        y.next == x.next + 1,
    ensures
        ({
            let z = laid::all_performed(y, unpack::dressed(base, h), data, now);
            let t = y.things[x.next];
            &&& steps(x, z, site(base, h))
            &&& z.names == y.names
            &&& z.things[x.next].what == t.what
            &&& z.things[x.next].mode == t.mode
            &&& z.things[x.next].uid == t.uid
            &&& z.things[x.next].gid == t.gid
            &&& z.things[x.next].xattrs == (if h.xattrs.len() > 0 {
                h.xattrs.to_multiset()
            } else {
                t.xattrs
            })
        }),
{
    let path = unpack::path_of(base, h);
    let one = if h.xattrs.len() > 0 {
        seq![JobView::Attributes { path, list: h.xattrs }]
    } else {
        Seq::empty()
    };
    let two = if h.mtime != 0 {
        seq![JobView::Times { path, secs: h.mtime }]
    } else {
        Seq::empty()
    };
    laid::lemma_performed_add(y, one, two, data, now);
    let mid = laid::all_performed(y, one, data, now);
    if h.xattrs.len() > 0 {
        laid::lemma_performed_one(y, JobView::Attributes { path, list: h.xattrs }, data, now);
    }
    if h.mtime != 0 {
        laid::lemma_performed_one(mid, JobView::Times { path, secs: h.mtime }, data, now);
    }
    let z = laid::all_performed(y, unpack::dressed(base, h), data, now);
    assert(forall|m: nat| m != x.next ==> #[trigger] z.things[m] == y.things[m]);
    lemma_sound_alike(y, z);
    assert forall|m: nat| m < x.next implies same_but_time(x.things[m], #[trigger] z.things[m]) by {
        assert(same_but_time(x.things[m], y.things[m]));
    }
}

proof fn lemma_none(s: Seq<(Seq<char>, Seq<u8>)>)
    requires
        s.len() == 0,
    ensures
        s.to_multiset() == Multiset::<(Seq<char>, Seq<u8>)>::empty(),
{
    broadcast use vstd::seq_lib::group_to_multiset_ensures;

    assert(s.to_multiset().len() == 0);
}

/// What creating what an entry is does.
proof fn lemma_made(base: Seq<char>, h: HeaderView, x: Laid, data: Seq<u8>, now: u32)
    requires
        laid::is_sound(x),
        ({
            let rest = unpack::made(base, h) + (if unpack::finished_at_once(h.kind) {
                unpack::dressed(base, h)
            } else {
                Seq::empty()
            });
            laid::all_can(x, rest, data, now)
        }),
    ensures
        ({
            let rest = unpack::made(base, h) + (if unpack::finished_at_once(h.kind) {
                unpack::dressed(base, h)
            } else {
                Seq::empty()
            });
            let at = site(base, h);
            let y = laid::all_performed(x, rest, data, now);
            &&& steps(x, y, at)
            &&& h.kind is Directory ==> laid::thing_at(y, at).what is Directory && forall|p: Place|
             #[trigger]
                x.names.contains_key(p) && (p == at ==> laid::thing_at(x, p).what is Directory)
                    ==> y.names.contains_key(p) && y.names[p] == x.names[p]
            &&& !(h.kind is Directory) ==> is_made(laid::thing_at(y, at), h, data)
        }),
{
    let path = unpack::path_of(base, h);
    let at = site(base, h);
    let attrs = unpack::attrs_of(h);
    let dress = if unpack::finished_at_once(h.kind) {
        unpack::dressed(base, h)
    } else {
        Seq::empty()
    };
    let made = unpack::made(base, h);
    laid::lemma_can_add(x, made, dress, data, now);
    laid::lemma_performed_add(x, made, dress, data, now);
    if h.xattrs.len() == 0 {
        lemma_none(h.xattrs);
    }
    if h.kind is Directory {
        let job = JobView::Directory { path, attrs };
        assert(made =~= seq![job]);
        laid::lemma_can_one(x, job, data, now);
        laid::lemma_performed_one(x, job, data, now);
        lemma_directory(x, path, attrs, data, now);
    } else {
        let replace = JobView::Replace(path);
        let make = made[1];
        assert(made =~= seq![replace] + seq![make]);
        let mid = laid::performed(x, replace, data, now);
        laid::lemma_can_add(x, seq![replace], seq![make], data, now);
        laid::lemma_performed_add(x, seq![replace], seq![make], data, now);
        laid::lemma_can_one(x, replace, data, now);
        laid::lemma_performed_one(x, replace, data, now);
        laid::lemma_can_one(mid, make, data, now);
        laid::lemma_performed_one(mid, make, data, now);
        assert(mid == laid::removed(x, at, now));
        lemma_removed(x, at, now);
        let y = laid::performed(mid, make, data, now);
        match h.kind {
            EntryKind::HardLink => {
                let target = paths::placed_at(base, crate::tar::field::normal(h.link));
                lemma_relinked(x, path, target, data, now);
            },
            EntryKind::Symlink => {
                let plain = Attrs { mode: 0o777, uid: 0, gid: 0 };
                lemma_replaced(x, path, laid::fresh(What::Symlink(h.link), plain, now), now);
            },
            EntryKind::File => {
                lemma_replaced(x, path, laid::fresh(What::File(data), attrs, now), now);
                lemma_dressed(base, h, x, y, data, now);
            },
            _ => {
                let special = unpack::special_of(h);
                lemma_replaced(x, path, laid::fresh(What::Special(special), attrs, now), now);
                lemma_dressed(base, h, x, y, data, now);
            },
        }
    }
}

/// What an entry does: the names it leaves, the names it adds, and what it
/// lays down.
proof fn lemma_entry(
    base: Seq<char>,
    whiteouts: bool,
    h: HeaderView,
    x: Laid,
    data: Seq<u8>,
    now: u32,
)
    requires
        laid::is_sound(x),
        laid::all_can(x, unpack::jobs(base, whiteouts, h), data, now),
    ensures
        ({
            let y = laid::all_performed(x, unpack::jobs(base, whiteouts, h), data, now);
            let at = site(base, h);
            &&& laid::is_sound(y)
            &&& grows(x, y)
            &&& forall|p: Place| #[trigger]
                x.names.contains_key(p) && !clears(base, whiteouts, h, p) && (lays(whiteouts, h)
                    && p == at ==> laid::thing_at(x, p).what is Directory)
                    ==> y.names.contains_key(p) && y.names[p] == x.names[p]
            &&& forall|p: Place| #[trigger]
                y.names.contains_key(p) && (!x.names.contains_key(p) || y.names[p] != x.names[p])
                    ==> lays(whiteouts, h) && laid::within(at, p)
            &&& !lays(whiteouts, h) ==> forall|p: Place| #[trigger]
                y.names.contains_key(p) ==> !clears(base, whiteouts, h, p)
            &&& lays(whiteouts, h) ==> y.names.contains_key(at) && (if h.kind is Directory {
                laid::thing_at(y, at).what is Directory
            } else {
                is_made(laid::thing_at(y, at), h, data)
            })
        }),
{
    let jobs = unpack::jobs(base, whiteouts, h);
    let y = laid::all_performed(x, jobs, data, now);
    let at = site(base, h);
    if h.path.len() == 0 {
    } else if unpack::whites_out(whiteouts, h) {
        let dir = paths::placed_at(base, paths::above(h.path));
        let name = paths::below(h.path);
        let job = JobView::Whiteout { dir, name };
        assert(jobs =~= seq![job]);
        laid::lemma_can_one(x, job, data, now);
        laid::lemma_performed_one(x, job, data, now);
        if name == ".wh..wh..opq"@ {
            lemma_emptied(x, paths::components(dir), now);
        } else if !paths::opens_with(name, ".wh..wh."@) {
            lemma_removed(
                x,
                paths::components(paths::joined(dir, name.skip(".wh."@.len() as int))),
                now,
            );
        }
    } else {
        let parents = unpack::parents_of(base, h);
        let dress = if unpack::finished_at_once(h.kind) {
            unpack::dressed(base, h)
        } else {
            Seq::empty()
        };
        let rest = unpack::made(base, h) + dress;
        assert(jobs =~= parents + rest);
        laid::lemma_can_add(x, parents, rest, data, now);
        laid::lemma_performed_add(x, parents, rest, data, now);
        lemma_parents(base, h, x, data, now);
        let mid = laid::all_performed(x, parents, data, now);
        lemma_made(base, h, mid, data, now);
        lemma_grows(x, mid, y);
        assert(laid::within(at, at)) by {
            assert(at.take(at.len() as int) =~= at);
        }
        assert forall|p: Place| #[trigger]
            x.names.contains_key(p) && !clears(base, whiteouts, h, p) && (p == at
                ==> laid::thing_at(x, p).what is Directory) implies y.names.contains_key(p)
            && y.names[p] == x.names[p] by {
            assert(mid.names.contains_key(p));
            assert(x.names[p] < x.next);
            assert(same_but_time(x.things[x.names[p]], mid.things[x.names[p]]));
        }
        assert forall|p: Place| #[trigger]
            y.names.contains_key(p) && (!x.names.contains_key(p) || y.names[p] != x.names[p])
            implies laid::within(at, p) by {
            if p != at {
                assert(mid.names.contains_key(p));
            }
        }
    }
}

/// What an entry takes away is gone.
proof fn lemma_cleared_is_gone(base: Seq<char>, whiteouts: bool, h: HeaderView, path: Seq<char>)
    requires
        clears(base, whiteouts, h, paths::components(path)),
    ensures
        unpack::is_gone(path, unpack::gone_by(base, whiteouts, h)),
{
    let dir = paths::placed_at(base, paths::above(h.path));
    let name = paths::below(h.path);
    if unpack::whites_out(whiteouts, h) {
        if name == ".wh..wh..opq"@ {
            lemma_within_is_spelled(path, dir);
        } else {
            lemma_within_is_spelled(path, paths::joined(dir, name.skip(".wh."@.len() as int)));
        }
    } else {
        lemma_within_is_spelled(path, unpack::path_of(base, h));
    }
}

proof fn lemma_within_is_spelled(path: Seq<char>, other: Seq<char>)
    requires
        laid::within(paths::components(path), paths::components(other)),
    ensures
        paths::components(path) != paths::components(other) ==> paths::is_below(
            paths::tidy(path),
            paths::tidy(other),
        ),
        paths::components(path) == paths::components(other) ==> paths::tidy(path) == paths::tidy(
            other,
        ),
{
    let parts = paths::components(path);
    let front = paths::components(other);
    if parts != front {
        if parts.len() == front.len() {
            assert(parts.take(front.len() as int) =~= parts);
        }
        paths_laws::law_places_within_are_spelled_below(path, other);
    }
}

/// What holds as the entries of an archive come.
proof fn lemma_so_far(
    l: Laid,
    base: Seq<char>,
    whiteouts: bool,
    entries: Seq<(HeaderView, Seq<u8>)>,
    n: int,
    now: u32,
)
    requires
        laid::is_sound(l),
        laid::goes_well(l, base, whiteouts, entries, now),
        0 <= n <= entries.len(),
    ensures
        laid::is_sound(laid::laid_down(l, base, whiteouts, entries.take(n), now)),
        n < entries.len() ==> {
            let x = laid::laid_down(l, base, whiteouts, entries.take(n), now);
            let (h, data) = entries[n];
            &&& laid::all_can(x, unpack::jobs(base, whiteouts, h), data, now)
            &&& laid::laid_down(l, base, whiteouts, entries.take(n + 1), now)
                == laid::all_performed(x, unpack::jobs(base, whiteouts, h), data, now)
        },
    decreases entries.len(),
{
    let last = entries.len() - 1;
    if entries.len() == 0 {
        assert(entries.take(0) =~= entries);
    } else {
        let front = entries.drop_last();
        if n < entries.len() {
            if n < last {
                lemma_so_far(l, base, whiteouts, front, n, now);
                assert(front.take(n) =~= entries.take(n));
                assert(front.take(n + 1) =~= entries.take(n + 1));
            } else {
                lemma_so_far(l, base, whiteouts, front, n, now);
                assert(front.take(n) =~= front);
                assert(entries.take(n) =~= front);
                assert(entries.take(n + 1) =~= entries);
            }
        } else {
            lemma_so_far(l, base, whiteouts, front, last, now);
            assert(front.take(last) =~= front);
            assert(entries.take(n) =~= entries);
            let (h, data) = entries.last();
            lemma_entry(
                base,
                whiteouts,
                h,
                laid::laid_down(l, base, whiteouts, front, now),
                data,
                now,
            );
        }
    }
}

/// A directory that waits is there.
proof fn lemma_waiting(
    l: Laid,
    base: Seq<char>,
    whiteouts: bool,
    entries: Seq<(HeaderView, Seq<u8>)>,
    n: int,
    now: u32,
)
    requires
        laid::is_sound(l),
        laid::goes_well(l, base, whiteouts, entries, now),
        0 <= n <= entries.len(),
    ensures
        ({
            let x = laid::laid_down(l, base, whiteouts, entries.take(n), now);
            let off = unpack::put_off_by(base, whiteouts, laid::heads(entries.take(n)));
            forall|i: int|
                0 <= i < off.len() ==> {
                    let q = paths::components((#[trigger] off[i]).path);
                    x.names.contains_key(q) && laid::thing_at(x, q).what is Directory
                }
        }),
    decreases n,
{
    if n > 0 {
        let m = n - 1;
        let (h, data) = entries[m];
        let x = laid::laid_down(l, base, whiteouts, entries.take(m), now);
        let y = laid::laid_down(l, base, whiteouts, entries.take(n), now);
        lemma_so_far(l, base, whiteouts, entries, m, now);
        lemma_waiting(l, base, whiteouts, entries, m, now);
        lemma_entry(base, whiteouts, h, x, data, now);
        let hs = laid::heads(entries.take(n));
        assert(hs.drop_last() =~= laid::heads(entries.take(m)));
        assert(hs.last() == h);
        let before = unpack::put_off_by(base, whiteouts, laid::heads(entries.take(m)));
        let gone = unpack::gone_by(base, whiteouts, h);
        let kept = unpack::still_there(before, gone);
        let new = unpack::put_off(base, whiteouts, h);
        let off = unpack::put_off_by(base, whiteouts, hs);
        assert(off == kept + new);
        assert forall|i: int| 0 <= i < off.len() implies ({
            let q = paths::components((#[trigger] off[i]).path);
            y.names.contains_key(q) && laid::thing_at(y, q).what is Directory
        }) by {
            let q = paths::components(off[i].path);
            if i < kept.len() {
                unpack_laws::lemma_still_there(before, gone, i);
                let b = choose|b: int| 0 <= b < before.len() && before[b] == kept[i];
                assert(x.names.contains_key(q));
                if clears(base, whiteouts, h, q) {
                    lemma_cleared_is_gone(base, whiteouts, h, off[i].path);
                }
                assert(x.names[q] < x.next);
                assert(same_but_time(x.things[x.names[q]], y.things[x.names[q]]));
            } else {
                assert(off[i] == new[0]);
            }
        }
    } else {
        assert(laid::heads(entries.take(0)).len() == 0);
    }
}

/// Whether an entry leaves what is at a path alone: it neither takes it away
/// nor says anything of it.
pub open spec fn leaves(base: Seq<char>, whiteouts: bool, h: HeaderView, path: Seq<char>) -> bool {
    &&& !unpack::is_gone(path, unpack::gone_by(base, whiteouts, h))
    &&& unpack_laws::nowhere_in(unpack::put_off(base, whiteouts, h), paths::tidy(path))
}

/// What an entry laid down stands as long as later ones leave it alone.
proof fn lemma_stands(
    l: Laid,
    base: Seq<char>,
    whiteouts: bool,
    entries: Seq<(HeaderView, Seq<u8>)>,
    k: int,
    n: int,
    now: u32,
)
    requires
        laid::is_sound(l),
        laid::goes_well(l, base, whiteouts, entries, now),
        0 <= k < n <= entries.len(),
        lays(whiteouts, entries[k].0),
        forall|j: int|
            k < j < entries.len() ==> leaves(
                base,
                whiteouts,
                (#[trigger] entries[j]).0,
                unpack::path_of(base, entries[k].0),
            ),
    ensures
        ({
            let x = laid::laid_down(l, base, whiteouts, entries.take(n), now);
            let (h, data) = entries[k];
            let at = site(base, h);
            &&& x.names.contains_key(at)
            &&& if h.kind is Directory {
                laid::thing_at(x, at).what is Directory
            } else {
                is_made(laid::thing_at(x, at), h, data)
            }
        }),
    decreases n,
{
    let (h, data) = entries[k];
    let at = site(base, h);
    let m = n - 1;
    let x = laid::laid_down(l, base, whiteouts, entries.take(m), now);
    let y = laid::laid_down(l, base, whiteouts, entries.take(n), now);
    lemma_so_far(l, base, whiteouts, entries, m, now);
    lemma_entry(base, whiteouts, entries[m].0, x, entries[m].1, now);
    if m > k {
        lemma_stands(l, base, whiteouts, entries, k, m, now);
        let path = unpack::path_of(base, h);
        let g = entries[m].0;
        assert(leaves(base, whiteouts, entries[m].0, path));
        if clears(base, whiteouts, g, at) {
            lemma_cleared_is_gone(base, whiteouts, g, path);
        }
        if lays(whiteouts, g) && at == site(base, g) {
            paths_laws::law_spelled_paths_tell_places_apart(path, unpack::path_of(base, g));
            if g.kind is Directory {
                assert(unpack_laws::place(unpack::put_off(base, whiteouts, g)[0])
                    == paths::tidy(path));
            } else {
                assert(at.take(at.len() as int) =~= at);
                assert(clears(base, whiteouts, g, at));
            }
        }
        assert(y.names[at] == x.names[at]);
        assert(x.names[at] < x.next);
        assert(same_but_time(x.things[x.names[at]], y.things[x.names[at]]));
    }
}

/// Finishing directories changes no name, and no other inode than theirs.
proof fn lemma_finish(x: Laid, out: Seq<DeferredView>, data: Seq<u8>, now: u32)
    requires
        forall|i: int|
            0 <= i < out.len() ==> x.names.contains_key(
                paths::components((#[trigger] out[i]).path),
            ),
    ensures
        ({
            let y = laid::all_performed(x, unpack::all_finished(out), data, now);
            &&& y.names == x.names
            &&& forall|m: nat| (#[trigger] y.things[m]).what == x.things[m].what
            &&& forall|m: nat|
                (forall|i: int|
                    0 <= i < out.len() ==> x.names[paths::components((#[trigger] out[i]).path)]
                        != m) ==> #[trigger] y.things[m] == x.things[m]
        }),
    decreases out.len(),
{
    if out.len() > 0 {
        let front = out.drop_last();
        let d = out.last();
        assert(out[out.len() - 1] == d);
        assert forall|i: int| 0 <= i < front.len() implies x.names.contains_key(
            paths::components((#[trigger] front[i]).path),
        ) by {
            assert(front[i] == out[i]);
        }
        lemma_finish(x, front, data, now);
        let y0 = laid::all_performed(x, unpack::all_finished(front), data, now);
        laid::lemma_performed_add(x, unpack::all_finished(front), unpack::finished(d), data, now);
        laid::lemma_finished_one(y0, d, data, now);
        let y = laid::all_performed(x, unpack::all_finished(out), data, now);
        assert forall|m: nat|
            (forall|i: int|
                0 <= i < out.len() ==> x.names[paths::components((#[trigger] out[i]).path)]
                    != m) implies #[trigger] y.things[m] == x.things[m] by {
            assert(x.names[paths::components(out[out.len() - 1].path)] != m);
            assert forall|i: int| 0 <= i < front.len() implies x.names[paths::components(
                (#[trigger] front[i]).path,
            )] != m by {
                assert(front[i] == out[i]);
            }
            assert(y0.things[m] == x.things[m]);
        }
    }
}

/// Entries that appear later win, over whatever was there. Once an archive has
/// been unpacked into any filesystem, the last entry for a path that nothing
/// later takes away has given what stands there: its contents, its target or
/// its device numbers, its permissions, its owner and its extended attributes,
/// and nothing comes from what was there before.
#[verifier::rlimit(30)]
pub proof fn law_last_entry_stands(
    l: Laid,
    base: Seq<char>,
    whiteouts: bool,
    entries: Seq<(HeaderView, Seq<u8>)>,
    k: int,
    now: u32,
)
    requires
        laid::is_sound(l),
        laid::goes_well(l, base, whiteouts, entries, now),
        0 <= k < entries.len(),
        lays(whiteouts, entries[k].0),
        forall|j: int|
            k < j < entries.len() ==> leaves(
                base,
                whiteouts,
                (#[trigger] entries[j]).0,
                unpack::path_of(base, entries[k].0),
            ),
    ensures
        ({
            let done = laid::unpacked(l, base, whiteouts, entries, now);
            let at = site(base, entries[k].0);
            &&& done.names.contains_key(at)
            &&& is_made(laid::thing_at(done, at), entries[k].0, entries[k].1)
        }),
{
    let n = entries.len() as int;
    let (h, data) = entries[k];
    let at = site(base, h);
    let path = unpack::path_of(base, h);
    let hs = laid::heads(entries);
    let none = Seq::<u8>::empty();
    assert(entries.take(n) =~= entries);
    lemma_so_far(l, base, whiteouts, entries, n, now);
    lemma_stands(l, base, whiteouts, entries, k, n, now);
    lemma_waiting(l, base, whiteouts, entries, n, now);
    let x = laid::laid_down(l, base, whiteouts, entries, now);
    let off = unpack::put_off_by(base, whiteouts, hs);
    let out = unpack::deepest_first(off, unpack::deepest(off) as int);
    let id = x.names[at];
    unpack_laws::law_deepest_directories_come_first(off);
    assert forall|i: int| 0 <= i < out.len() implies ({
        let q = paths::components((#[trigger] out[i]).path);
        x.names.contains_key(q) && laid::thing_at(x, q).what is Directory
    }) by {
        assert(out.contains(out[i]));
        let b = choose|b: int| 0 <= b < off.len() && off[b] == out[i];
    }
    if !(h.kind is Directory) {
        lemma_finish(x, out, none, now);
        let done = laid::unpacked(l, base, whiteouts, entries, now);
        assert(done.things[id].what == x.things[id].what);
        if h.kind is HardLink {
        } else {
            assert forall|i: int| 0 <= i < out.len() implies x.names[paths::components(
                (#[trigger] out[i]).path,
            )] != id by {
                assert(laid::thing_at(x, paths::components(out[i].path)).what is Directory);
            }
            assert(done.things[id] == x.things[id]);
        }
    } else {
        lemma_last_directory(l, base, whiteouts, entries, k, x, out, now);
    }
}

/// A directory is what its last entry says once all are finished.
proof fn lemma_last_directory(
    l: Laid,
    base: Seq<char>,
    whiteouts: bool,
    entries: Seq<(HeaderView, Seq<u8>)>,
    k: int,
    x: Laid,
    out: Seq<DeferredView>,
    now: u32,
)
    requires
        0 <= k < entries.len(),
        lays(whiteouts, entries[k].0),
        entries[k].0.kind is Directory,
        forall|j: int|
            k < j < entries.len() ==> leaves(
                base,
                whiteouts,
                (#[trigger] entries[j]).0,
                unpack::path_of(base, entries[k].0),
            ),
        laid::is_sound(x),
        x.names.contains_key(site(base, entries[k].0)),
        laid::thing_at(x, site(base, entries[k].0)).what is Directory,
        ({
            let off = unpack::put_off_by(base, whiteouts, laid::heads(entries));
            out == unpack::deepest_first(off, unpack::deepest(off) as int)
        }),
        forall|i: int|
            0 <= i < out.len() ==> {
                let q = paths::components((#[trigger] out[i]).path);
                x.names.contains_key(q) && laid::thing_at(x, q).what is Directory
            },
    ensures
        ({
            let done = laid::all_performed(
                x,
                unpack::all_finished(out),
                Seq::<u8>::empty(),
                now,
            );
            let at = site(base, entries[k].0);
            &&& done.names.contains_key(at)
            &&& is_made(laid::thing_at(done, at), entries[k].0, entries[k].1)
        }),
{
    let (h, data) = entries[k];
    let at = site(base, h);
    let path = unpack::path_of(base, h);
    let hs = laid::heads(entries);
    let none = Seq::<u8>::empty();
    let id = x.names[at];
    assert(hs[k] == h);
    assert forall|j: int| k < j < hs.len() implies unpack_laws::nowhere_in(
        unpack::put_off(base, whiteouts, #[trigger] hs[j]),
        paths::tidy(path),
    ) && !unpack::is_gone(path, unpack::gone_by(base, whiteouts, hs[j])) by {
        assert(hs[j] == entries[j].0);
        assert(leaves(base, whiteouts, entries[j].0, path));
    }
    unpack_laws::law_later_entries_win(base, whiteouts, hs, k);
    let d = unpack::put_off(base, whiteouts, h)[0];
    let b = choose|b: int|
        {
            &&& 0 <= b < out.len()
            &&& #[trigger] out[b] == d
            &&& unpack_laws::nowhere_in(out.skip(b + 1), paths::tidy(path))
        };
    let one = out.take(b);
    let two = out.skip(b + 1);
    assert(out =~= one + seq![d] + two);
    unpack::lemma_all_finished_add(one + seq![d], two);
    assert((one + seq![d]).drop_last() =~= one);
    assert(unpack::all_finished(one + seq![d]) == unpack::all_finished(one) + unpack::finished(d));
    let y1 = laid::all_performed(x, unpack::all_finished(one), none, now);
    let y2 = laid::all_performed(y1, unpack::finished(d), none, now);
    let y3 = laid::all_performed(y2, unpack::all_finished(two), none, now);
    laid::lemma_performed_add(x, unpack::all_finished(one), unpack::finished(d), none, now);
    laid::lemma_performed_add(
        x,
        unpack::all_finished(one) + unpack::finished(d),
        unpack::all_finished(two),
        none,
        now,
    );
    assert forall|i: int| 0 <= i < one.len() implies x.names.contains_key(
        paths::components((#[trigger] one[i]).path),
    ) by {
        assert(one[i] == out[i]);
    }
    lemma_finish(x, one, none, now);
    laid::lemma_finished_one(y1, d, none, now);
    assert(y2.things[id] == laid::finished_thing(y1.things[id], d));
    assert forall|i: int| 0 <= i < two.len() implies y2.names.contains_key(
        paths::components((#[trigger] two[i]).path),
    ) && y2.names[paths::components(two[i].path)] != id by {
        let q = paths::components(two[i].path);
        assert(two[i] == out[b + 1 + i]);
        assert(x.names.contains_key(q));
        paths_laws::law_spelled_paths_tell_places_apart(two[i].path, path);
        assert(unpack_laws::place(two[i]) != paths::tidy(path));
        assert(q != at);
        if x.names[q] == id {
            assert(x.names.contains_key(at));
        }
    }
    lemma_finish(y2, two, none, now);
    assert(y3.things[id] == y2.things[id]);
}

/// Whiteout markers are obeyed. What a marker names — everything in its
/// directory, or one name with all that is inside it — is gone when the marker
/// has come, everything else has stayed, and once the archive is unpacked only
/// what later entries laid down there is there again. A bookkeeping marker
/// changes nothing.
pub proof fn law_markers_remove_what_they_name(
    l: Laid,
    base: Seq<char>,
    entries: Seq<(HeaderView, Seq<u8>)>,
    k: int,
    now: u32,
)
    requires
        laid::is_sound(l),
        laid::goes_well(l, base, true, entries, now),
        0 <= k < entries.len(),
        unpack::whites_out(true, entries[k].0),
    ensures
        ({
            let x = laid::laid_down(l, base, true, entries.take(k), now);
            let y = laid::laid_down(l, base, true, entries.take(k + 1), now);
            let done = laid::unpacked(l, base, true, entries, now);
            let h = entries[k].0;
            &&& forall|p: Place| #[trigger]
                y.names.contains_key(p) <==> x.names.contains_key(p) && !clears(base, true, h, p)
            &&& forall|p: Place| #[trigger] y.names.contains_key(p) ==> y.names[p] == x.names[p]
            &&& forall|p: Place| #[trigger]
                done.names.contains_key(p) && clears(base, true, h, p) ==> is_laid_again(
                    base,
                    entries,
                    k,
                    p,
                )
        }),
{
    let n = entries.len() as int;
    let h = entries[k].0;
    let x = laid::laid_down(l, base, true, entries.take(k), now);
    lemma_so_far(l, base, true, entries, k, now);
    lemma_entry(base, true, h, x, entries[k].1, now);
    assert(entries.take(n) =~= entries);
    lemma_waiting(l, base, true, entries, n, now);
    let end = laid::laid_down(l, base, true, entries, now);
    let off = unpack::put_off_by(base, true, laid::heads(entries));
    let out = unpack::deepest_first(off, unpack::deepest(off) as int);
    unpack_laws::law_deepest_directories_come_first(off);
    assert forall|i: int| 0 <= i < out.len() implies end.names.contains_key(
        paths::components((#[trigger] out[i]).path),
    ) by {
        assert(out.contains(out[i]));
        let b = choose|b: int| 0 <= b < off.len() && off[b] == out[i];
    }
    lemma_finish(end, out, Seq::<u8>::empty(), now);
    lemma_laid_again(l, base, entries, k, n, now);
}

/// Whether a later entry lays something down at a place, or inside it.
pub open spec fn is_laid_again(
    base: Seq<char>,
    entries: Seq<(HeaderView, Seq<u8>)>,
    k: int,
    p: Place,
) -> bool {
    exists|j: int|
        k < j < entries.len() && lays(true, (#[trigger] entries[j]).0) && laid::within(
            site(base, entries[j].0),
            p,
        )
}

proof fn lemma_laid_again(
    l: Laid,
    base: Seq<char>,
    entries: Seq<(HeaderView, Seq<u8>)>,
    k: int,
    n: int,
    now: u32,
)
    requires
        laid::is_sound(l),
        laid::goes_well(l, base, true, entries, now),
        0 <= k < n <= entries.len(),
        unpack::whites_out(true, entries[k].0),
    ensures
        forall|p: Place| #[trigger]
            laid::laid_down(l, base, true, entries.take(n), now).names.contains_key(p) && clears(
                base,
                true,
                entries[k].0,
                p,
            ) ==> is_laid_again(base, entries, k, p),
    decreases n,
{
    let m = n - 1;
    let x = laid::laid_down(l, base, true, entries.take(m), now);
    let y = laid::laid_down(l, base, true, entries.take(n), now);
    lemma_so_far(l, base, true, entries, m, now);
    lemma_entry(base, true, entries[m].0, x, entries[m].1, now);
    if m > k {
        lemma_laid_again(l, base, entries, k, m, now);
        assert forall|p: Place| #[trigger]
            y.names.contains_key(p) && clears(base, true, entries[k].0, p) implies is_laid_again(
            base,
            entries,
            k,
            p,
        ) by {
            if !x.names.contains_key(p) {
                assert(lays(true, entries[m].0));
            }
        }
    }
}

/// Joining a name to a directory adds it to the directory's components.
proof fn lemma_joined(dir: Seq<char>, name: Seq<char>)
    requires
        paths_laws::is_component(name),
    ensures
        paths::components(paths::joined(dir, name)) == paths::components(dir).push(name),
{
    let none = Seq::<char>::empty();
    paths_laws::lemma_one_component(name);
    if dir.len() > 0 && dir.last() == '/' {
        let front = dir.drop_last();
        assert(dir =~= front.push('/') + none);
        assert(dir + name =~= front.push('/') + name);
        paths_laws::law_components_add_up(front, none);
        paths_laws::law_components_add_up(front, name);
        assert(paths::components(none) =~= Seq::<Seq<char>>::empty());
        assert(paths::components(dir) =~= paths::components(front));
        assert(paths::components(paths::joined(dir, name)) =~= paths::components(dir).push(name));
    } else {
        paths_laws::law_components_add_up(dir, name);
        assert(paths::components(paths::joined(dir, name)) =~= paths::components(dir).push(name));
    }
}

/// Whether a listing of a directory holds the names in it, and no others.
pub open spec fn lists(l: Laid, dir: Seq<char>, found: Seq<(Seq<char>, u32, bool)>) -> bool {
    let at = paths::components(dir);
    &&& forall|i: int|
        0 <= i < found.len() ==> paths_laws::is_component((#[trigger] found[i]).0)
            && l.names.contains_key(at.push(found[i].0))
    &&& forall|c: Seq<char>| #[trigger]
        l.names.contains_key(at.push(c)) ==> exists|i: int|
            0 <= i < found.len() && (#[trigger] found[i]).0 == c
}

/// Removing the paths that a marker gives, each with all that is inside it,
/// removes what the marker names and nothing else.
pub proof fn law_obeyed_paths_are_what_goes(
    l: Laid,
    base: Seq<char>,
    h: HeaderView,
    there: bool,
    found: Seq<(Seq<char>, u32, bool)>,
)
    requires
        laid::is_sound(l),
        h.path.len() > 0,
        unpack::whites_out(true, h),
        ({
            let dir = paths::placed_at(base, paths::above(h.path));
            let name = paths::below(h.path);
            if name == ".wh..wh..opq"@ {
                &&& there == l.names.contains_key(paths::components(dir))
                &&& there ==> lists(l, dir, found)
            } else {
                there == l.names.contains_key(
                    paths::components(paths::joined(dir, name.skip(".wh."@.len() as int))),
                )
            }
        }),
    ensures
        ({
            let dir = paths::placed_at(base, paths::above(h.path));
            let out = removal::whited_out(dir, paths::below(h.path), there, found);
            forall|p: Place| #[trigger]
                l.names.contains_key(p) ==> (clears(base, true, h, p) <==> exists|i: int|
                    0 <= i < out.len() && laid::within(
                        p,
                        paths::components(#[trigger] out[i]),
                    ))
        }),
{
    let dir = paths::placed_at(base, paths::above(h.path));
    let name = paths::below(h.path);
    let out = removal::whited_out(dir, name, there, found);
    let at = paths::components(dir);
    assert forall|p: Place| #[trigger] l.names.contains_key(p) implies (clears(base, true, h, p)
        <==> exists|i: int|
        0 <= i < out.len() && laid::within(p, paths::components(#[trigger] out[i]))) by {
        if name == ".wh..wh..opq"@ {
            if clears(base, true, h, p) {
                let n = at.len() as int;
                if p.len() == n {
                    assert(p.take(n) =~= p);
                }
                lemma_way(l, p, n);
                lemma_way(l, p, n + 1);
                let c = p[n];
                assert(p.take(n + 1) =~= at.push(c));
                let i = choose|i: int| 0 <= i < found.len() && (#[trigger] found[i]).0 == c;
                assert(paths_laws::is_component(found[i].0));
                lemma_joined(dir, c);
                assert(out[i] == paths::joined(dir, c));
                assert(laid::within(p, paths::components(out[i])));
            }
            if exists|i: int|
                0 <= i < out.len() && laid::within(p, paths::components(#[trigger] out[i])) {
                let i = choose|i: int|
                    0 <= i < out.len() && laid::within(p, paths::components(#[trigger] out[i]));
                assert(paths_laws::is_component(found[i].0));
                lemma_joined(dir, found[i].0);
                let inner = at.push(found[i].0);
                assert(inner.take(at.len() as int) =~= at);
                lemma_within_twice(p, inner, at);
            }
        } else if !paths::opens_with(name, ".wh..wh."@) {
            let target = paths::joined(dir, name.skip(".wh."@.len() as int));
            let q = paths::components(target);
            if clears(base, true, h, p) {
                lemma_way(l, p, q.len() as int);
                assert(out[0] == target);
                assert(laid::within(p, paths::components(out[0])));
            }
        }
    }
}

} // verus!
