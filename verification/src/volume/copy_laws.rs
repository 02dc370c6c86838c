//! What becomes of a tree that is read out into an archive and laid down again.

use vstd::multiset::Multiset;
use vstd::prelude::*;

use crate::dir;
use crate::tar::field;
use crate::tar::header::HeaderView;
use crate::tar::laws as tar_laws;
use crate::tar::reader;
use crate::tar::writer;
use crate::volume::laid::{self, Laid, Place, Thing, What};
use crate::volume::pack::{self, Wants};
use crate::volume::pack_laws;
use crate::volume::paths;
use crate::volume::paths_laws;
use crate::volume::types::{Attrs, Stat};
use crate::volume::unpack::{self, DeferredView, JobView};
use crate::volume::unpack_laws;

verus! {

/// A name of a tree, and what was found there.
pub struct Found {
    /// Its path, relative to the root of the tree.
    pub path: Seq<char>,
    /// Its inode.
    pub stat: Stat,
    /// Its extended attributes.
    pub attrs: Seq<(Seq<char>, Seq<u8>)>,
    /// Where it points, if it is a symbolic link.
    pub target: Seq<char>,
    /// Its device numbers, if it is a special file.
    pub numbers: (u32, u32),
    /// Its contents, if it is a file.
    pub data: Seq<u8>,
}

/// Whether something is a directory.
pub open spec fn is_dir(f: Found) -> bool {
    f.stat.mode & dir::IFMT == dir::IFDIR
}

/// Where something stands in its tree.
pub open spec fn place_of(f: Found) -> Place {
    paths::components(f.path)
}

/// Whether the names of one inode, of which a directory has but one, all lead
/// to the same.
pub open spec fn inodes_agree(list: Seq<Found>) -> bool {
    forall|i: int, j: int|
        0 <= i < j < list.len() && (#[trigger] list[i]).stat.inode == (
        #[trigger] list[j]).stat.inode ==> {
            &&& list[i].stat == list[j].stat
            &&& list[i].attrs == list[j].attrs
            &&& list[i].target == list[j].target
            &&& list[i].numbers == list[j].numbers
            &&& list[i].data == list[j].data
            &&& list[i].stat.links > 1
            &&& !is_dir(list[i])
        }
}

/// Whether a list is a tree: each name once, a directory in front of what is
/// inside it, and inodes with more than one name the same under all of them.
pub open spec fn is_tree(list: Seq<Found>) -> bool {
    &&& forall|i: int| 0 <= i < list.len() ==> (#[trigger] list[i]).path.len() > 0
    &&& forall|i: int, j: int|
        0 <= i < j < list.len() ==> place_of(#[trigger] list[i]) != place_of(#[trigger] list[j])
    &&& forall|i: int|
        0 <= i < list.len() && place_of(#[trigger] list[i]).len() > 1 ==> has_parent(list, i)
    &&& inodes_agree(list)
}

/// Whether the directory that a name stands in comes in front of it.
pub open spec fn has_parent(list: Seq<Found>, i: int) -> bool {
    exists|j: int|
        0 <= j < i && place_of(#[trigger] list[j]) == place_of(list[i]).drop_last() && is_dir(
            list[j],
        )
}

/// The inodes written, and under which names, once a list has been read out.
pub open spec fn seen_by(list: Seq<Found>) -> Map<u32, Seq<char>>
    decreases list.len(),
{
    if list.len() == 0 {
        Map::empty()
    } else {
        pack::seen_after(seen_by(list.drop_last()), list.last().path, list.last().stat)
    }
}

/// What is written of a name.
pub open spec fn read_out(seen: Map<u32, Seq<char>>, f: Found) -> HeaderView {
    if seen.contains_key(f.stat.inode) {
        pack::link_header(f.path, seen[f.stat.inode], f.stat)
    } else {
        pack::described(f.path, f.stat, f.attrs, f.target, f.numbers, f.data.len() as u64)
    }
}

/// The entries that a tree is read out as.
pub open spec fn packed(list: Seq<Found>) -> Seq<(HeaderView, Seq<u8>)>
    decreases list.len(),
{
    if list.len() == 0 {
        Seq::empty()
    } else {
        packed(list.drop_last()).push(
            (read_out(seen_by(list.drop_last()), list.last()), list.last().data),
        )
    }
}

/// Whether something is what was found: the same contents, target or device,
/// permissions, owner, extended attributes and time. A symbolic link is its
/// target alone, an archive has no sockets and carries one as a FIFO, and a
/// time of zero is none.
pub open spec fn is_same(t: Thing, f: Found) -> bool {
    &&& match pack::wants(f.stat.mode) {
        Wants::Children => t.what is Directory,
        Wants::Target => t.what == What::Symlink(f.target),
        Wants::Numbers => t.what == What::Special(
            pack_laws::special_for(f.stat.mode, f.numbers),
        ),
        Wants::Contents => t.what == What::File(f.data),
    }
    &&& !(pack::wants(f.stat.mode) is Target) ==> {
        &&& t.mode == f.stat.mode & 0o7777
        &&& t.uid == f.stat.uid
        &&& t.gid == f.stat.gid
        &&& t.xattrs == f.attrs.to_multiset()
        &&& f.stat.mtime != 0 ==> t.mtime == f.stat.mtime
    }
}

/// Whether a directory is there, with nothing in it.
pub open spec fn is_vacant(l: Laid, base: Seq<char>) -> bool {
    let root = paths::components(base);
    &&& forall|n: int| 0 <= n <= root.len() ==> l.names.contains_key(#[trigger] root.take(n))
    &&& forall|p: Place| #[trigger]
        l.names.contains_key(p) ==> l.names[p] < l.next && (laid::within(p, root) ==> p == root)
}

/// Where a name of a tree comes to stand.
pub open spec fn landed(base: Seq<char>, f: Found) -> Place {
    paths::components(base) + place_of(f)
}

/// Whether a tree stands below a directory, and nothing else was changed: each
/// of its names leads to what was found there, two to one inode just where
/// they were names of one inode, and there is no name besides but those that
/// were there.
pub open spec fn is_copy(list: Seq<Found>, base: Seq<char>, l: Laid, done: Laid) -> bool {
    &&& forall|i: int|
        0 <= i < list.len() ==> done.names.contains_key(landed(base, #[trigger] list[i]))
            && is_same(laid::thing_at(done, landed(base, list[i])), list[i])
    &&& forall|i: int, j: int|
        0 <= i < list.len() && 0 <= j < list.len() ==> ((done.names[landed(
            base,
            #[trigger] list[i],
        )] == done.names[landed(base, #[trigger] list[j])]) <==> list[i].stat.inode
            == list[j].stat.inode)
    &&& forall|p: Place| #[trigger]
        l.names.contains_key(p) ==> done.names.contains_key(p) && done.names[p] == l.names[p]
    &&& forall|p: Place| #[trigger]
        done.names.contains_key(p) ==> l.names.contains_key(p) || is_landed(list, base, p)
}

/// Whether a place is where a name of a tree comes to stand.
pub open spec fn is_landed(list: Seq<Found>, base: Seq<char>, at: Place) -> bool {
    exists|i: int| 0 <= i < list.len() && landed(base, #[trigger] list[i]) == at
}

proof fn lemma_made_already(l: Laid, at: Place, n: nat, now: u32)
    requires
        forall|k: int| 0 < k <= n ==> l.names.contains_key(#[trigger] at.take(k)),
    ensures
        laid::made_along(l, at, n, now) == l,
    decreases n,
{
    if n > 0 {
        lemma_made_already(l, at, (n - 1) as nat, now);
        assert(l.names.contains_key(at.take(n as int)));
    }
}

/// The entries of a tree stand in its order.
proof fn lemma_packed(list: Seq<Found>, i: int)
    requires
        0 <= i < list.len(),
    ensures
        packed(list).len() == list.len(),
        packed(list)[i] == (read_out(seen_by(list.take(i)), list[i]), list[i].data),
    decreases list.len(),
{
    let front = list.drop_last();
    if front.len() > 0 {
        lemma_packed(front, 0);
    } else {
        assert(packed(front) =~= Seq::empty());
    }
    if i < front.len() {
        lemma_packed(front, i);
        assert(front.take(i) =~= list.take(i));
    } else {
        assert(list.take(i) =~= front);
    }
}

/// An inode has been written just where one of its names was read out and it
/// has more than one; the name is one of them.
proof fn lemma_seen(list: Seq<Found>, inum: u32)
    requires
        is_tree(list),
    ensures
        seen_by(list).contains_key(inum) ==> exists|j: int|
            0 <= j < list.len() && (#[trigger] list[j]).stat.inode == inum && list[j].path
                == seen_by(list)[inum] && !is_dir(list[j]),
        forall|j: int|
            0 <= j < list.len() && (#[trigger] list[j]).stat.inode == inum && list[j].stat.links > 1
                && !is_dir(list[j]) ==> seen_by(list).contains_key(inum),
    decreases list.len(),
{
    if list.len() > 0 {
        let front = list.drop_last();
        lemma_front(list, list.len() - 1);
        assert(list.take(list.len() - 1) =~= front);
        lemma_seen(front, inum);
        let last = list[list.len() - 1];
        if seen_by(list).contains_key(inum) {
            if seen_by(front).contains_key(inum) {
                let j = choose|j: int|
                    0 <= j < front.len() && (#[trigger] front[j]).stat.inode == inum
                        && front[j].path == seen_by(front)[inum] && !is_dir(front[j]);
                assert(list[j] == front[j]);
            } else {
                assert(last.stat.inode == inum && last.path == seen_by(list)[inum]);
            }
        }
        assert forall|j: int|
            0 <= j < list.len() && (#[trigger] list[j]).stat.inode == inum && list[j].stat.links > 1
                && !is_dir(list[j]) implies seen_by(list).contains_key(inum) by {
            if j < front.len() {
                assert(front[j] == list[j]);
            }
        }
    }
}

/// The front of a tree is a tree.
proof fn lemma_front(list: Seq<Found>, n: int)
    requires
        is_tree(list),
        0 <= n <= list.len(),
    ensures
        is_tree(list.take(n)),
{
    let front = list.take(n);
    assert forall|i: int| 0 <= i < front.len() implies (#[trigger] front[i]).path.len() > 0 by {
        assert(front[i] == list[i]);
    }
    assert forall|i: int, j: int| 0 <= i < j < front.len() implies place_of(#[trigger] front[i])
        != place_of(#[trigger] front[j]) by {
        assert(front[i] == list[i] && front[j] == list[j]);
    }
    assert forall|i: int|
        0 <= i < front.len() && place_of(#[trigger] front[i]).len() > 1 implies has_parent(
        front,
        i,
    ) by {
        assert(front[i] == list[i]);
        assert(has_parent(list, i));
        let j = choose|j: int|
            0 <= j < i && place_of(#[trigger] list[j]) == place_of(list[i]).drop_last() && is_dir(
                list[j],
            );
        assert(front[j] == list[j]);
    }
    assert forall|i: int, j: int|
        0 <= i < j < front.len() && (#[trigger] front[i]).stat.inode == (
        #[trigger] front[j]).stat.inode implies ({
        &&& front[i].stat == front[j].stat
        &&& front[i].attrs == front[j].attrs
        &&& front[i].target == front[j].target
        &&& front[i].numbers == front[j].numbers
        &&& front[i].data == front[j].data
        &&& front[i].stat.links > 1
        &&& !is_dir(front[i])
    }) by {
        assert(front[i] == list[i] && front[j] == list[j]);
    }
}

/// Every directory on the way to a name comes in front of it.
proof fn lemma_way(list: Seq<Found>, i: int, n: int) -> (j: int)
    requires
        is_tree(list),
        0 <= i < list.len(),
        0 < n < place_of(list[i]).len(),
    ensures
        0 <= j < i,
        place_of(list[j]) == place_of(list[i]).take(n),
        is_dir(list[j]),
    decreases i,
{
    assert(has_parent(list, i));
    let up = choose|j: int|
        0 <= j < i && place_of(#[trigger] list[j]) == place_of(list[i]).drop_last() && is_dir(
            list[j],
        );
    let at = place_of(list[i]);
    if n == at.len() - 1 {
        assert(at.take(n) =~= at.drop_last());
        up
    } else {
        let j = lemma_way(list, up, n);
        assert(at.drop_last().take(n) =~= at.take(n));
        j
    }
}

/// A name in the one way it is written has a component, and what it stands in
/// has the others.
proof fn lemma_name(path: Seq<char>)
    requires
        path.len() > 0,
        field::is_normal(path),
    ensures
        paths::components(path).len() > 0,
        paths::components(paths::above(path)) == paths::components(path).drop_last(),
{
    paths::lemma_last_start(path, path.len() as int);
    let at = paths::name_start(path);
    assert(at < path.len()) by {
        if at == path.len() {
            assert(path[at - 1] == '/');
        }
    }
    if at > 0 {
        assert(paths::components(path).drop_last() =~= paths::components(path.take(at - 1)));
    } else {
        assert(paths::components(Seq::<char>::empty()) =~= Seq::empty());
        assert(paths::components(path).drop_last() =~= Seq::empty());
    }
}

/// What holds once the first `n` names of a tree have been laid down: all but
/// the directories are as they were found.
spec fn so_far(list: Seq<Found>, base: Seq<char>, l: Laid, n: int, x: Laid) -> bool {
    &&& l.next <= x.next
    &&& forall|i: int|
        0 <= i < n ==> {
            let at = landed(base, #[trigger] list[i]);
            &&& x.names.contains_key(at)
            &&& l.next <= x.names[at] < x.next
            &&& is_dir(list[i]) ==> laid::thing_at(x, at).what is Directory
            &&& !is_dir(list[i]) ==> is_same(laid::thing_at(x, at), list[i])
        }
    &&& forall|i: int, j: int|
        0 <= i < n && 0 <= j < n ==> ((x.names[landed(base, #[trigger] list[i])] == x.names[landed(
            base,
            #[trigger] list[j],
        )]) <==> list[i].stat.inode == list[j].stat.inode)
    &&& forall|p: Place| #[trigger]
        l.names.contains_key(p) ==> x.names.contains_key(p) && x.names[p] == l.names[p]
    &&& forall|p: Place| #[trigger]
        x.names.contains_key(p) ==> l.names.contains_key(p) || is_landed(list.take(n), base, p)
}

/// One name more, which leads to `id`; of what was there only the directory it
/// stands in has changed, and that is a directory still.
spec fn adds(x: Laid, y: Laid, at: Place, id: nat) -> bool {
    &&& y.names == x.names.insert(at, id)
    &&& x.next <= y.next
    &&& id < y.next
    &&& forall|m: nat|
        m < x.next ==> #[trigger] y.things[m] == x.things[m] || (m == x.names[at.drop_last()]
            && y.things[m].what == x.things[m].what)
}

/// Where a name comes to stand, nothing stands yet, and the directory it
/// stands in is there.
proof fn lemma_site(list: Seq<Found>, base: Seq<char>, l: Laid, n: int, x: Laid)
    requires
        is_tree(list),
        is_vacant(l, base),
        0 <= n < list.len(),
        place_of(list[n]).len() > 0,
        so_far(list, base, l, n, x),
    ensures
        ({
            let at = landed(base, list[n]);
            let up = at.drop_last();
            &&& !x.names.contains_key(at)
            &&& forall|k: int| 0 <= k <= up.len() ==> x.names.contains_key(#[trigger] up.take(k))
            &&& x.names.contains_key(up)
            &&& x.names[up] < x.next
            &&& forall|i: int|
                0 <= i < n && !is_dir(#[trigger] list[i]) ==> x.names[landed(base, list[i])]
                    != x.names[up]
        }),
{
    let root = paths::components(base);
    let here = place_of(list[n]);
    let at = landed(base, list[n]);
    let up = at.drop_last();
    assert(at.take(root.len() as int) =~= root);
    if x.names.contains_key(at) {
        if l.names.contains_key(at) {
            assert(laid::within(at, root));
        } else {
            let front = list.take(n);
            let i = choose|i: int| 0 <= i < front.len() && landed(base, #[trigger] front[i]) == at;
            assert(front[i] == list[i]);
            assert(place_of(list[i]) =~= at.skip(root.len() as int));
            assert(here =~= at.skip(root.len() as int));
        }
    }
    assert forall|k: int| 0 <= k <= up.len() implies x.names.contains_key(#[trigger] up.take(k)) by {
        if k <= root.len() {
            assert(up.take(k) =~= root.take(k));
            assert(l.names.contains_key(root.take(k)));
        } else {
            let j = lemma_way(list, n, k - root.len());
            assert(up.take(k) =~= landed(base, list[j]));
        }
    }
    assert(up.take(up.len() as int) =~= up);
    if here.len() == 1 {
        assert(up =~= root);
        assert(root.take(root.len() as int) =~= root);
        assert(l.names.contains_key(root));
    } else {
        let j = lemma_way(list, n, here.len() - 1);
        assert(up =~= landed(base, list[j]));
        assert forall|i: int| 0 <= i < n && !is_dir(#[trigger] list[i]) implies x.names[landed(
            base,
            list[i],
        )] != x.names[up] by {
            if x.names[landed(base, list[i])] == x.names[landed(base, list[j])] {
                assert(list[i].stat.inode == list[j].stat.inode);
                if i < j {
                    assert(!is_dir(list[i]));
                    assert(list[i].stat == list[j].stat);
                } else {
                    assert(!is_dir(list[j]));
                }
            }
        }
    }
}

/// One name more has been laid down.
proof fn lemma_one_more(
    list: Seq<Found>,
    base: Seq<char>,
    l: Laid,
    n: int,
    x: Laid,
    y: Laid,
    id: nat,
)
    requires
        is_tree(list),
        is_vacant(l, base),
        0 <= n < list.len(),
        place_of(list[n]).len() > 0,
        so_far(list, base, l, n, x),
        adds(x, y, landed(base, list[n]), id),
        l.next <= id,
        forall|i: int|
            0 <= i < n ==> ((x.names[landed(base, #[trigger] list[i])] == id)
                <==> list[i].stat.inode == list[n].stat.inode),
        is_dir(list[n]) ==> y.things[id].what is Directory,
        !is_dir(list[n]) ==> is_same(y.things[id], list[n]),
    ensures
        so_far(list, base, l, n + 1, y),
{
    lemma_site(list, base, l, n, x);
    let at = landed(base, list[n]);
    assert forall|i: int| 0 <= i < n + 1 implies ({
        let there = landed(base, #[trigger] list[i]);
        &&& y.names.contains_key(there)
        &&& l.next <= y.names[there] < y.next
        &&& is_dir(list[i]) ==> laid::thing_at(y, there).what is Directory
        &&& !is_dir(list[i]) ==> is_same(laid::thing_at(y, there), list[i])
    }) by {
        let there = landed(base, list[i]);
        if i < n {
            assert(x.names.contains_key(there));
            assert(there != at);
            let m = x.names[there];
            assert(y.things[m] == x.things[m] || (m == x.names[at.drop_last()] && y.things[m].what
                == x.things[m].what));
        }
    }
    assert forall|i: int, j: int| 0 <= i < n + 1 && 0 <= j < n + 1 implies ((y.names[landed(
        base,
        #[trigger] list[i],
    )] == y.names[landed(base, #[trigger] list[j])]) <==> list[i].stat.inode
        == list[j].stat.inode) by {
        if i < n {
            assert(landed(base, list[i]) != at);
        }
        if j < n {
            assert(landed(base, list[j]) != at);
        }
    }
    assert forall|p: Place| #[trigger] y.names.contains_key(p) implies l.names.contains_key(p)
        || is_landed(list.take(n + 1), base, p) by {
        let more = list.take(n + 1);
        if p == at {
            assert(more[n] == list[n]);
        } else if !l.names.contains_key(p) {
            assert(x.names.contains_key(p));
            let front = list.take(n);
            let i = choose|i: int| 0 <= i < front.len() && landed(base, #[trigger] front[i]) == p;
            assert(more[i] == front[i]);
        }
    }
}

/// What creating something does.
proof fn lemma_created(x: Laid, at: Place, t: Thing, now: u32)
    requires
        at.len() > 0,
        x.names.contains_key(at.drop_last()),
        x.names[at.drop_last()] < x.next,
    ensures
        adds(x, laid::created(x, at, t, now), at, x.next),
        laid::created(x, at, t, now).things[x.next] == t,
{
    assert(at.drop_last() != at);
}

/// What entering another name of something does.
proof fn lemma_entered(x: Laid, at: Place, id: nat, now: u32)
    requires
        at.len() > 0,
        x.names.contains_key(at.drop_last()),
        x.names[at.drop_last()] != id,
        id < x.next,
    ensures
        adds(x, laid::entered(x, at, id, now), at, id),
        laid::entered(x, at, id, now).things[id] == x.things[id],
{
    assert(at.drop_last() != at);
}

/// What changing the attributes and the time of something new does.
proof fn lemma_dressed(
    x: Laid,
    y: Laid,
    at: Place,
    path: Seq<char>,
    stat: Stat,
    attrs: Seq<(Seq<char>, Seq<u8>)>,
    data: Seq<u8>,
    now: u32,
)
    requires
        adds(x, y, at, x.next),
        paths::components(path) == at,
    ensures
        ({
            let z = laid::all_performed(y, pack_laws::restored(path, stat, attrs), data, now);
            let t = y.things[x.next];
            &&& adds(x, z, at, x.next)
            &&& z.things[x.next] == (Thing {
                xattrs: if attrs.len() > 0 {
                    attrs.to_multiset()
                } else {
                    t.xattrs
                },
                mtime: if stat.mtime != 0 {
                    stat.mtime
                } else {
                    t.mtime
                },
                ..t
            })
        }),
{
    let one = if attrs.len() > 0 {
        seq![JobView::Attributes { path, list: attrs }]
    } else {
        Seq::empty()
    };
    let two = if stat.mtime != 0 {
        seq![JobView::Times { path, secs: stat.mtime }]
    } else {
        Seq::empty()
    };
    laid::lemma_performed_add(y, one, two, data, now);
    let mid = laid::all_performed(y, one, data, now);
    if attrs.len() > 0 {
        laid::lemma_performed_one(y, JobView::Attributes { path, list: attrs }, data, now);
    }
    if stat.mtime != 0 {
        laid::lemma_performed_one(mid, JobView::Times { path, secs: stat.mtime }, data, now);
    }
}

/// What making somewhere for a name to go does, where that is there already.
proof fn lemma_parents(base: Seq<char>, h: HeaderView, x: Laid, data: Seq<u8>, now: u32)
    requires
        h.path.len() > 0,
        field::is_normal(h.path),
        ({
            let up = (paths::components(base) + paths::components(h.path)).drop_last();
            forall|k: int| 0 <= k <= up.len() ==> x.names.contains_key(#[trigger] up.take(k))
        }),
    ensures
        laid::all_performed(x, unpack::parents_of(base, h), data, now) == x,
{
    lemma_name(h.path);
    if paths::above(h.path).len() > 0 {
        let path = paths::placed_at(base, paths::above(h.path));
        paths_laws::law_placing_adds_components(base, paths::above(h.path));
        let up = (paths::components(base) + paths::components(h.path)).drop_last();
        assert(paths::components(path) =~= up);
        lemma_made_already(x, up, up.len(), now);
        laid::lemma_performed_one(x, JobView::MakeParents(path), data, now);
    }
}

proof fn lemma_none(s: Seq<(Seq<char>, Seq<u8>)>)
    requires
        s.len() == 0,
    ensures
        s.to_multiset() == Multiset::<(Seq<char>, Seq<u8>)>::empty(),
{
    broadcast use vstd::seq_lib::group_to_multiset_ensures;

    assert(s.to_multiset().len() == 0);
}

proof fn lemma_bits(mode: u16)
    ensures
        (mode & 0o7777) & 0o7777 == mode & 0o7777,
{
    assert((mode & 0o7777) & 0o7777 == mode & 0o7777) by (bit_vector);
}

/// Whether entries are what a tree was read out as, once they have been through
/// an archive.
spec fn carried(list: Seq<Found>, back: Seq<(HeaderView, Seq<u8>)>) -> bool {
    &&& back.len() == list.len()
    &&& forall|i: int|
        0 <= i < list.len() ==> {
            let h = read_out(seen_by(list.take(i)), #[trigger] list[i]);
            &&& field::is_normal(list[i].path)
            &&& tar_laws::same_entry(back[i].0, writer::sized(h, list[i].data))
            &&& back[i].1 == writer::contents(h, list[i].data)
        }
}

/// A name is written as a hard link just where its inode was written before.
proof fn lemma_first_name(list: Seq<Found>, n: int)
    requires
        is_tree(list),
        0 <= n < list.len(),
    ensures
        ({
            let seen = seen_by(list.take(n));
            let inum = list[n].stat.inode;
            &&& seen.contains_key(inum) ==> !is_dir(list[n]) && exists|j: int|
                0 <= j < n && (#[trigger] list[j]).stat.inode == inum && list[j].path == seen[inum]
            &&& !seen.contains_key(inum) ==> forall|j: int|
                0 <= j < n ==> (#[trigger] list[j]).stat.inode != inum
        }),
{
    let front = list.take(n);
    let seen = seen_by(front);
    let inum = list[n].stat.inode;
    lemma_front(list, n);
    lemma_seen(front, inum);
    if seen.contains_key(inum) {
        let j = choose|j: int|
            0 <= j < front.len() && (#[trigger] front[j]).stat.inode == inum && front[j].path
                == seen[inum] && !is_dir(front[j]);
        assert(list[j] == front[j]);
        assert(list[j].stat == list[n].stat);
    } else {
        assert forall|j: int| 0 <= j < n implies (#[trigger] list[j]).stat.inode != inum by {
            if list[j].stat.inode == inum {
                assert(front[j] == list[j]);
                assert(list[j].stat == list[n].stat);
            }
        }
    }
}

/// What laying down a hard link does, where nothing stands yet.
#[verifier::rlimit(30)]
proof fn lemma_link_jobs(
    base: Seq<char>,
    name: Seq<char>,
    target: Seq<char>,
    stat: Stat,
    h: HeaderView,
    x: Laid,
    data: Seq<u8>,
    now: u32,
)
    requires
        name.len() > 0,
        field::is_normal(name),
        field::is_normal(target),
        tar_laws::same_entry(h, pack::link_header(name, target, stat)),
        ({
            let at = paths::components(base) + paths::components(name);
            let up = at.drop_last();
            &&& !x.names.contains_key(at)
            &&& forall|k: int| 0 <= k <= up.len() ==> x.names.contains_key(#[trigger] up.take(k))
        }),
    ensures
        laid::all_performed(x, unpack::jobs(base, false, h), data, now) == laid::entered(
            x,
            paths::components(base) + paths::components(name),
            x.names[paths::components(base) + paths::components(target)],
            now,
        ),
{
    let path = paths::placed_at(base, name);
    let there = paths::placed_at(base, target);
    paths_laws::law_placing_adds_components(base, name);
    paths_laws::law_placing_adds_components(base, target);
    field::law_normal_is_stable(target);
    pack_laws::law_packed_link_unpacks_as_it_was(base, name, target, stat, h);
    lemma_parents(base, h, x, data, now);
    let replace = JobView::Replace(path);
    let link = JobView::HardLink { target: there, path };
    let parents = unpack::parents_of(base, h);
    assert(seq![replace, link] =~= seq![replace] + seq![link]);
    laid::lemma_performed_add(x, parents, seq![replace, link], data, now);
    laid::lemma_performed_add(x, seq![replace], seq![link], data, now);
    laid::lemma_performed_one(x, replace, data, now);
    laid::lemma_performed_one(x, link, data, now);
}

/// A second name of an inode has been laid down.
#[verifier::rlimit(30)]
proof fn lemma_link_entry(
    list: Seq<Found>,
    base: Seq<char>,
    l: Laid,
    back: Seq<(HeaderView, Seq<u8>)>,
    n: int,
    x: Laid,
    now: u32,
)
    requires
        is_tree(list),
        is_vacant(l, base),
        carried(list, back),
        0 <= n < list.len(),
        so_far(list, base, l, n, x),
        seen_by(list.take(n)).contains_key(list[n].stat.inode),
    ensures
        so_far(
            list,
            base,
            l,
            n + 1,
            laid::all_performed(x, unpack::jobs(base, false, back[n].0), back[n].1, now),
        ),
{
    let f = list[n];
    let at = landed(base, f);
    let target = seen_by(list.take(n))[f.stat.inode];
    lemma_name(f.path);
    lemma_first_name(list, n);
    let j = choose|j: int|
        0 <= j < n && (#[trigger] list[j]).stat.inode == f.stat.inode && list[j].path == target;
    lemma_site(list, base, l, n, x);
    let id = x.names[landed(base, list[j])];
    let y = laid::entered(x, at, id, now);
    assert(list[j].stat == list[n].stat);
    lemma_link_jobs(base, f.path, target, f.stat, back[n].0, x, back[n].1, now);
    lemma_entered(x, at, id, now);
    assert(is_same(x.things[id], list[j]));
    assert(is_same(y.things[id], list[n]));
    lemma_one_more(list, base, l, n, x, y, id);
}

/// What laying something down does, where nothing stands yet.
proof fn lemma_first_jobs(
    base: Seq<char>,
    f: Found,
    h: HeaderView,
    x: Laid,
    data: Seq<u8>,
    now: u32,
)
    requires
        f.path.len() > 0,
        field::is_normal(f.path),
        tar_laws::same_entry(
            h,
            pack::described(f.path, f.stat, f.attrs, f.target, f.numbers, f.data.len() as u64),
        ),
        pack::wants(f.stat.mode) is Contents ==> data == f.data,
        ({
            let at = landed(base, f);
            let up = at.drop_last();
            &&& !x.names.contains_key(at)
            &&& forall|k: int| 0 <= k <= up.len() ==> x.names.contains_key(#[trigger] up.take(k))
            &&& x.names.contains_key(up)
            &&& x.names[up] < x.next
        }),
    ensures
        ({
            let y = laid::all_performed(x, unpack::jobs(base, false, h), data, now);
            &&& adds(x, y, landed(base, f), x.next)
            &&& is_dir(f) ==> y.things[x.next].what is Directory
            &&& !is_dir(f) ==> is_same(y.things[x.next], f)
        }),
{
    let at = landed(base, f);
    let path = paths::placed_at(base, f.path);
    let given = Attrs { mode: f.stat.mode & 0o7777, uid: f.stat.uid, gid: f.stat.gid };
    lemma_name(f.path);
    paths_laws::law_placing_adds_components(base, f.path);
    pack_laws::law_packed_entry_unpacks_as_it_was(
        base,
        f.path,
        f.stat,
        f.attrs,
        f.target,
        f.numbers,
        f.data.len() as u64,
        h,
    );
    lemma_parents(base, h, x, data, now);
    lemma_bits(f.stat.mode);
    if h.xattrs.len() == 0 {
        lemma_none(h.xattrs);
    }
    let parents = unpack::parents_of(base, h);
    let replace = JobView::Replace(path);
    laid::lemma_performed_one(x, replace, data, now);
    match pack::wants(f.stat.mode) {
        Wants::Children => {
            let make = JobView::Directory { path, attrs: given };
            laid::lemma_performed_add(x, parents, seq![make], data, now);
            laid::lemma_performed_one(x, make, data, now);
            lemma_created(x, at, laid::fresh(What::Directory, given, now), now);
        },
        Wants::Target => {
            let make = JobView::Symlink { path, target: f.target };
            assert(seq![replace, make] =~= seq![replace] + seq![make]);
            laid::lemma_performed_add(x, parents, seq![replace, make], data, now);
            laid::lemma_performed_add(x, seq![replace], seq![make], data, now);
            laid::lemma_performed_one(x, make, data, now);
            let plain = Attrs { mode: 0o777, uid: 0, gid: 0 };
            lemma_created(x, at, laid::fresh(What::Symlink(f.target), plain, now), now);
        },
        Wants::Numbers => {
            let special = pack_laws::special_for(f.stat.mode, f.numbers);
            let make = JobView::Special { path, special, attrs: given };
            let t = laid::fresh(What::Special(special), given, now);
            lemma_dressed_jobs(x, at, path, parents, make, t, f.stat, h.xattrs, data, now);
        },
        Wants::Contents => {
            let make = JobView::File { path, attrs: given };
            let t = laid::fresh(What::File(data), given, now);
            lemma_dressed_jobs(x, at, path, parents, make, t, f.stat, h.xattrs, data, now);
        },
    }
}

/// What making something and setting its attributes and time does.
proof fn lemma_dressed_jobs(
    x: Laid,
    at: Place,
    path: Seq<char>,
    parents: Seq<JobView>,
    make: JobView,
    t: Thing,
    stat: Stat,
    attrs: Seq<(Seq<char>, Seq<u8>)>,
    data: Seq<u8>,
    now: u32,
)
    requires
        at.len() > 0,
        paths::components(path) == at,
        !x.names.contains_key(at),
        x.names.contains_key(at.drop_last()),
        x.names[at.drop_last()] < x.next,
        laid::all_performed(x, parents, data, now) == x,
        laid::performed(x, make, data, now) == laid::created(x, at, t, now),
    ensures
        ({
            let jobs = parents + seq![JobView::Replace(path), make] + pack_laws::restored(
                path,
                stat,
                attrs,
            );
            let z = laid::all_performed(x, jobs, data, now);
            &&& adds(x, z, at, x.next)
            &&& z.things[x.next] == (Thing {
                xattrs: if attrs.len() > 0 {
                    attrs.to_multiset()
                } else {
                    t.xattrs
                },
                mtime: if stat.mtime != 0 {
                    stat.mtime
                } else {
                    t.mtime
                },
                ..t
            })
        }),
{
    let replace = JobView::Replace(path);
    let dress = pack_laws::restored(path, stat, attrs);
    assert(seq![replace, make] =~= seq![replace] + seq![make]);
    laid::lemma_performed_add(x, parents + seq![replace, make], dress, data, now);
    laid::lemma_performed_add(x, parents, seq![replace, make], data, now);
    laid::lemma_performed_add(x, seq![replace], seq![make], data, now);
    laid::lemma_performed_one(x, replace, data, now);
    laid::lemma_performed_one(x, make, data, now);
    lemma_created(x, at, t, now);
    lemma_dressed(x, laid::created(x, at, t, now), at, path, stat, attrs, data, now);
}

/// The first name of an inode has been laid down.
#[verifier::rlimit(30)]
proof fn lemma_first_entry(
    list: Seq<Found>,
    base: Seq<char>,
    l: Laid,
    back: Seq<(HeaderView, Seq<u8>)>,
    n: int,
    x: Laid,
    now: u32,
)
    requires
        is_tree(list),
        is_vacant(l, base),
        carried(list, back),
        0 <= n < list.len(),
        so_far(list, base, l, n, x),
        !seen_by(list.take(n)).contains_key(list[n].stat.inode),
    ensures
        so_far(
            list,
            base,
            l,
            n + 1,
            laid::all_performed(x, unpack::jobs(base, false, back[n].0), back[n].1, now),
        ),
{
    let f = list[n];
    let (h, data) = back[n];
    lemma_name(f.path);
    lemma_first_name(list, n);
    lemma_site(list, base, l, n, x);
    let described = pack::described(
        f.path,
        f.stat,
        f.attrs,
        f.target,
        f.numbers,
        f.data.len() as u64,
    );
    assert(writer::sized(described, f.data) == described);
    lemma_first_jobs(base, f, h, x, data, now);
    let y = laid::all_performed(x, unpack::jobs(base, false, h), data, now);
    lemma_one_more(list, base, l, n, x, y, x.next);
}

proof fn lemma_laid_down(
    list: Seq<Found>,
    base: Seq<char>,
    l: Laid,
    back: Seq<(HeaderView, Seq<u8>)>,
    n: int,
    now: u32,
)
    requires
        is_tree(list),
        is_vacant(l, base),
        carried(list, back),
        0 <= n <= list.len(),
    ensures
        so_far(list, base, l, n, laid::laid_down(l, base, false, back.take(n), now)),
    decreases n,
{
    if n > 0 {
        lemma_laid_down(list, base, l, back, n - 1, now);
        assert(back.take(n).drop_last() =~= back.take(n - 1));
        assert(back.take(n).last() == back[n - 1]);
        let x = laid::laid_down(l, base, false, back.take(n - 1), now);
        if seen_by(list.take(n - 1)).contains_key(list[n - 1].stat.inode) {
            lemma_link_entry(list, base, l, back, n - 1, x, now);
        } else {
            lemma_first_entry(list, base, l, back, n - 1, x, now);
        }
    }
}

/// What waits of a directory until the end.
spec fn waits(base: Seq<char>, h: HeaderView) -> DeferredView {
    DeferredView {
        path: unpack::path_of(base, h),
        attrs: unpack::attrs_of(h),
        mtime: h.mtime,
        xattrs: h.xattrs,
    }
}

proof fn lemma_stays(list: Seq<DeferredView>, gone: unpack::Gone, k: int)
    requires
        0 <= k < list.len(),
        !unpack::is_gone(list[k].path, gone),
    ensures
        unpack::still_there(list, gone).contains(list[k]),
    decreases list.len(),
{
    let front = list.drop_last();
    let before = unpack::still_there(front, gone);
    let all = unpack::still_there(list, gone);
    if k < front.len() {
        lemma_stays(front, gone, k);
        let i = choose|i: int| 0 <= i < before.len() && before[i] == front[k];
        assert(all[i] == list[k]);
    } else {
        assert(all[all.len() - 1] == list[k]);
    }
}

/// A directory is not gone by what comes behind it.
proof fn lemma_not_gone(list: Seq<Found>, base: Seq<char>, i: int, m: int)
    requires
        is_tree(list),
        0 <= i < m < list.len(),
        place_of(list[m]).len() > 0,
    ensures
        !unpack::is_gone(
            paths::placed_at(base, list[i].path),
            unpack::Gone::At(paths::placed_at(base, list[m].path)),
        ),
{
    let path = paths::placed_at(base, list[i].path);
    let other = paths::placed_at(base, list[m].path);
    paths_laws::law_placing_adds_components(base, list[i].path);
    paths_laws::law_placing_adds_components(base, list[m].path);
    paths_laws::law_spelled_paths_tell_places_apart(path, other);
    let root = paths::components(base);
    let mine = landed(base, list[i]);
    let theirs = landed(base, list[m]);
    assert(place_of(list[i]) =~= mine.skip(root.len() as int));
    assert(place_of(list[m]) =~= theirs.skip(root.len() as int));
    assert(mine != theirs);
    if theirs.len() < mine.len() && mine.take(theirs.len() as int) == theirs {
        let long = place_of(list[m]).len() as int;
        let j = lemma_way(list, i, long);
        assert(place_of(list[i]).take(long) =~= mine.take(theirs.len() as int).skip(
            root.len() as int,
        ));
        assert(place_of(list[j]) == place_of(list[m]));
    }
}

/// What an entry says is a directory just where a directory was found, and
/// says of that what was found.
proof fn lemma_heading(list: Seq<Found>, back: Seq<(HeaderView, Seq<u8>)>, i: int)
    requires
        is_tree(list),
        carried(list, back),
        0 <= i < list.len(),
    ensures
        back[i].0.path == list[i].path,
        list[i].path.len() > 0,
        place_of(list[i]).len() > 0,
        back[i].0.kind is Directory <==> is_dir(list[i]),
        is_dir(list[i]) ==> {
            let h = back[i].0;
            &&& h.mode == list[i].stat.mode & 0o7777
            &&& h.uid == list[i].stat.uid
            &&& h.gid == list[i].stat.gid
            &&& h.mtime == list[i].stat.mtime
            &&& h.xattrs.to_multiset() == list[i].attrs.to_multiset()
        },
{
    lemma_first_name(list, i);
    lemma_name(list[i].path);
}

/// Of a tree only directories wait, all of them, whatever comes behind them.
#[verifier::rlimit(30)]
proof fn lemma_put_off(
    list: Seq<Found>,
    base: Seq<char>,
    back: Seq<(HeaderView, Seq<u8>)>,
    n: int,
)
    requires
        is_tree(list),
        carried(list, back),
        0 <= n <= list.len(),
    ensures
        ({
            let off = unpack::put_off_by(base, false, laid::heads(back.take(n)));
            &&& forall|i: int|
                0 <= i < n && is_dir(#[trigger] list[i]) ==> off.contains(waits(base, back[i].0))
            &&& forall|k: int|
                0 <= k < off.len() ==> exists|i: int|
                    0 <= i < n && is_dir(#[trigger] list[i]) && #[trigger] off[k] == waits(
                        base,
                        back[i].0,
                    )
        }),
    decreases n,
{
    if n > 0 {
        let m = n - 1;
        let f = list[m];
        let h = back[m].0;
        lemma_put_off(list, base, back, m);
        lemma_heading(list, back, m);
        let now = laid::heads(back.take(n));
        assert(now.drop_last() =~= laid::heads(back.take(m)));
        assert(now.last() == h);
        let before = unpack::put_off_by(base, false, laid::heads(back.take(m)));
        let gone = unpack::gone_by(base, false, h);
        let kept = unpack::still_there(before, gone);
        let new = unpack::put_off(base, false, h);
        let off = unpack::put_off_by(base, false, now);
        assert(off == kept + new);
        if is_dir(f) {
            assert(off[kept.len() as int] == waits(base, h));
        }
        assert forall|i: int| 0 <= i < n && is_dir(#[trigger] list[i]) implies off.contains(
            waits(base, back[i].0),
        ) by {
            if i < m {
                lemma_heading(list, back, i);
                let w = waits(base, back[i].0);
                let k = choose|k: int| 0 <= k < before.len() && before[k] == w;
                if !is_dir(f) {
                    lemma_not_gone(list, base, i, m);
                }
                lemma_stays(before, gone, k);
                let at = choose|at: int| 0 <= at < kept.len() && kept[at] == w;
                assert(off[at] == w);
            }
        }
        assert forall|k: int| 0 <= k < off.len() implies exists|i: int|
            0 <= i < n && is_dir(#[trigger] list[i]) && #[trigger] off[k] == waits(
                base,
                back[i].0,
            ) by {
            if k < kept.len() {
                unpack_laws::lemma_still_there(before, gone, k);
                let b = choose|b: int| 0 <= b < before.len() && before[b] == kept[k];
                let i = choose|i: int|
                    0 <= i < m && is_dir(#[trigger] list[i]) && before[b] == waits(
                        base,
                        back[i].0,
                    );
                assert(is_dir(list[i]) && off[k] == waits(base, back[i].0));
            } else {
                assert(is_dir(list[m]) && off[k] == waits(base, back[m].0));
            }
        }
    } else {
        assert(laid::heads(back.take(0)).len() == 0);
    }
}

/// Finishing directories changes those, and each once, and nothing else.
proof fn lemma_finish(x: Laid, out: Seq<DeferredView>, data: Seq<u8>, now: u32)
    requires
        forall|i: int|
            0 <= i < out.len() ==> x.names.contains_key(
                paths::components((#[trigger] out[i]).path),
            ),
        forall|i: int, j: int|
            0 <= i < out.len() && 0 <= j < out.len() && x.names[paths::components(
                (#[trigger] out[i]).path,
            )] == x.names[paths::components((#[trigger] out[j]).path)] ==> out[i] == out[j],
    ensures
        ({
            let y = laid::all_performed(x, unpack::all_finished(out), data, now);
            &&& y.names == x.names
            &&& forall|i: int|
                0 <= i < out.len() ==> {
                    let m = x.names[paths::components((#[trigger] out[i]).path)];
                    y.things[m] == laid::finished_thing(x.things[m], out[i])
                }
            &&& forall|m: nat|
                (forall|i: int|
                    0 <= i < out.len() ==> x.names[paths::components((#[trigger] out[i]).path)]
                        != m) ==> #[trigger] y.things[m] == x.things[m]
        }),
    decreases out.len(),
{
    if out.len() > 0 {
        let front = out.drop_last();
        let d = out.last();
        let at = paths::components(d.path);
        assert(out[out.len() - 1] == d);
        assert forall|i: int| 0 <= i < front.len() implies x.names.contains_key(
            paths::components((#[trigger] front[i]).path),
        ) by {
            assert(front[i] == out[i]);
        }
        assert forall|i: int, j: int|
            0 <= i < front.len() && 0 <= j < front.len() && x.names[paths::components(
                (#[trigger] front[i]).path,
            )] == x.names[paths::components((#[trigger] front[j]).path)] implies front[i]
            == front[j] by {
            assert(front[i] == out[i] && front[j] == out[j]);
        }
        lemma_finish(x, front, data, now);
        let y0 = laid::all_performed(x, unpack::all_finished(front), data, now);
        laid::lemma_performed_add(x, unpack::all_finished(front), unpack::finished(d), data, now);
        laid::lemma_finished_one(y0, d, data, now);
        let y = laid::all_performed(x, unpack::all_finished(out), data, now);
        let id = x.names[at];
        assert(y.things[id] == laid::finished_thing(x.things[id], d)) by {
            if exists|i: int|
                0 <= i < front.len() && x.names[paths::components((#[trigger] front[i]).path)]
                    == id {
                let i = choose|i: int|
                    0 <= i < front.len() && x.names[paths::components((#[trigger] front[i]).path)]
                        == id;
                assert(front[i] == out[i]);
                assert(out[i] == out[out.len() - 1]);
            }
        }
        assert forall|i: int| 0 <= i < out.len() implies ({
            let m = x.names[paths::components((#[trigger] out[i]).path)];
            y.things[m] == laid::finished_thing(x.things[m], out[i])
        }) by {
            let m = x.names[paths::components(out[i].path)];
            if m == id {
                assert(out[i] == out[out.len() - 1]);
            } else {
                assert(front[i] == out[i]);
            }
        }
        assert forall|m: nat|
            (forall|i: int|
                0 <= i < out.len() ==> x.names[paths::components((#[trigger] out[i]).path)]
                    != m) implies #[trigger] y.things[m] == x.things[m] by {
            assert(x.names[paths::components(out[out.len() - 1].path)] != m);
            assert forall|i: int| 0 <= i < front.len() implies x.names[paths::components(
                (#[trigger] front[i]).path,
            )] != m by {
                assert(front[i] == out[i]);
            }
            assert(y0.things[m] == x.things[m]);
        }
    }
}

/// What a tree was read out as, laid down in an empty directory, is that tree.
#[verifier::rlimit(30)]
proof fn lemma_copied(
    list: Seq<Found>,
    base: Seq<char>,
    l: Laid,
    back: Seq<(HeaderView, Seq<u8>)>,
    now: u32,
)
    requires
        is_tree(list),
        is_vacant(l, base),
        carried(list, back),
    ensures
        is_copy(list, base, l, laid::unpacked(l, base, false, back, now)),
{
    let n = list.len() as int;
    let all = back.take(n);
    assert(all =~= back);
    assert(list.take(n) =~= list);
    lemma_laid_down(list, base, l, back, n, now);
    lemma_put_off(list, base, back, n);
    let x = laid::laid_down(l, base, false, back, now);
    let off = unpack::put_off_by(base, false, laid::heads(back));
    let out = unpack::deepest_first(off, unpack::deepest(off) as int);
    unpack_laws::law_deepest_directories_come_first(off);
    let none = Seq::<u8>::empty();
    assert forall|k: int| 0 <= k < out.len() implies exists|i: int|
        0 <= i < n && is_dir(#[trigger] list[i]) && #[trigger] out[k] == waits(
            base,
            back[i].0,
        ) by {
        assert(out.contains(out[k]));
        let b = choose|b: int| 0 <= b < off.len() && off[b] == out[k];
        let i = choose|i: int|
            0 <= i < n && is_dir(#[trigger] list[i]) && off[b] == waits(base, back[i].0);
        assert(is_dir(list[i]) && out[k] == waits(base, back[i].0));
    }
    assert forall|i: int| 0 <= i < n implies paths::components(
        waits(base, back[i].0).path,
    ) == landed(base, #[trigger] list[i]) by {
        lemma_heading(list, back, i);
        paths_laws::law_placing_adds_components(base, list[i].path);
    }
    assert forall|k: int| 0 <= k < out.len() implies x.names.contains_key(
        paths::components((#[trigger] out[k]).path),
    ) by {
        let i = choose|i: int|
            0 <= i < n && is_dir(#[trigger] list[i]) && out[k] == waits(base, back[i].0);
    }
    assert forall|k: int, m: int|
        0 <= k < out.len() && 0 <= m < out.len() && x.names[paths::components(
            (#[trigger] out[k]).path,
        )] == x.names[paths::components((#[trigger] out[m]).path)] implies out[k] == out[m] by {
        let i = choose|i: int|
            0 <= i < n && is_dir(#[trigger] list[i]) && out[k] == waits(base, back[i].0);
        let j = choose|j: int|
            0 <= j < n && is_dir(#[trigger] list[j]) && out[m] == waits(base, back[j].0);
        assert(list[i].stat.inode == list[j].stat.inode);
        if i < j {
            assert(!is_dir(list[i]));
        } else if j < i {
            assert(!is_dir(list[j]));
        }
    }
    lemma_finish(x, out, none, now);
    let done = laid::unpacked(l, base, false, back, now);
    assert forall|i: int| 0 <= i < list.len() implies done.names.contains_key(
        landed(base, #[trigger] list[i]),
    ) && is_same(laid::thing_at(done, landed(base, list[i])), list[i]) by {
        let f = list[i];
        let m = x.names[landed(base, f)];
        if is_dir(f) {
            let w = waits(base, back[i].0);
            assert(out.contains(w));
            let k = choose|k: int| 0 <= k < out.len() && out[k] == w;
            assert(done.things[m] == laid::finished_thing(x.things[m], out[k]));
            lemma_heading(list, back, i);
            lemma_bits(f.stat.mode);
        } else {
            assert forall|k: int| 0 <= k < out.len() implies x.names[paths::components(
                (#[trigger] out[k]).path,
            )] != m by {
                let j = choose|j: int|
                    0 <= j < n && is_dir(#[trigger] list[j]) && out[k] == waits(base, back[j].0);
                if x.names[landed(base, list[j])] == m {
                    assert(list[i].stat.inode == list[j].stat.inode);
                    if i < j {
                        assert(list[i].stat == list[j].stat);
                    } else {
                        assert(!is_dir(list[j]));
                    }
                }
            }
            assert(done.things[m] == x.things[m]);
        }
    }
}

/// A tree that is read out into an archive and unpacked into an empty
/// directory is the same tree there: the same names, two of one inode where
/// there were two, and at each of them the same contents, target or device,
/// permissions, owner, extended attributes and time. Of a symbolic link only
/// the target is carried, a socket comes back as a FIFO, and a time of zero is
/// not set. Nothing else changes, and nothing behind the archive is read.
pub proof fn law_tree_comes_back(
    list: Seq<Found>,
    base: Seq<char>,
    l: Laid,
    tail: Seq<u8>,
    now: u32,
)
    requires
        is_tree(list),
        is_vacant(l, base),
        forall|i: int|
            0 <= i < packed(list).len() ==> tar_laws::faithful(
                (#[trigger] packed(list)[i]).0,
                packed(list)[i].1,
            ),
    ensures
        reader::entries_from(reader::fresh(tar_laws::archive(packed(list)) + tail)) matches Ok(
            back,
        ) && is_copy(list, base, l, laid::unpacked(l, base, false, back, now)),
{
    let entries = packed(list);
    tar_laws::law_round_trip(entries, tail);
    let back = reader::entries_from(reader::fresh(tar_laws::archive(entries) + tail))->Ok_0;
    if list.len() > 0 {
        lemma_packed(list, 0);
    }
    assert(carried(list, back)) by {
        assert forall|i: int| 0 <= i < list.len() implies ({
            let h = read_out(seen_by(list.take(i)), #[trigger] list[i]);
            &&& field::is_normal(list[i].path)
            &&& tar_laws::same_entry(back[i].0, writer::sized(h, list[i].data))
            &&& back[i].1 == writer::contents(h, list[i].data)
        }) by {
            lemma_packed(list, i);
            assert(tar_laws::faithful(entries[i].0, entries[i].1));
            assert(tar_laws::same_entry(
                back[i].0,
                writer::sized(entries[i].0, entries[i].1),
            ));
        }
    }
    lemma_copied(list, base, l, back, now);
}

/// Whether a directory's names, and those in the directories below it, are
/// names, each once, and are listed as directories just where they are some.
/// `kids` gives the names in each directory and `stats` what each path leads
/// to; directories are at most `d` deep.
pub open spec fn well_listed(
    dir: Seq<char>,
    rest: Seq<(Seq<char>, u32, bool)>,
    kids: Map<Seq<char>, Seq<(Seq<char>, u32, bool)>>,
    stats: Map<Seq<char>, Stat>,
    d: nat,
) -> bool
    decreases d, rest.len(),
{
    if rest.len() == 0 {
        true
    } else {
        let e = rest.last();
        let path = paths::joined(dir, e.0);
        &&& paths_laws::is_component(e.0)
        &&& forall|i: int| 0 <= i < rest.len() - 1 ==> (#[trigger] rest[i]).0 != e.0
        &&& e.2 <==> stats[path].mode & dir::IFMT == dir::IFDIR
        &&& e.2 ==> d > 0 && well_listed(path, kids[path], kids, stats, (d - 1) as nat)
        &&& well_listed(dir, rest.drop_last(), kids, stats, d)
    }
}

/// Whether a path is below a directory, right inside which it has one of the
/// names in `rest`.
spec fn is_under(path: Seq<char>, dir: Seq<char>, rest: Seq<(Seq<char>, u32, bool)>) -> bool {
    let at = paths::components(path);
    let base = paths::components(dir);
    &&& base.len() < at.len()
    &&& at.take(base.len() as int) == base
    &&& exists|k: int| 0 <= k < rest.len() && (#[trigger] rest[k]).0 == at[base.len() as int]
    &&& dir.len() + 1 < path.len()
    &&& path.take((dir.len() + 1) as int) == dir.push('/')
    &&& path[(dir.len() + 1) as int] != '/'
}

/// Whether the directory that a path is in stands in front of it.
spec fn comes_behind(all: Seq<Seq<char>>, i: int, stats: Map<Seq<char>, Stat>) -> bool {
    exists|j: int|
        0 <= j < i && paths::components(#[trigger] all[j]) == paths::components(all[i]).drop_last()
            && stats[all[j]].mode & dir::IFMT == dir::IFDIR
}

#[verifier::rlimit(30)]
proof fn lemma_preorder(
    dir: Seq<char>,
    rest: Seq<(Seq<char>, u32, bool)>,
    kids: Map<Seq<char>, Seq<(Seq<char>, u32, bool)>>,
    stats: Map<Seq<char>, Stat>,
    d: nat,
)
    requires
        well_listed(dir, rest, kids, stats, d),
        dir.len() == 0 || dir.last() != '/',
    ensures
        ({
            let all = pack_laws::preorder(dir, rest, kids, d);
            &&& forall|i: int| 0 <= i < all.len() ==> is_under(#[trigger] all[i], dir, rest)
            &&& forall|i: int, j: int|
                0 <= i < j < all.len() ==> paths::components(#[trigger] all[i])
                    != paths::components(#[trigger] all[j])
            &&& forall|i: int|
                0 <= i < all.len() && paths::components(#[trigger] all[i]).len()
                    > paths::components(dir).len() + 1 ==> comes_behind(all, i, stats)
        }),
    decreases d, rest.len(),
{
    if rest.len() > 0 {
        let all = pack_laws::preorder(dir, rest, kids, d);
        let base = paths::components(dir);
        let e = rest.last();
        let path = paths::joined(dir, e.0);
        let fewer = rest.drop_last();
        let under = if e.2 {
            pack_laws::preorder(path, kids[path], kids, (d - 1) as nat)
        } else {
            Seq::empty()
        };
        let more = pack_laws::preorder(dir, fewer, kids, d);
        assert(all =~= seq![path] + under + more);
        paths_laws::lemma_one_component(e.0);
        paths_laws::law_components_add_up(dir, e.0);
        assert(path == dir.push('/') + e.0);
        assert(paths::components(path) =~= base.push(e.0));
        assert(path.last() == e.0[e.0.len() - 1]);
        assert(path.last() != '/');
        if e.2 {
            lemma_preorder(path, kids[path], kids, stats, (d - 1) as nat);
        }
        lemma_preorder(dir, fewer, kids, stats, d);
        assert(rest[rest.len() - 1].0 == e.0);
        assert(is_under(path, dir, rest)) by {
            assert(base.push(e.0).take(base.len() as int) =~= base);
            assert(path.take((dir.len() + 1) as int) =~= dir.push('/'));
            assert(path[(dir.len() + 1) as int] == e.0[0]);
        }
        assert forall|a: int| 0 <= a < under.len() implies is_under(#[trigger] under[a], dir, rest)
            && paths::components(under[a])[base.len() as int] == e.0 && paths::components(
            under[a],
        ).len() > base.len() + 1 by {
            let p = under[a];
            let at = paths::components(p);
            assert(is_under(p, path, kids[path]));
            assert(at.take(base.len() as int) =~= at.take((base.len() + 1) as int).take(base.len() as int));
            assert(base.push(e.0).take(base.len() as int) =~= base);
            assert(at[base.len() as int] == at.take((base.len() + 1) as int)[base.len() as int]);
            assert(p.take((dir.len() + 1) as int) =~= p.take((path.len() + 1) as int).take((dir.len() + 1) as int));
            assert(path.push('/').take((dir.len() + 1) as int) =~= dir.push('/'));
            assert(p[(dir.len() + 1) as int] == p.take((path.len() + 1) as int)[(dir.len() + 1) as int]);
            assert(path.push('/')[(dir.len() + 1) as int] == e.0[0]);
        }
        assert forall|b: int| 0 <= b < more.len() implies is_under(#[trigger] more[b], dir, rest)
            && paths::components(more[b])[base.len() as int] != e.0 by {
            assert(is_under(more[b], dir, fewer));
            let at = paths::components(more[b]);
            let k = choose|k: int|
                0 <= k < fewer.len() && (#[trigger] fewer[k]).0 == at[base.len() as int];
            assert(rest[k] == fewer[k]);
        }
        let n = under.len() as int;
        assert(all[0] == path);
        assert forall|i: int| 0 <= i < all.len() implies is_under(#[trigger] all[i], dir, rest) by {
            if 0 < i <= n {
                assert(all[i] == under[i - 1]);
            } else if i > n {
                assert(all[i] == more[i - 1 - n]);
            }
        }
        assert forall|i: int, j: int| 0 <= i < j < all.len() implies paths::components(
            #[trigger] all[i],
        ) != paths::components(#[trigger] all[j]) by {
            if j <= n {
                assert(all[j] == under[j - 1]);
                if i > 0 {
                    assert(all[i] == under[i - 1]);
                }
            } else {
                assert(all[j] == more[j - 1 - n]);
                if i > n {
                    assert(all[i] == more[i - 1 - n]);
                } else if i > 0 {
                    assert(all[i] == under[i - 1]);
                } else {
                    assert(base.push(e.0)[base.len() as int] == e.0);
                }
            }
        }
        assert forall|i: int|
            0 <= i < all.len() && paths::components(#[trigger] all[i]).len() > base.len()
                + 1 implies comes_behind(all, i, stats) by {
            let at = paths::components(all[i]);
            if 0 < i <= n {
                assert(all[i] == under[i - 1]);
                if at.len() > base.len() + 2 {
                    assert(comes_behind(under, i - 1, stats));
                    let j = choose|j: int|
                        0 <= j < i - 1 && paths::components(#[trigger] under[j])
                            == paths::components(under[i - 1]).drop_last() && stats[under[j]].mode
                            & dir::IFMT == dir::IFDIR;
                    assert(all[j + 1] == under[j]);
                } else {
                    assert(is_under(under[i - 1], path, kids[path]));
                    assert(at.drop_last() =~= at.take((base.len() + 1) as int));
                    assert(paths::components(all[0]) == at.drop_last());
                }
            } else if i > n {
                assert(all[i] == more[i - 1 - n]);
                assert(comes_behind(more, i - 1 - n, stats));
                let j = choose|j: int|
                    0 <= j < i - 1 - n && paths::components(#[trigger] more[j])
                        == paths::components(more[i - 1 - n]).drop_last() && stats[more[j]].mode
                        & dir::IFMT == dir::IFDIR;
                assert(all[j + 1 + n] == more[j]);
            }
        }
    }
}

/// The names that a walk visits, each with what it leads to, are a tree.
pub proof fn law_walk_lists_a_tree(
    root: Seq<char>,
    kids: Map<Seq<char>, Seq<(Seq<char>, u32, bool)>>,
    stats: Map<Seq<char>, Stat>,
    d: nat,
    list: Seq<Found>,
)
    requires
        root.len() == 0 || root.last() != '/',
        well_listed(root, kids[root], kids, stats, d),
        list.len() == pack_laws::preorder(root, kids[root], kids, d).len(),
        forall|i: int|
            0 <= i < list.len() ==> {
                let path = pack_laws::preorder(root, kids[root], kids, d)[i];
                &&& (#[trigger] list[i]).path == paths::relative(root, path)
                &&& list[i].stat == stats[path]
            },
        inodes_agree(list),
    ensures
        is_tree(list),
{
    let all = pack_laws::preorder(root, kids[root], kids, d);
    let base = paths::components(root);
    lemma_preorder(root, kids[root], kids, stats, d);
    assert forall|i: int| 0 <= i < list.len() implies (#[trigger] list[i]).path.len() > 0
        && paths::components(all[i]) == base + place_of(list[i]) by {
        let path = all[i];
        assert(is_under(path, root, kids[root]));
        let rest = path.skip((root.len() + 1) as int);
        assert(path =~= root.push('/') + rest);
        paths_laws::law_components_add_up(root, rest);
        let tail = path.skip(root.len() as int);
        assert(tail.skip(1) =~= rest);
        assert(tail[0] == path.take((root.len() + 1) as int)[root.len() as int]);
        assert(rest[0] == path[(root.len() + 1) as int]);
        reveal_with_fuel(field::without_leading, 2);
        assert(paths::relative(root, path) == rest);
    }
    assert forall|i: int, j: int| 0 <= i < j < list.len() implies place_of(#[trigger] list[i])
        != place_of(#[trigger] list[j]) by {
        assert(paths::components(all[i]) != paths::components(all[j]));
    }
    assert forall|i: int|
        0 <= i < list.len() && place_of(#[trigger] list[i]).len() > 1 implies has_parent(
        list,
        i,
    ) by {
        let at = paths::components(all[i]);
        assert(comes_behind(all, i, stats));
        let j = choose|j: int|
            0 <= j < i && paths::components(#[trigger] all[j]) == at.drop_last()
                && stats[all[j]].mode & dir::IFMT == dir::IFDIR;
        assert(paths::components(all[j]) == base + place_of(list[j]));
        assert(place_of(list[j]) =~= at.drop_last().skip(base.len() as int));
        assert(place_of(list[i]) =~= at.skip(base.len() as int));
        assert(place_of(list[j]) =~= place_of(list[i]).drop_last());
    }
}

} // verus!
