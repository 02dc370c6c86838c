//! What the changes an operation makes come to on disk: each inode's fields,
//! the blocks it holds, and the blocks that are free.

use vstd::prelude::*;

use crate::dir_laws;
use crate::volume::inode::{Edit, Inode};
use crate::volume::ops::{self, AreaView, ChangeView, Features, Occupant};
use crate::volume::types::{Attrs, Special};

verus! {

/// An inode and what stands where its block map would.
#[verifier::ext_equal]
pub struct Held {
    /// Its fields.
    pub inode: Inode,
    /// Its block map, or what it holds in place of one.
    pub area: AreaView,
}

/// A filesystem, as far as operations on names touch it.
#[verifier::ext_equal]
pub struct Disk {
    /// The inodes in use.
    pub nodes: Map<u32, Held>,
    /// The names, each in its directory, and the inode each one leads to.
    pub names: Map<(u32, Seq<u8>), u32>,
    /// What `..` names in each directory.
    pub parents: Map<u32, u32>,
    /// What each block holds.
    pub store: Map<u64, Seq<u8>>,
    /// The blocks that nothing uses.
    pub free: Set<u64>,
    /// How many directories are counted.
    pub directories: int,
    /// What is left of the inodes that were given back.
    pub left: Map<u32, Inode>,
}

/// The blocks an inode's map lists, in order.
pub open spec fn blocks_of(h: Held) -> Seq<u64> {
    match h.area {
        AreaView::Blocks(list) => list,
        _ => Seq::empty(),
    }
}

/// The blocks an inode holds: those of its map, and that of its attributes.
pub open spec fn owned(h: Held) -> Set<u64> {
    if h.inode.file_acl == 0 {
        blocks_of(h).to_set()
    } else {
        blocks_of(h).to_set().insert(h.inode.file_acl)
    }
}

/// A disk with one change made.
pub open spec fn changed(d: Disk, c: ChangeView, block_size: u32, now: u32) -> Disk {
    match c {
        ChangeView::WriteDirectory { inum, parent, block, contents } => Disk {
            parents: d.parents.insert(inum, parent),
            store: d.store.insert(block, contents),
            ..d
        },
        ChangeView::WriteBlock { block, contents } => Disk {
            store: d.store.insert(block, contents),
            ..d
        },
        ChangeView::Put { inum, inode, area } => Disk {
            nodes: d.nodes.insert(inum, Held { inode, area }),
            ..d
        },
        ChangeView::Edit { inum, edit } => Disk {
            nodes: d.nodes.insert(
                inum,
                Held { inode: d.nodes[inum].inode.with(edit, now), ..d.nodes[inum] },
            ),
            ..d
        },
        ChangeView::Enter { dir, name, target } => Disk {
            names: d.names.insert((dir, name), target),
            ..d
        },
        ChangeView::Leave { dir, name } => Disk { names: d.names.remove((dir, name)), ..d },
        ChangeView::Repoint { dir, parent } => Disk { parents: d.parents.insert(dir, parent), ..d },
        ChangeView::Empty { inum } => Disk {
            nodes: d.nodes.insert(
                inum,
                Held {
                    inode: d.nodes[inum].inode.emptied(block_size, now),
                    area: d.nodes[inum].inode.empty_area()@,
                },
            ),
            free: d.free.union(blocks_of(d.nodes[inum]).to_set()),
            ..d
        },
        ChangeView::DropAttributes { inum } => Disk {
            nodes: d.nodes.insert(
                inum,
                Held { inode: d.nodes[inum].inode.without_acl(block_size), ..d.nodes[inum] },
            ),
            free: if d.nodes[inum].inode.file_acl == 0 {
                d.free
            } else {
                d.free.insert(d.nodes[inum].inode.file_acl)
            },
            ..d
        },
        ChangeView::Free { inum, was_dir } => Disk {
            nodes: d.nodes.remove(inum),
            parents: d.parents.remove(inum),
            directories: if was_dir {
                d.directories - 1
            } else {
                d.directories
            },
            left: d.left.insert(inum, d.nodes[inum].inode),
            ..d
        },
    }
}

/// A disk with changes made one after the other.
pub open spec fn after(d: Disk, list: Seq<ChangeView>, block_size: u32, now: u32) -> Disk
    decreases list.len(),
{
    if list.len() == 0 {
        d
    } else {
        after(changed(d, list[0], block_size, now), list.skip(1), block_size, now)
    }
}

/// The bytes of the blocks of a list, from the `from`th on.
pub open spec fn stored_from(store: Map<u64, Seq<u8>>, list: Seq<u64>, from: nat) -> Seq<u8>
    decreases list.len() - from,
{
    if from >= list.len() {
        Seq::empty()
    } else {
        store[list[from as int]] + stored_from(store, list, from + 1)
    }
}

/// What reading the file a name leads to gives: as many bytes as its size says,
/// out of its blocks.
pub open spec fn read(d: Disk, place: (u32, Seq<u8>)) -> Option<Seq<u8>> {
    if d.names.contains_key(place) && d.nodes.contains_key(d.names[place]) {
        let h = d.nodes[d.names[place]];
        Some(stored_from(d.store, blocks_of(h), 0).take(h.inode.size as int))
    } else {
        None
    }
}

/// Whether this is what is left of an inode that was given back at time `now`: it
/// has no links, no contents, no block and no attributes, and says when it went;
/// the rest of it stays.
pub open spec fn is_left_of(r: Inode, was: Inode, now: u32) -> bool {
    &&& r.links_count == 0
    &&& r.dtime == now
    &&& r.size == 0
    &&& r.blocks == 0
    &&& r.file_acl == 0
    &&& r.mode == was.mode
    &&& r.uid == was.uid
    &&& r.gid == was.gid
    &&& r.flags == was.flags
    &&& r.generation == was.generation
    &&& r.atime == was.atime
    &&& r.crtime == was.crtime
    &&& r.mtime == now
    &&& r.ctime == now
}

/// Changes made to a disk, written out.
proof fn lemma_after_steps(
    d: Disk,
    list: Seq<ChangeView>,
    steps: Seq<Disk>,
    block_size: u32,
    now: u32,
)
    requires
        steps.len() == list.len() + 1,
        steps[0] == d,
        forall|i: int|
            0 <= i < list.len() ==> #[trigger] steps[i + 1] == changed(
                steps[i],
                list[i],
                block_size,
                now,
            ),
    ensures
        after(d, list, block_size, now) == steps.last(),
    decreases list.len(),
{
    if list.len() > 0 {
        assert(steps[0int + 1] == changed(steps[0], list[0], block_size, now));
        let rest = list.skip(1);
        let later = steps.skip(1);
        assert forall|i: int| 0 <= i < rest.len() implies #[trigger] later[i + 1] == changed(
            later[i],
            rest[i],
            block_size,
            now,
        ) by {
            assert(steps[(i + 1) + 1] == changed(steps[i + 1], list[i + 1], block_size, now));
        }
        lemma_after_steps(steps[1], rest, later, block_size, now);
    }
}

proof fn lemma_after_add(
    d: Disk,
    a: Seq<ChangeView>,
    b: Seq<ChangeView>,
    block_size: u32,
    now: u32,
)
    ensures
        after(d, a + b, block_size, now) == after(
            after(d, a, block_size, now),
            b,
            block_size,
            now,
        ),
    decreases a.len(),
{
    if a.len() == 0 {
        assert(a + b =~= b);
    } else {
        assert((a + b).skip(1) =~= a.skip(1) + b);
        lemma_after_add(changed(d, a[0], block_size, now), a.skip(1), b, block_size, now);
    }
}

/// Removing a file's last name takes the name and the file, and nothing else:
/// every other inode — the directory the name was in among them — keeps its
/// fields and its blocks, and the blocks that become free are those the file
/// and its attributes had.
pub proof fn law_unlinking_frees_only_the_file(
    d: Disk,
    parent: u32,
    name: Seq<u8>,
    inum: u32,
    inode: Inode,
    block_size: u32,
    now: u32,
)
    requires
        d.nodes.contains_key(inum),
        d.nodes[inum].inode == inode,
        inode.links_count <= 1,
    ensures
        ({
            let e = after(d, ops::unlinked(parent, name, inum, inode), block_size, now);
            &&& !e.nodes.contains_key(inum)
            &&& forall|i: u32|
                #![trigger e.nodes.contains_key(i)]
                #![trigger e.nodes[i]]
                i != inum ==> e.nodes.contains_key(i) == d.nodes.contains_key(i) && e.nodes[i]
                    == d.nodes[i]
            &&& forall|b: u64| #[trigger]
                e.free.contains(b) <==> d.free.contains(b) || owned(d.nodes[inum]).contains(b)
            &&& e.names == d.names.remove((parent, name))
            &&& e.parents == d.parents.remove(inum)
            &&& e.store == d.store
            &&& e.directories == d.directories
            &&& is_left_of(e.left[inum], inode, now)
            &&& e.left == d.left.insert(inum, e.left[inum])
        }),
{
    let list = ops::unlinked(parent, name, inum, inode);
    let s0 = d;
    let s1 = changed(s0, list[0], block_size, now);
    let s2 = changed(s1, list[1], block_size, now);
    let s3 = changed(s2, list[2], block_size, now);
    let s4 = changed(s3, list[3], block_size, now);
    let s5 = changed(s4, list[4], block_size, now);
    let steps = seq![s0, s1, s2, s3, s4, s5];
    lemma_after_steps(d, list, steps, block_size, now);
    assert(s2.nodes[inum].inode.file_acl == inode.file_acl);
}

/// Removing one of several names of a file leaves the file as it was, with one
/// link less, and frees nothing.
pub proof fn law_other_names_keep_the_file(
    d: Disk,
    parent: u32,
    name: Seq<u8>,
    inum: u32,
    inode: Inode,
    block_size: u32,
    now: u32,
)
    requires
        d.nodes.contains_key(inum),
        d.nodes[inum].inode == inode,
        inode.links_count >= 2,
    ensures
        ({
            let e = after(d, ops::unlinked(parent, name, inum, inode), block_size, now);
            &&& e.nodes == d.nodes.insert(
                inum,
                Held {
                    inode: Inode { links_count: (inode.links_count - 1) as u16, ..inode },
                    area: d.nodes[inum].area,
                },
            )
            &&& e.names == d.names.remove((parent, name))
            &&& e.parents == d.parents
            &&& e.store == d.store
            &&& e.free == d.free
            &&& e.directories == d.directories
            &&& e.left == d.left
            &&& forall|place: (u32, Seq<u8>)|
                place != (parent, name) ==> #[trigger] read(e, place) == read(d, place)
        }),
{
    let list = ops::unlinked(parent, name, inum, inode);
    let s1 = changed(d, list[0], block_size, now);
    let s2 = changed(s1, list[1], block_size, now);
    lemma_after_steps(d, list, seq![d, s1, s2], block_size, now);
}

/// Removing a directory takes its name and the directory: of its parent only
/// the count of links — one less, for the `..` that is gone — and the times
/// change, every other inode keeps its fields and its blocks, and the blocks
/// that become free are those the directory and its attributes had.
pub proof fn law_rmdir_frees_only_the_directory(
    d: Disk,
    parent: u32,
    name: Seq<u8>,
    inum: u32,
    block_size: u32,
    now: u32,
)
    requires
        d.nodes.contains_key(inum),
        d.nodes.contains_key(parent),
        parent != inum,
        d.nodes[parent].inode.links_count >= 1,
    ensures
        ({
            let e = after(d, ops::directory_removed(parent, name, inum), block_size, now);
            let p = d.nodes[parent].inode;
            &&& !e.nodes.contains_key(inum)
            &&& e.nodes.contains_key(parent)
            &&& e.nodes[parent].area == d.nodes[parent].area
            &&& e.nodes[parent].inode == (Inode {
                links_count: (p.links_count - 1) as u16,
                mtime: now,
                ctime: now,
                ..p
            })
            &&& forall|i: u32|
                #![trigger e.nodes.contains_key(i)]
                #![trigger e.nodes[i]]
                i != inum && i != parent ==> e.nodes.contains_key(i) == d.nodes.contains_key(i)
                    && e.nodes[i] == d.nodes[i]
            &&& forall|b: u64| #[trigger]
                e.free.contains(b) <==> d.free.contains(b) || owned(d.nodes[inum]).contains(b)
            &&& e.names == d.names.remove((parent, name))
            &&& e.parents == d.parents.remove(inum)
            &&& e.store == d.store
            &&& e.directories == d.directories - 1
            &&& is_left_of(e.left[inum], d.nodes[inum].inode, now)
            &&& e.left == d.left.insert(inum, e.left[inum])
        }),
{
    let list = ops::directory_removed(parent, name, inum);
    let s0 = d;
    let s1 = changed(s0, list[0], block_size, now);
    let s2 = changed(s1, list[1], block_size, now);
    let s3 = changed(s2, list[2], block_size, now);
    let s4 = changed(s3, list[3], block_size, now);
    let s5 = changed(s4, list[4], block_size, now);
    let s6 = changed(s5, list[5], block_size, now);
    lemma_after_steps(d, list, seq![s0, s1, s2, s3, s4, s5, s6], block_size, now);
    assert(s2.nodes[inum].inode.file_acl == d.nodes[inum].inode.file_acl);
}

/// Moving something touches no byte of it: of its inode only the time of the
/// last change does not stay what it was, it keeps its blocks, and nothing is
/// written or freed. It has its new name in place of the old one, every other
/// name leads where it led, and reading by the new name gives what reading by
/// the old one gave.
pub proof fn law_moving_touches_nothing_moved(
    d: Disk,
    from: (u32, Seq<u8>),
    to: (u32, Seq<u8>),
    inum: u32,
    moving: Inode,
    block_size: u32,
    now: u32,
)
    requires
        d.nodes.contains_key(inum),
        d.nodes[inum].inode == moving,
        d.names.contains_key(from),
        d.names[from] == inum,
        from != to,
        moving.mode & 0o170000 == 0o040000 ==> {
            &&& from.0 != inum
            &&& to.0 != inum
            &&& d.nodes.contains_key(from.0)
            &&& d.nodes.contains_key(to.0)
            &&& d.nodes[from.0].inode.links_count >= 1
            &&& d.nodes[to.0].inode.links_count < u16::MAX
        },
    ensures
        ({
            let e = after(d, ops::renamed(from, to, inum, moving, None), block_size, now);
            let was = d.nodes[inum].inode;
            let is = e.nodes[inum].inode;
            &&& e.nodes.contains_key(inum)
            &&& is.mode == was.mode
            &&& is.uid == was.uid
            &&& is.gid == was.gid
            &&& is.size == was.size
            &&& is.links_count == was.links_count
            &&& is.blocks == was.blocks
            &&& is.flags == was.flags
            &&& is.generation == was.generation
            &&& is.atime == was.atime
            &&& is.mtime == was.mtime
            &&& is.crtime == was.crtime
            &&& is.dtime == was.dtime
            &&& is.file_acl == was.file_acl
            &&& is.ctime == now
            &&& e.nodes[inum].area == d.nodes[inum].area
            &&& e.store == d.store
            &&& e.free == d.free
            &&& e.directories == d.directories
            &&& e.left == d.left
            &&& !e.names.contains_key(from)
            &&& e.names.contains_key(to)
            &&& e.names[to] == inum
            &&& forall|k: (u32, Seq<u8>)|
                k != from && k != to ==> (#[trigger] e.names.contains_key(k)
                    == d.names.contains_key(k) && e.names[k] == d.names[k])
            &&& read(e, to) == read(d, from)
        }),
{
    lemma_moved(d, from, to, inum, moving, block_size, now);
}

/// A move, written out.
proof fn lemma_moved(
    d: Disk,
    from: (u32, Seq<u8>),
    to: (u32, Seq<u8>),
    inum: u32,
    moving: Inode,
    block_size: u32,
    now: u32,
)
    requires
        d.nodes.contains_key(inum),
        d.nodes[inum].inode == moving,
        d.names.contains_key(from),
        d.names[from] == inum,
        from != to,
        moving.dir() ==> {
            &&& from.0 != inum
            &&& to.0 != inum
            &&& d.nodes.contains_key(from.0)
            &&& d.nodes.contains_key(to.0)
            &&& d.nodes[from.0].inode.links_count >= 1
            &&& d.nodes[to.0].inode.links_count < u16::MAX
        },
    ensures
        ({
            let e = after(d, ops::moved(from, to, inum, moving.dir()), block_size, now);
            let p = d.nodes[from.0];
            let q = d.nodes[to.0];
            let mid = if moving.dir() && from.0 != to.0 {
                d.nodes.insert(
                    from.0,
                    Held {
                        inode: Inode {
                            links_count: (p.inode.links_count - 1) as u16,
                            ctime: now,
                            ..p.inode
                        },
                        area: p.area,
                    },
                ).insert(
                    to.0,
                    Held {
                        inode: Inode {
                            links_count: (q.inode.links_count + 1) as u16,
                            ctime: now,
                            ..q.inode
                        },
                        area: q.area,
                    },
                )
            } else {
                d.nodes
            };
            &&& e.nodes == mid.insert(
                inum,
                Held { inode: Inode { ctime: now, ..moving }, area: d.nodes[inum].area },
            )
            &&& e.names == d.names.insert(to, inum).remove(from)
            &&& e.parents == (if moving.dir() && from.0 != to.0 {
                d.parents.insert(inum, to.0)
            } else {
                d.parents
            })
            &&& e.store == d.store
            &&& e.free == d.free
            &&& e.directories == d.directories
            &&& e.left == d.left
        }),
{
    let list = ops::moved(from, to, inum, moving.dir());
    let s1 = changed(d, list[0], block_size, now);
    let s2 = changed(s1, list[1], block_size, now);
    let s3 = changed(s2, list[2], block_size, now);
    if moving.dir() && from.0 != to.0 {
        let s4 = changed(s3, list[3], block_size, now);
        let s5 = changed(s4, list[4], block_size, now);
        let s6 = changed(s5, list[5], block_size, now);
        assert(list =~= seq![
            ChangeView::Enter { dir: to.0, name: to.1, target: inum },
            ChangeView::Leave { dir: from.0, name: from.1 },
            ChangeView::Repoint { dir: inum, parent: to.0 },
            ChangeView::Edit { inum: from.0, edit: Edit::ChildMovedOut },
            ChangeView::Edit { inum: to.0, edit: Edit::ChildMovedIn },
            ChangeView::Edit { inum, edit: Edit::Moved },
        ]);
        lemma_after_steps(d, list, seq![d, s1, s2, s3, s4, s5, s6], block_size, now);
        assert(s6.nodes =~= d.nodes.insert(
            from.0,
            Held {
                inode: Inode {
                    links_count: (d.nodes[from.0].inode.links_count - 1) as u16,
                    ctime: now,
                    ..d.nodes[from.0].inode
                },
                area: d.nodes[from.0].area,
            },
        ).insert(
            to.0,
            Held {
                inode: Inode {
                    links_count: (d.nodes[to.0].inode.links_count + 1) as u16,
                    ctime: now,
                    ..d.nodes[to.0].inode
                },
                area: d.nodes[to.0].area,
            },
        ).insert(
            inum,
            Held { inode: Inode { ctime: now, ..moving }, area: d.nodes[inum].area },
        ));
    } else {
        assert(list =~= seq![
            ChangeView::Enter { dir: to.0, name: to.1, target: inum },
            ChangeView::Leave { dir: from.0, name: from.1 },
            ChangeView::Edit { inum, edit: Edit::Moved },
        ]);
        lemma_after_steps(d, list, seq![d, s1, s2, s3], block_size, now);
    }
}

/// Moving a file, or a directory within its own, leaves every other inode as it
/// was. Moving a directory into another takes the link its `..` is from the one
/// and gives it to the other: of those two only the counts of links and the
/// times of the last change are not what they were.
pub proof fn law_moving_a_directory_moves_one_link(
    d: Disk,
    from: (u32, Seq<u8>),
    to: (u32, Seq<u8>),
    inum: u32,
    moving: Inode,
    block_size: u32,
    now: u32,
)
    requires
        d.nodes.contains_key(inum),
        d.nodes[inum].inode == moving,
        d.names.contains_key(from),
        d.names[from] == inum,
        from != to,
        moving.mode & 0o170000 == 0o040000 ==> {
            &&& from.0 != inum
            &&& to.0 != inum
            &&& d.nodes.contains_key(from.0)
            &&& d.nodes.contains_key(to.0)
            &&& d.nodes[from.0].inode.links_count >= 1
            &&& d.nodes[to.0].inode.links_count < u16::MAX
        },
    ensures
        ({
            let e = after(d, ops::renamed(from, to, inum, moving, None), block_size, now);
            let crosses = moving.mode & 0o170000 == 0o040000 && from.0 != to.0;
            &&& e.nodes.dom() == d.nodes.dom()
            &&& forall|i: u32|
                i != inum && !(crosses && (i == from.0 || i == to.0)) ==> #[trigger] e.nodes[i]
                    == d.nodes[i]
            &&& crosses ==> {
                let p = d.nodes[from.0].inode;
                let q = d.nodes[to.0].inode;
                &&& e.parents == d.parents.insert(inum, to.0)
                &&& e.nodes[from.0].area == d.nodes[from.0].area
                &&& e.nodes[to.0].area == d.nodes[to.0].area
                &&& e.nodes[from.0].inode == (Inode {
                    links_count: (p.links_count - 1) as u16,
                    ctime: now,
                    ..p
                })
                &&& e.nodes[to.0].inode == (Inode {
                    links_count: (q.links_count + 1) as u16,
                    ctime: now,
                    ..q
                })
            }
            &&& !crosses ==> e.parents == d.parents
        }),
{
    lemma_moved(d, from, to, inum, moving, block_size, now);
    let e = after(d, ops::renamed(from, to, inum, moving, None), block_size, now);
    assert(e.nodes.dom() =~= d.nodes.dom());
}

/// Renaming something to a name it has already changes nothing.
pub proof fn law_renaming_to_itself_changes_nothing(
    d: Disk,
    from: (u32, Seq<u8>),
    to: (u32, Seq<u8>),
    inum: u32,
    moving: Inode,
    there: Occupant,
    block_size: u32,
    now: u32,
)
    requires
        there.inum == inum,
    ensures
        after(d, ops::renamed(from, to, inum, moving, Some(there)), block_size, now) == d,
{
}

/// Renaming over something else removes what stood there — the blocks that
/// become free are those it and its attributes had, if it lost its last name —
/// and touches nothing of what is moved but the time of its last change:
/// reading by the new name gives what reading by the old one gave.
pub proof fn law_renaming_replaces_what_stands_there(
    d: Disk,
    from: (u32, Seq<u8>),
    to: (u32, Seq<u8>),
    inum: u32,
    moving: Inode,
    there: Occupant,
    block_size: u32,
    now: u32,
)
    requires
        d.nodes.contains_key(inum),
        d.nodes[inum].inode == moving,
        d.names.contains_key(from),
        d.names[from] == inum,
        d.names.contains_key(to),
        d.names[to] == there.inum,
        there.inum != inum,
        there.inum != from.0,
        there.inum != to.0,
        to.0 != inum,
        from.0 != inum,
        d.nodes.contains_key(there.inum),
        d.nodes[there.inum].inode == there.inode,
        d.nodes.contains_key(from.0),
        d.nodes.contains_key(to.0),
        2 <= d.nodes[from.0].inode.links_count,
        2 <= d.nodes[to.0].inode.links_count < u16::MAX,
    ensures
        ({
            let e = after(
                d,
                ops::renamed(from, to, inum, moving, Some(there)),
                block_size,
                now,
            );
            let is_dir = there.inode.mode & 0o170000 == 0o040000;
            let goes = is_dir || there.inode.links_count <= 1;
            &&& e.nodes[inum].inode == (Inode { ctime: now, ..moving })
            &&& e.nodes[inum].area == d.nodes[inum].area
            &&& e.store == d.store
            &&& forall|b: u64| #[trigger]
                e.free.contains(b) <==> d.free.contains(b) || (goes && owned(
                    d.nodes[there.inum],
                ).contains(b))
            &&& e.nodes.contains_key(there.inum) == !goes
            &&& goes ==> is_left_of(e.left[there.inum], there.inode, now)
            &&& goes ==> e.left == d.left.insert(there.inum, e.left[there.inum])
            &&& !goes ==> e.left == d.left
            &&& !goes ==> e.nodes[there.inum].inode == (Inode {
                links_count: (there.inode.links_count - 1) as u16,
                ..there.inode
            })
            &&& !goes ==> e.nodes[there.inum].area == d.nodes[there.inum].area
            &&& e.directories == (if is_dir {
                d.directories - 1
            } else {
                d.directories
            })
            &&& e.names == d.names.insert(to, inum).remove(from)
            &&& forall|i: u32|
                i != inum && i != there.inum && i != from.0 && i != to.0 ==> #[trigger] e.nodes[i]
                    == d.nodes[i]
            &&& forall|i: u32|
                i != there.inum ==> #[trigger] e.nodes.contains_key(i) == d.nodes.contains_key(i)
            &&& e.nodes[from.0].area == d.nodes[from.0].area
            &&& e.nodes[to.0].area == d.nodes[to.0].area
            &&& e.nodes[from.0].inode.size == d.nodes[from.0].inode.size
            &&& e.nodes[to.0].inode.size == d.nodes[to.0].inode.size
            &&& read(e, to) == read(d, from)
        }),
{
    let first = ops::cleared(to, there);
    let m = after(d, first, block_size, now);
    lemma_after_add(d, first, ops::moved(from, to, inum, moving.dir()), block_size, now);
    if there.inode.dir() {
        law_rmdir_frees_only_the_directory(d, to.0, to.1, there.inum, block_size, now);
    } else if there.inode.links_count <= 1 {
        law_unlinking_frees_only_the_file(
            d,
            to.0,
            to.1,
            there.inum,
            there.inode,
            block_size,
            now,
        );
    } else {
        law_other_names_keep_the_file(d, to.0, to.1, there.inum, there.inode, block_size, now);
    }
    assert(m.names == d.names.remove(to));
    assert(m.nodes.contains_key(inum));
    assert(m.nodes[inum] == d.nodes[inum]);
    assert(m.nodes.contains_key(from.0));
    assert(m.nodes.contains_key(to.0));
    lemma_moved(m, from, to, inum, moving, block_size, now);
    let e = after(m, ops::moved(from, to, inum, moving.dir()), block_size, now);
    assert(e.names =~= d.names.insert(to, inum).remove(from));
}

/// A created file is empty: it has the type of a regular file, the permission
/// bits and the owner that were asked for, one link, no block and no attribute;
/// its name leads to it, and nothing else changes.
pub proof fn law_created_files_start_empty(
    d: Disk,
    features: Features,
    parent: u32,
    name: Seq<u8>,
    inum: u32,
    attrs: Attrs,
    now: u32,
)
    ensures
        ({
            let e = after(
                d,
                ops::created(
                    parent,
                    name,
                    inum,
                    Inode::file(attrs, now, features.extents),
                    ops::nothing_mapped(features.extents),
                ),
                features.block_size,
                now,
            );
            let f = e.nodes[inum].inode;
            &&& f.mode & 0o170000 == 0o100000
            &&& f.mode & 0o7777 == attrs.mode & 0o7777
            &&& f.uid == attrs.uid
            &&& f.gid == attrs.gid
            &&& f.size == 0
            &&& f.links_count == 1
            &&& f.blocks == 0
            &&& f.flags == (if features.extents {
                0x8_0000u32
            } else {
                0
            })
            &&& f.generation == 0
            &&& f.atime == now
            &&& f.ctime == now
            &&& f.mtime == now
            &&& f.crtime == now
            &&& f.dtime == 0
            &&& f.file_acl == 0
            &&& e.nodes[inum].area == (if features.extents {
                AreaView::EmptyTree
            } else {
                AreaView::Zeroes
            })
            &&& e.nodes.dom() == d.nodes.dom().insert(inum)
            &&& forall|i: u32| i != inum ==> #[trigger] e.nodes[i] == d.nodes[i]
            &&& e.names == d.names.insert((parent, name), inum)
            &&& e.parents == d.parents
            &&& e.store == d.store
            &&& e.free == d.free
            &&& e.directories == d.directories
            &&& e.left == d.left
            &&& read(e, (parent, name)) == Some(Seq::<u8>::empty())
        }),
{
    let list = ops::created(
        parent,
        name,
        inum,
        Inode::file(attrs, now, features.extents),
        ops::nothing_mapped(features.extents),
    );
    let s1 = changed(d, list[0], features.block_size, now);
    let s2 = changed(s1, list[1], features.block_size, now);
    lemma_after_steps(d, list, seq![d, s1, s2], features.block_size, now);
    lemma_bits(attrs.mode);
    assert(s2.nodes.dom() =~= d.nodes.dom().insert(inum));
    assert(read(s2, (parent, name))->0 =~= Seq::<u8>::empty());
}

/// Type bits and permission bits stay apart.
proof fn lemma_bits(m: u16)
    ensures
        forall|k: u16|
            k == 0o100000 || k == 0o040000 || k == 0o020000 || k == 0o060000 || k == 0o010000 || k
                == 0o140000 || k == 0o120000 ==> #[trigger] (k | (m & 0o7777)) & 0o170000 == k && (k
                | (m & 0o7777)) & 0o7777 == m & 0o7777,
{
    assert(forall|k: u16|
        k == 0o100000 || k == 0o040000 || k == 0o020000 || k == 0o060000 || k == 0o010000 || k
            == 0o140000 || k == 0o120000 ==> #[trigger] (k | (m & 0o7777)) & 0o170000 == k && (k | (
        m & 0o7777)) & 0o7777 == m & 0o7777) by (bit_vector);
}

/// A made directory has the type of a directory, the permission bits and the
/// owner that were asked for, two links and one block, which is what the first
/// block of a directory with that parent is. Its name leads to it, its `..` to
/// its parent, which has a link more; nothing else changes.
pub proof fn law_made_directories_start_with_their_dots(
    d: Disk,
    features: Features,
    parent: u32,
    name: Seq<u8>,
    inum: u32,
    block: u64,
    attrs: Attrs,
    now: u32,
)
    requires
        features.valid(),
        d.nodes.contains_key(parent),
        d.nodes[parent].inode.links_count < u16::MAX,
        parent != inum,
    ensures
        ({
            let e = after(
                d,
                ops::directory_made(features, now, parent, name, inum, block, attrs),
                features.block_size,
                now,
            );
            let f = e.nodes[inum].inode;
            let p = d.nodes[parent].inode;
            &&& f.mode & 0o170000 == 0o040000
            &&& f.mode & 0o7777 == attrs.mode & 0o7777
            &&& f.uid == attrs.uid
            &&& f.gid == attrs.gid
            &&& f.size == features.block_size
            &&& f.links_count == 2
            &&& f.blocks == features.block_size / 512
            &&& f.flags == (if features.extents {
                0x8_0000u32
            } else {
                0
            })
            &&& f.generation == 0
            &&& f.atime == now
            &&& f.ctime == now
            &&& f.mtime == now
            &&& f.crtime == now
            &&& f.dtime == 0
            &&& f.file_acl == 0
            &&& e.nodes[inum].area == AreaView::Blocks(seq![block])
            &&& e.nodes[parent].area == d.nodes[parent].area
            &&& e.nodes[parent].inode == (Inode {
                links_count: (p.links_count + 1) as u16,
                mtime: now,
                ctime: now,
                ..p
            })
            &&& e.nodes.dom() == d.nodes.dom().insert(inum)
            &&& forall|i: u32| i != inum && i != parent ==> #[trigger] e.nodes[i] == d.nodes[i]
            &&& e.names == d.names.insert((parent, name), inum)
            &&& e.parents == d.parents.insert(inum, parent)
            &&& e.store == d.store.insert(block, e.store[block])
            &&& dir_laws::starts_a_directory(
                e.store[block],
                features.block_size as int,
                features.metadata_csum,
                inum,
                parent,
                if features.filetype {
                    2
                } else {
                    0
                },
            )
            &&& e.free == d.free
            &&& e.directories == d.directories
            &&& e.left == d.left
        }),
{
    let list = ops::directory_made(features, now, parent, name, inum, block, attrs);
    let s1 = changed(d, list[0], features.block_size, now);
    let s2 = changed(s1, list[1], features.block_size, now);
    let s3 = changed(s2, list[2], features.block_size, now);
    let s4 = changed(s3, list[3], features.block_size, now);
    lemma_after_steps(d, list, seq![d, s1, s2, s3, s4], features.block_size, now);
    lemma_bits(attrs.mode);
    dir_laws::law_directories_start_with_their_dots(
        features.block_size as nat,
        features.metadata_csum,
        inum,
        parent,
        features.filetype,
    );
    assert(s4.nodes.dom() =~= d.nodes.dom().insert(inum));
    assert(s4.store =~= d.store.insert(block, s4.store[block]));
}

/// A made device node, FIFO or socket has its own type, the permission bits and
/// the owner that were asked for, one link and no block, and a device its
/// numbers, whatever the filesystem maps blocks with. Its name leads to it, and
/// nothing else changes.
pub proof fn law_made_nodes_are_what_was_asked_for(
    d: Disk,
    parent: u32,
    name: Seq<u8>,
    inum: u32,
    special: Special,
    attrs: Attrs,
    block_size: u32,
    now: u32,
)
    ensures
        ({
            let e = after(
                d,
                ops::created(
                    parent,
                    name,
                    inum,
                    Inode::special(special, attrs, now),
                    ops::device_area(special),
                ),
                block_size,
                now,
            );
            let f = e.nodes[inum].inode;
            &&& special is CharDevice ==> f.mode & 0o170000 == 0o020000
            &&& special is BlockDevice ==> f.mode & 0o170000 == 0o060000
            &&& special is Fifo ==> f.mode & 0o170000 == 0o010000
            &&& special is Socket ==> f.mode & 0o170000 == 0o140000
            &&& special matches Special::CharDevice { major, minor } ==> e.nodes[inum].area
                == AreaView::Device(major, minor)
            &&& special matches Special::BlockDevice { major, minor } ==> e.nodes[inum].area
                == AreaView::Device(major, minor)
            &&& special is Fifo || special is Socket ==> e.nodes[inum].area == AreaView::Zeroes
            &&& f.mode & 0o7777 == attrs.mode & 0o7777
            &&& f.uid == attrs.uid
            &&& f.gid == attrs.gid
            &&& f.size == 0
            &&& f.links_count == 1
            &&& f.blocks == 0
            &&& f.flags == 0
            &&& f.generation == 0
            &&& f.atime == now
            &&& f.ctime == now
            &&& f.mtime == now
            &&& f.crtime == now
            &&& f.dtime == 0
            &&& f.file_acl == 0
            &&& e.nodes.dom() == d.nodes.dom().insert(inum)
            &&& forall|i: u32| i != inum ==> #[trigger] e.nodes[i] == d.nodes[i]
            &&& e.names == d.names.insert((parent, name), inum)
            &&& e.parents == d.parents
            &&& e.store == d.store
            &&& e.free == d.free
            &&& e.directories == d.directories
            &&& e.left == d.left
        }),
{
    let list = ops::created(
        parent,
        name,
        inum,
        Inode::special(special, attrs, now),
        ops::device_area(special),
    );
    let s1 = changed(d, list[0], block_size, now);
    let s2 = changed(s1, list[1], block_size, now);
    lemma_after_steps(d, list, seq![d, s1, s2], block_size, now);
    lemma_bits(attrs.mode);
    assert(s2.nodes.dom() =~= d.nodes.dom().insert(inum));
}

/// Whether these are the fields of a new symbolic link to a target of `len`
/// bytes.
pub open spec fn new_link(f: Inode, len: nat, now: u32) -> bool {
    &&& f.mode == 0o120777
    &&& f.uid == 0
    &&& f.gid == 0
    &&& f.size == len
    &&& f.links_count == 1
    &&& f.generation == 0
    &&& f.atime == now
    &&& f.ctime == now
    &&& f.mtime == now
    &&& f.crtime == now
    &&& f.dtime == 0
    &&& f.file_acl == 0
}

/// A symbolic link with a short target keeps the target's bytes in its inode,
/// with zeroes behind them, and takes no block. Its name leads to it, and
/// nothing else changes.
pub proof fn law_short_links_take_no_block(
    d: Disk,
    features: Features,
    parent: u32,
    name: Seq<u8>,
    inum: u32,
    target: Seq<u8>,
    now: u32,
)
    requires
        target.len() < 60,
    ensures
        ({
            let e = after(
                d,
                ops::fast_link_made(features, now, parent, name, inum, target),
                features.block_size,
                now,
            );
            &&& new_link(e.nodes[inum].inode, target.len(), now)
            &&& e.nodes[inum].inode.blocks == 0
            &&& e.nodes[inum].inode.flags == 0
            &&& e.nodes[inum].area matches AreaView::Bytes(b)
            &&& b.len() == 60
            &&& b.take(target.len() as int) == target
            &&& forall|i: int| target.len() <= i < 60 ==> #[trigger] b[i] == 0
            &&& e.nodes.dom() == d.nodes.dom().insert(inum)
            &&& forall|i: u32| i != inum ==> #[trigger] e.nodes[i] == d.nodes[i]
            &&& e.names == d.names.insert((parent, name), inum)
            &&& e.parents == d.parents
            &&& e.store == d.store
            &&& e.free == d.free
            &&& e.directories == d.directories
            &&& e.left == d.left
        }),
{
    let list = ops::fast_link_made(features, now, parent, name, inum, target);
    let s1 = changed(d, list[0], features.block_size, now);
    let s2 = changed(s1, list[1], features.block_size, now);
    lemma_after_steps(d, list, seq![d, s1, s2], features.block_size, now);
    assert(0o120000u16 | 0o777u16 == 0o120777u16) by (bit_vector);
    assert(s2.nodes.dom() =~= d.nodes.dom().insert(inum));
    assert((s2.nodes[inum].area->Bytes_0).take(target.len() as int) =~= target);
}

/// A symbolic link with a long target keeps the target's bytes in its one block,
/// with zeroes behind them: reading the link gives the target. Its name leads to
/// it, and nothing else changes.
pub proof fn law_long_links_take_a_block(
    d: Disk,
    features: Features,
    parent: u32,
    name: Seq<u8>,
    inum: u32,
    target: Seq<u8>,
    block: u64,
    now: u32,
)
    requires
        60 <= target.len() <= features.block_size,
    ensures
        ({
            let e = after(
                d,
                ops::slow_link_made(features, now, parent, name, inum, target, block),
                features.block_size,
                now,
            );
            &&& new_link(e.nodes[inum].inode, target.len(), now)
            &&& e.nodes[inum].inode.blocks == features.block_size / 512
            &&& e.nodes[inum].inode.flags == (if features.extents {
                0x8_0000u32
            } else {
                0
            })
            &&& e.nodes[inum].area == AreaView::Blocks(seq![block])
            &&& e.store == d.store.insert(block, e.store[block])
            &&& e.store[block].len() == features.block_size
            &&& forall|i: int|
                target.len() <= i < features.block_size ==> #[trigger] e.store[block][i] == 0
            &&& read(e, (parent, name)) == Some(target)
            &&& e.nodes.dom() == d.nodes.dom().insert(inum)
            &&& forall|i: u32| i != inum ==> #[trigger] e.nodes[i] == d.nodes[i]
            &&& e.names == d.names.insert((parent, name), inum)
            &&& e.parents == d.parents
            &&& e.free == d.free
            &&& e.directories == d.directories
            &&& e.left == d.left
        }),
{
    let list = ops::slow_link_made(features, now, parent, name, inum, target, block);
    let s1 = changed(d, list[0], features.block_size, now);
    let s2 = changed(s1, list[1], features.block_size, now);
    let s3 = changed(s2, list[2], features.block_size, now);
    lemma_after_steps(d, list, seq![d, s1, s2, s3], features.block_size, now);
    assert(0o120000u16 | 0o777u16 == 0o120777u16) by (bit_vector);
    assert(s3.nodes.dom() =~= d.nodes.dom().insert(inum));
    assert(s3.store =~= d.store.insert(block, s3.store[block]));
    reveal_with_fuel(stored_from, 2);
    assert(stored_from(s3.store, seq![block], 0) =~= s3.store[block]);
    assert(s3.store[block].take(target.len() as int) =~= target);
}

/// A hard link is a second name: the file has one link more, and of it only the
/// time of the last change besides; both names read the same, no block moves,
/// and nothing else changes.
pub proof fn law_hard_links_share_the_file(
    d: Disk,
    old_name: (u32, Seq<u8>),
    parent: u32,
    name: Seq<u8>,
    inum: u32,
    block_size: u32,
    now: u32,
)
    requires
        d.nodes.contains_key(inum),
        d.names.contains_key(old_name),
        d.names[old_name] == inum,
        d.nodes[inum].inode.links_count < u16::MAX,
    ensures
        ({
            let e = after(d, ops::linked(parent, name, inum), block_size, now);
            let was = d.nodes[inum].inode;
            &&& e.nodes.dom() == d.nodes.dom()
            &&& e.nodes[inum].inode == (Inode {
                links_count: (was.links_count + 1) as u16,
                ctime: now,
                ..was
            })
            &&& e.nodes[inum].area == d.nodes[inum].area
            &&& forall|i: u32| i != inum ==> #[trigger] e.nodes[i] == d.nodes[i]
            &&& e.names == d.names.insert((parent, name), inum)
            &&& e.parents == d.parents
            &&& e.store == d.store
            &&& e.free == d.free
            &&& e.directories == d.directories
            &&& e.left == d.left
            &&& read(e, (parent, name)) == read(d, old_name)
            &&& read(e, old_name) == read(d, old_name)
        }),
{
    let list = ops::linked(parent, name, inum);
    let s1 = changed(d, list[0], block_size, now);
    let s2 = changed(s1, list[1], block_size, now);
    lemma_after_steps(d, list, seq![d, s1, s2], block_size, now);
    assert(s2.nodes.dom() =~= d.nodes.dom());
}

/// Changing permission bits, owner or times changes just that, and the time of the
/// last change, of just that inode: its type, its contents and its links stay, and
/// so does everything else.
pub proof fn law_attributes_change_alone(
    d: Disk,
    inum: u32,
    mode: u16,
    uid: u32,
    gid: u32,
    secs: u32,
    block_size: u32,
    now: u32,
)
    requires
        d.nodes.contains_key(inum),
    ensures
        ({
            let e = changed(d, ops::mode_set(inum, mode), block_size, now);
            let r = e.nodes[inum].inode;
            let was = d.nodes[inum].inode;
            &&& r.mode & 0o7777 == mode & 0o7777
            &&& r.mode & 0o170000 == was.mode & 0o170000
            &&& r == (Inode { mode: r.mode, ctime: now, ..was })
            &&& e == (Disk {
                nodes: d.nodes.insert(inum, Held { inode: r, area: d.nodes[inum].area }),
                ..d
            })
        }),
        ({
            let e = changed(d, ops::owner_set(inum, uid, gid), block_size, now);
            let r = e.nodes[inum].inode;
            let was = d.nodes[inum].inode;
            &&& r == (Inode { uid, gid, ctime: now, ..was })
            &&& e == (Disk {
                nodes: d.nodes.insert(inum, Held { inode: r, area: d.nodes[inum].area }),
                ..d
            })
        }),
        ({
            let e = changed(d, ops::times_set(inum, secs), block_size, now);
            let r = e.nodes[inum].inode;
            let was = d.nodes[inum].inode;
            &&& r == (Inode { atime: secs, mtime: secs, ctime: secs, ..was })
            &&& e == (Disk {
                nodes: d.nodes.insert(inum, Held { inode: r, area: d.nodes[inum].area }),
                ..d
            })
        }),
{
    crate::volume::inode::law_chmod_keeps_the_type(d.nodes[inum].inode, mode, now);
}

/// Making a directory and removing it again leaves every inode, name, `..` and
/// count of links as they were, but for the times of its parent.
pub proof fn law_rmdir_undoes_mkdir(
    d: Disk,
    features: Features,
    parent: u32,
    name: Seq<u8>,
    inum: u32,
    block: u64,
    attrs: Attrs,
    now: u32,
)
    requires
        features.valid(),
        d.nodes.contains_key(parent),
        1 <= d.nodes[parent].inode.links_count < u16::MAX,
        !d.nodes.contains_key(inum),
        !d.names.contains_key((parent, name)),
        !d.parents.contains_key(inum),
    ensures
        ({
            let made = after(
                d,
                ops::directory_made(features, now, parent, name, inum, block, attrs),
                features.block_size,
                now,
            );
            let e = after(
                made,
                ops::directory_removed(parent, name, inum),
                features.block_size,
                now,
            );
            &&& e.nodes == d.nodes.insert(
                parent,
                Held {
                    inode: Inode { mtime: now, ctime: now, ..d.nodes[parent].inode },
                    area: d.nodes[parent].area,
                },
            )
            &&& e.names == d.names
            &&& e.parents == d.parents
            &&& e.free == d.free.insert(block)
        }),
{
    let made = after(
        d,
        ops::directory_made(features, now, parent, name, inum, block, attrs),
        features.block_size,
        now,
    );
    law_made_directories_start_with_their_dots(d, features, parent, name, inum, block, attrs, now);
    law_rmdir_frees_only_the_directory(made, parent, name, inum, features.block_size, now);
    let e = after(
        made,
        ops::directory_removed(parent, name, inum),
        features.block_size,
        now,
    );
    let back = d.nodes.insert(
        parent,
        Held {
            inode: Inode { mtime: now, ctime: now, ..d.nodes[parent].inode },
            area: d.nodes[parent].area,
        },
    );
    assert forall|i: u32| e.nodes.contains_key(i) == #[trigger] back.contains_key(i) by {
        assert(made.nodes.contains_key(i) == d.nodes.dom().insert(inum).contains(i));
    }
    assert forall|i: u32| #[trigger] back.contains_key(i) implies e.nodes[i] == back[i] by {
        if i != parent {
            assert(made.nodes[i] == d.nodes[i]);
        }
    }
    assert(e.nodes =~= back);
    assert(e.names =~= d.names);
    assert(e.parents =~= d.parents);
    assert(seq![block].to_set() =~= set![block]) by {
        assert(seq![block][0] == block);
        assert forall|b: u64| seq![block].to_set().contains(b) <==> b == block by {
            if b == block {
                assert(seq![block].contains(b));
            }
        }
    }
    assert(e.free =~= d.free.insert(block));
}

/// Creating a file and removing it again leaves everything as it was, but for what
/// is left of the inode.
pub proof fn law_unlink_undoes_create(
    d: Disk,
    features: Features,
    parent: u32,
    name: Seq<u8>,
    inum: u32,
    attrs: Attrs,
    now: u32,
)
    requires
        !d.nodes.contains_key(inum),
        !d.names.contains_key((parent, name)),
        !d.parents.contains_key(inum),
    ensures
        ({
            let made = after(
                d,
                ops::created(
                    parent,
                    name,
                    inum,
                    Inode::file(attrs, now, features.extents),
                    ops::nothing_mapped(features.extents),
                ),
                features.block_size,
                now,
            );
            let e = after(
                made,
                ops::unlinked(parent, name, inum, made.nodes[inum].inode),
                features.block_size,
                now,
            );
            e == (Disk { left: d.left.insert(inum, e.left[inum]), ..d })
        }),
{
    let made = after(
        d,
        ops::created(
            parent,
            name,
            inum,
            Inode::file(attrs, now, features.extents),
            ops::nothing_mapped(features.extents),
        ),
        features.block_size,
        now,
    );
    law_created_files_start_empty(d, features, parent, name, inum, attrs, now);
    let inode = made.nodes[inum].inode;
    law_unlinking_frees_only_the_file(
        made,
        parent,
        name,
        inum,
        inode,
        features.block_size,
        now,
    );
    let e = after(
        made,
        ops::unlinked(parent, name, inum, inode),
        features.block_size,
        now,
    );
    assert forall|i: u32| e.nodes.contains_key(i) == #[trigger] d.nodes.contains_key(i) by {
        assert(made.nodes.contains_key(i) == d.nodes.dom().insert(inum).contains(i));
    }
    assert forall|i: u32| #[trigger] d.nodes.contains_key(i) implies e.nodes[i] == d.nodes[i] by {
        assert(made.nodes[i] == d.nodes[i]);
    }
    assert(e.nodes =~= d.nodes);
    assert(e.names =~= d.names);
    assert(e.parents =~= d.parents);
    assert(blocks_of(made.nodes[inum]).to_set() =~= Set::<u64>::empty());
    assert(e.free =~= d.free);
    assert(e.store =~= d.store);
    assert(e =~= Disk { left: d.left.insert(inum, e.left[inum]), ..d });
}

} // verus!
