//! What the changes an operation makes come to: the tree of names, and the
//! link counts that have to be in step with it.

use vstd::prelude::*;

use crate::volume::inode::{self, Edit, Inode, ROOT};
use crate::volume::ops::{self, AreaView, ChangeView, Features, Occupant};
use crate::volume::types::Attrs;

verus! {

/// As much of an inode as the tree depends on.
#[verifier::ext_equal]
pub struct Node {
    /// Whether it is a directory.
    pub dir: bool,
    /// Its count of links.
    pub links: int,
}

/// The names of a filesystem and what they lead to.
#[verifier::ext_equal]
pub struct Tree {
    /// The inodes in use.
    pub nodes: Map<u32, Node>,
    /// The names, each in its directory, and the inode each one leads to.
    pub names: Map<(u32, Seq<u8>), u32>,
    /// What `..` names in each directory.
    pub parents: Map<u32, u32>,
}

/// A count of links after an edit.
pub open spec fn links_after(edit: Edit, links: int) -> int {
    match edit {
        Edit::Named => links + 1,
        Edit::ChildAdded => links + 1,
        Edit::ChildMovedIn => links + 1,
        Edit::Unnamed => if links > 0 {
            links - 1
        } else {
            0
        },
        Edit::ChildRemoved => if links > 0 {
            links - 1
        } else {
            0
        },
        Edit::ChildMovedOut => if links > 0 {
            links - 1
        } else {
            0
        },
        Edit::Dead => 0,
        _ => links,
    }
}

/// What of an inode the tree depends on.
pub open spec fn node_of(inode: Inode) -> Node {
    Node { dir: inode.dir(), links: inode.links_count as int }
}

/// A tree with one change made.
pub open spec fn changed(t: Tree, c: ChangeView) -> Tree {
    match c {
        ChangeView::WriteDirectory { inum, parent, .. } => Tree {
            parents: t.parents.insert(inum, parent),
            ..t
        },
        ChangeView::WriteBlock { .. } => t,
        ChangeView::Put { inum, inode, .. } => Tree {
            nodes: t.nodes.insert(inum, node_of(inode)),
            ..t
        },
        ChangeView::Edit { inum, edit } => Tree {
            nodes: t.nodes.insert(
                inum,
                Node { links: links_after(edit, t.nodes[inum].links), ..t.nodes[inum] },
            ),
            ..t
        },
        ChangeView::Enter { dir, name, target } => Tree {
            names: t.names.insert((dir, name), target),
            ..t
        },
        ChangeView::Leave { dir, name } => Tree { names: t.names.remove((dir, name)), ..t },
        ChangeView::Repoint { dir, parent } => Tree { parents: t.parents.insert(dir, parent), ..t },
        ChangeView::Empty { .. } => t,
        ChangeView::DropAttributes { .. } => t,
        ChangeView::Free { inum, .. } => Tree {
            nodes: t.nodes.remove(inum),
            parents: t.parents.remove(inum),
            ..t
        },
    }
}

/// A tree with changes made one after the other.
pub open spec fn after(t: Tree, list: Seq<ChangeView>) -> Tree
    decreases list.len(),
{
    if list.len() == 0 {
        t
    } else {
        changed(after(t, list.drop_last()), list.last())
    }
}

/// The names that lead to an inode.
pub open spec fn names_of(t: Tree, inum: u32) -> Set<(u32, Seq<u8>)> {
    Set::new(|k: (u32, Seq<u8>)| t.names.contains_key(k) && t.names[k] == inum)
}

/// The directories right below a directory, going by their `..`.
pub open spec fn subdirs(t: Tree, inum: u32) -> Set<u32> {
    Set::new(
        |c: u32|
            t.nodes.contains_key(c) && t.nodes[c].dir && c != ROOT && t.parents.contains_key(c)
                && t.parents[c] == inum,
    )
}

/// Whether names, `..` and link counts are in step: every name leads
/// somewhere, a file has as many links as names, a directory has one name —
/// the root none — which stands where its `..` says, and two links besides one
/// for each directory in it.
pub open spec fn in_step(t: Tree) -> bool {
    &&& t.names.dom().finite()
    &&& t.nodes.dom().finite()
    &&& t.nodes.contains_key(ROOT)
    &&& t.nodes[ROOT].dir
    &&& forall|k: (u32, Seq<u8>)| #[trigger]
        t.names.contains_key(k) ==> {
            &&& t.nodes.contains_key(k.0)
            &&& t.nodes[k.0].dir
            &&& t.nodes.contains_key(t.names[k])
            &&& t.names[k] != ROOT
        }
    &&& forall|i: u32| #[trigger]
        t.nodes.contains_key(i) ==> if t.nodes[i].dir {
            &&& t.parents.contains_key(i)
            &&& t.nodes[i].links == 2 + subdirs(t, i).len()
        } else {
            &&& t.nodes[i].links == names_of(t, i).len()
            &&& t.nodes[i].links >= 1
        }
    &&& forall|i: u32| #[trigger]
        t.nodes.contains_key(i) && t.nodes[i].dir && i != ROOT ==> {
            &&& names_of(t, i).len() == 1
            &&& t.nodes.contains_key(t.parents[i])
            &&& t.nodes[t.parents[i]].dir
        }
    &&& forall|k: (u32, Seq<u8>)| #[trigger]
        t.names.contains_key(k) && t.nodes[t.names[k]].dir ==> k.0 == t.parents[t.names[k]]
}

/// What an edit does to an inode's type and links is what it does in the tree.
pub proof fn law_edits_count_links(inode: Inode, edit: Edit, now: u32)
    requires
        edit.gains_link() ==> inode.links_count < u16::MAX,
    ensures
        node_of(inode.with(edit, now)) == (Node {
            links: links_after(edit, node_of(inode).links),
            ..node_of(inode)
        }),
{
    if let Edit::Mode(mode) = edit {
        inode::law_chmod_keeps_the_type(inode, mode, now);
    }
}

proof fn lemma_after_add(t: Tree, a: Seq<ChangeView>, b: Seq<ChangeView>)
    ensures
        after(t, a + b) == after(after(t, a), b),
    decreases b.len(),
{
    if b.len() == 0 {
        assert(a + b =~= a);
    } else {
        assert((a + b).drop_last() =~= a + b.drop_last());
        lemma_after_add(t, a, b.drop_last());
    }
}

proof fn lemma_finite(t: Tree)
    requires
        t.names.dom().finite(),
        t.nodes.dom().finite(),
    ensures
        forall|i: u32| #[trigger] names_of(t, i).finite(),
        forall|i: u32| #[trigger] subdirs(t, i).finite(),
{
    assert forall|i: u32| #[trigger] names_of(t, i).finite() by {
        assert(names_of(t, i).subset_of(t.names.dom()));
        vstd::set_lib::lemma_len_subset(names_of(t, i), t.names.dom());
    }
    assert forall|i: u32| #[trigger] subdirs(t, i).finite() by {
        assert(subdirs(t, i).subset_of(t.nodes.dom()));
        vstd::set_lib::lemma_len_subset(subdirs(t, i), t.nodes.dom());
    }
}

/// A list of changes, written out.
proof fn lemma_after_all(t: Tree, list: Seq<ChangeView>, steps: Seq<Tree>)
    requires
        steps.len() == list.len() + 1,
        steps[0] == t,
        forall|i: int|
            0 <= i < list.len() ==> #[trigger] steps[i + 1] == changed(steps[i], list[i]),
    ensures
        after(t, list) == steps.last(),
    decreases list.len(),
{
    if list.len() > 0 {
        let front = list.drop_last();
        let less = steps.drop_last();
        assert forall|i: int| 0 <= i < front.len() implies #[trigger] less[i + 1] == changed(
            less[i],
            front[i],
        ) by {
            assert(steps[i + 1] == changed(steps[i], list[i]));
        }
        lemma_after_all(t, front, less);
        assert(steps[list.len() - 1 + 1] == changed(steps[list.len() - 1], list[list.len() - 1]));
    }
}

/// A new name is one name more for what it leads to.
proof fn lemma_enter(t: Tree, u: Tree, k: (u32, Seq<u8>), i: u32)
    requires
        t.names.dom().finite(),
        t.nodes.dom().finite(),
        !t.names.contains_key(k),
        u.names == t.names.insert(k, i),
    ensures
        u.names.dom().finite(),
        names_of(u, i).len() == names_of(t, i).len() + 1,
        forall|j: u32| j != i ==> #[trigger] names_of(u, j) == names_of(t, j),
{
    lemma_finite(t);
    assert(names_of(u, i) =~= names_of(t, i).insert(k));
    assert forall|j: u32| j != i implies #[trigger] names_of(u, j) == names_of(t, j) by {
        assert(names_of(u, j) =~= names_of(t, j));
    }
}

/// A name less is one name less for what it led to.
proof fn lemma_leave(t: Tree, u: Tree, k: (u32, Seq<u8>))
    requires
        t.names.dom().finite(),
        t.nodes.dom().finite(),
        t.names.contains_key(k),
        u.names == t.names.remove(k),
    ensures
        u.names.dom().finite(),
        names_of(u, t.names[k]).len() == names_of(t, t.names[k]).len() - 1,
        forall|j: u32| j != t.names[k] ==> #[trigger] names_of(u, j) == names_of(t, j),
{
    lemma_finite(t);
    let i = t.names[k];
    assert(names_of(t, i).contains(k));
    assert(names_of(u, i) =~= names_of(t, i).remove(k));
    assert forall|j: u32| j != i implies #[trigger] names_of(u, j) == names_of(t, j) by {
        assert(names_of(u, j) =~= names_of(t, j));
    }
}

/// Creating a file — or a device node, a FIFO, a socket, a symbolic link —
/// adds one name and keeps everything in step.
pub proof fn law_create_stays_in_step(
    t: Tree,
    parent: u32,
    name: Seq<u8>,
    inum: u32,
    inode: Inode,
    area: AreaView,
)
    requires
        in_step(t),
        t.nodes.contains_key(parent),
        t.nodes[parent].dir,
        !t.names.contains_key((parent, name)),
        !t.nodes.contains_key(inum),
        !inode.dir(),
        inode.links_count == 1,
    ensures
        ({
            let u = after(t, ops::created(parent, name, inum, inode, area));
            &&& in_step(u)
            &&& u.names == t.names.insert((parent, name), inum)
            &&& u.nodes == t.nodes.insert(inum, Node { dir: false, links: 1 })
        }),
{
    let put = ChangeView::Put { inum, inode, area };
    let enter = ChangeView::Enter { dir: parent, name, target: inum };
    let u = after(t, ops::created(parent, name, inum, inode, area));
    let t1 = changed(t, put);
    lemma_after_all(
        t,
        ops::created(parent, name, inum, inode, area),
        seq![t, t1, changed(t1, enter)],
    );
    lemma_enter(t, u, (parent, name), inum);
    assert(names_of(t, inum) =~= Set::empty());
    assert forall|i: u32| #[trigger] subdirs(u, i) == subdirs(t, i) by {
        assert(subdirs(u, i) =~= subdirs(t, i));
    }
    assert forall|k: (u32, Seq<u8>)| #[trigger] u.names.contains_key(k) && u.nodes[u.names[k]].dir
        implies k.0 == u.parents[u.names[k]] by {
        assert(t.names.contains_key(k));
    }
    assert forall|i: u32| #[trigger] u.nodes.contains_key(i) implies if u.nodes[i].dir {
        &&& u.parents.contains_key(i)
        &&& u.nodes[i].links == 2 + subdirs(u, i).len()
    } else {
        &&& u.nodes[i].links == names_of(u, i).len()
        &&& u.nodes[i].links >= 1
    } by {
        if i != inum {
            assert(t.nodes.contains_key(i));
            assert(names_of(u, i) == names_of(t, i));
            assert(subdirs(u, i) == subdirs(t, i));
        }
    }
    assert forall|i: u32| #[trigger] u.nodes.contains_key(i) && u.nodes[i].dir && i != ROOT implies {
        &&& names_of(u, i).len() == 1
        &&& u.nodes.contains_key(u.parents[i])
        &&& u.nodes[u.parents[i]].dir
    } by {
        assert(t.nodes.contains_key(i));
        assert(names_of(u, i) == names_of(t, i));
        assert(t.nodes.contains_key(t.parents[i]));
    }
}

/// Making a hard link adds one name and keeps everything in step.
pub proof fn law_link_stays_in_step(t: Tree, parent: u32, name: Seq<u8>, inum: u32)
    requires
        in_step(t),
        t.nodes.contains_key(parent),
        t.nodes[parent].dir,
        !t.names.contains_key((parent, name)),
        t.nodes.contains_key(inum),
        !t.nodes[inum].dir,
    ensures
        ({
            let u = after(t, ops::linked(parent, name, inum));
            &&& in_step(u)
            &&& u.names == t.names.insert((parent, name), inum)
        }),
{
    let enter = ChangeView::Enter { dir: parent, name, target: inum };
    let edit = ChangeView::Edit { inum, edit: Edit::Named };
    let u = after(t, ops::linked(parent, name, inum));
    let t1 = changed(t, enter);
    lemma_after_all(t, ops::linked(parent, name, inum), seq![t, t1, changed(t1, edit)]);
    lemma_enter(t, u, (parent, name), inum);
    assert forall|i: u32| #[trigger] subdirs(u, i) == subdirs(t, i) by {
        assert(subdirs(u, i) =~= subdirs(t, i));
    }
    assert forall|k: (u32, Seq<u8>)| #[trigger] u.names.contains_key(k) && u.nodes[u.names[k]].dir
        implies k.0 == u.parents[u.names[k]] by {
        assert(t.names.contains_key(k));
    }
    assert forall|i: u32| #[trigger] u.nodes.contains_key(i) implies if u.nodes[i].dir {
        &&& u.parents.contains_key(i)
        &&& u.nodes[i].links == 2 + subdirs(u, i).len()
    } else {
        &&& u.nodes[i].links == names_of(u, i).len()
        &&& u.nodes[i].links >= 1
    } by {
        assert(t.nodes.contains_key(i));
        if i != inum {
            assert(names_of(u, i) == names_of(t, i));
        }
        assert(subdirs(u, i) == subdirs(t, i));
    }
    assert forall|i: u32| #[trigger] u.nodes.contains_key(i) && u.nodes[i].dir && i != ROOT implies {
        &&& names_of(u, i).len() == 1
        &&& u.nodes.contains_key(u.parents[i])
        &&& u.nodes[u.parents[i]].dir
    } by {
        assert(t.nodes.contains_key(i));
        assert(names_of(u, i) == names_of(t, i));
        assert(t.nodes.contains_key(t.parents[i]));
    }
}

/// Removing a file takes one name away and keeps everything in step; the inode
/// goes with its last name, and only then.
pub proof fn law_unlink_stays_in_step(
    t: Tree,
    parent: u32,
    name: Seq<u8>,
    inum: u32,
    inode: Inode,
)
    requires
        in_step(t),
        t.names.contains_key((parent, name)),
        t.names[(parent, name)] == inum,
        t.nodes[inum] == node_of(inode),
        !inode.dir(),
    ensures
        ({
            let u = after(t, ops::unlinked(parent, name, inum, inode));
            &&& in_step(u)
            &&& u.names == t.names.remove((parent, name))
            &&& u.nodes.contains_key(inum) == (inode.links_count > 1)
            &&& u.parents == t.parents || u.parents == t.parents.remove(inum)
            &&& forall|i: u32|
                i != inum ==> #[trigger] u.nodes.contains_key(i) == t.nodes.contains_key(i)
                    && u.nodes[i] == t.nodes[i]
        }),
{
    let leave = ChangeView::Leave { dir: parent, name };
    let u = after(t, ops::unlinked(parent, name, inum, inode));
    assert(t.nodes.contains_key(inum));
    let t1 = changed(t, leave);
    if inode.links_count <= 1 {
        let c = ChangeView::Edit { inum, edit: Edit::Dead };
        let d = ChangeView::Free { inum, was_dir: false };
        let t2 = changed(t1, c);
        lemma_after_all(
            t,
            ops::unlinked(parent, name, inum, inode),
            seq![t, t1, t1, t1, t2, changed(t2, d)],
        );
        assert(u.nodes =~= t.nodes.remove(inum));
        assert(u.parents == t.parents.remove(inum));
    } else {
        let c = ChangeView::Edit { inum, edit: Edit::Unnamed };
        lemma_after_all(
            t,
            ops::unlinked(parent, name, inum, inode),
            seq![t, t1, changed(t1, c)],
        );
        assert(u.parents == t.parents);
    }
    assert(u.names == t.names.remove((parent, name)));
    lemma_leave(t, u, (parent, name));
    assert forall|i: u32| i != inum implies #[trigger] u.nodes.contains_key(i)
        == t.nodes.contains_key(i) && u.nodes[i] == t.nodes[i] by {}
    assert(u.nodes.contains_key(inum) ==> u.nodes[inum] == (Node {
        dir: false,
        links: t.nodes[inum].links - 1,
    }));
    assert forall|i: u32| #[trigger] subdirs(u, i) == subdirs(t, i) by {
        assert forall|c: u32| subdirs(u, i).contains(c) == subdirs(t, i).contains(c) by {
            assert(u.nodes.contains_key(c) ==> t.nodes.contains_key(c));
        }
        assert(subdirs(u, i) =~= subdirs(t, i));
    }
    assert forall|k: (u32, Seq<u8>)| #[trigger] u.names.contains_key(k) implies {
        &&& u.nodes.contains_key(k.0)
        &&& u.nodes[k.0].dir
        &&& u.nodes.contains_key(u.names[k])
        &&& u.names[k] != ROOT
    } by {
        assert(t.names.contains_key(k));
        assert(u.nodes.contains_key(k.0) == t.nodes.contains_key(k.0));
        if u.names[k] == inum {
            assert(names_of(t, inum).contains(k) && names_of(t, inum).contains((parent, name)));
            lemma_two(t, inum, k, (parent, name));
        } else {
            assert(u.nodes.contains_key(u.names[k]) == t.nodes.contains_key(u.names[k]));
        }
    }
    assert forall|k: (u32, Seq<u8>)| #[trigger] u.names.contains_key(k) && u.nodes[u.names[k]].dir
        implies k.0 == u.parents[u.names[k]] by {
        assert(t.names.contains_key(k));
        assert(u.nodes.contains_key(u.names[k]));
        if u.names[k] != inum {
            assert(u.nodes[u.names[k]] == t.nodes[u.names[k]]);
        }
    }
    assert forall|i: u32| #[trigger] u.nodes.contains_key(i) implies if u.nodes[i].dir {
        &&& u.parents.contains_key(i)
        &&& u.nodes[i].links == 2 + subdirs(u, i).len()
    } else {
        &&& u.nodes[i].links == names_of(u, i).len()
        &&& u.nodes[i].links >= 1
    } by {
        assert(t.nodes.contains_key(i));
        assert(subdirs(u, i) == subdirs(t, i));
        if i != inum {
            assert(u.nodes[i] == t.nodes[i]);
            assert(names_of(u, i) == names_of(t, i));
        }
    }
    assert forall|i: u32| #[trigger] u.nodes.contains_key(i) && u.nodes[i].dir && i != ROOT implies {
        &&& names_of(u, i).len() == 1
        &&& u.nodes.contains_key(u.parents[i])
        &&& u.nodes[u.parents[i]].dir
    } by {
        assert(t.nodes.contains_key(i));
        assert(i != inum && u.nodes[i] == t.nodes[i]);
        assert(names_of(u, i) == names_of(t, i));
        let p = t.parents[i];
        assert(t.nodes.contains_key(p) && t.nodes[p].dir);
        assert(u.nodes.contains_key(p) == t.nodes.contains_key(p) && u.nodes[p] == t.nodes[p]);
    }
}

/// An inode with two names has more than one.
proof fn lemma_two(t: Tree, inum: u32, a: (u32, Seq<u8>), b: (u32, Seq<u8>))
    requires
        t.names.dom().finite(),
        t.nodes.dom().finite(),
        names_of(t, inum).contains(a),
        names_of(t, inum).contains(b),
        a != b,
    ensures
        names_of(t, inum).len() >= 2,
{
    lemma_finite(t);
    assert(names_of(t, inum).remove(a).contains(b));
    assert(names_of(t, inum).remove(a).remove(b).len() >= 0);
}

/// Making a directory adds one name, one directory below its parent, and
/// keeps everything in step.
pub proof fn law_mkdir_stays_in_step(
    t: Tree,
    features: Features,
    now: u32,
    parent: u32,
    name: Seq<u8>,
    inum: u32,
    block: u64,
    attrs: Attrs,
)
    requires
        in_step(t),
        t.nodes.contains_key(parent),
        t.nodes[parent].dir,
        !t.names.contains_key((parent, name)),
        !t.nodes.contains_key(inum),
    ensures
        ({
            let u = after(
                t,
                ops::directory_made(features, now, parent, name, inum, block, attrs),
            );
            &&& in_step(u)
            &&& u.names == t.names.insert((parent, name), inum)
            &&& u.parents == t.parents.insert(inum, parent)
            &&& u.nodes.contains_key(inum)
            &&& u.nodes[inum] == (Node { dir: true, links: 2 })
        }),
{
    let list = ops::directory_made(features, now, parent, name, inum, block, attrs);
    let u = after(t, list);
    let t1 = changed(t, list[0]);
    let t2 = changed(t1, list[1]);
    let t3 = changed(t2, list[2]);
    lemma_after_all(t, list, seq![t, t1, t2, t3, changed(t3, list[3])]);
    let made = Inode::directory(attrs, now, features.extents, features.block_size);
    inode::law_new_inodes_have_their_type(
        attrs,
        crate::volume::types::Special::Fifo,
        now,
        features.extents,
        features.block_size,
    );
    assert(inum != parent);
    assert(u.nodes =~= t.nodes.insert(inum, Node { dir: true, links: 2 }).insert(
        parent,
        Node { dir: true, links: t.nodes[parent].links + 1 },
    ));
    lemma_enter(t, u, (parent, name), inum);
    lemma_finite(t);
    assert(names_of(t, inum) =~= Set::empty());
    // What is below the parent, and below every other directory.
    assert(subdirs(u, parent) =~= subdirs(t, parent).insert(inum));
    assert(!subdirs(t, parent).contains(inum));
    assert(subdirs(t, inum) =~= Set::empty()) by {
        assert forall|c: u32| !subdirs(t, inum).contains(c) by {
            if subdirs(t, inum).contains(c) {
                assert(t.nodes.contains_key(c) && t.nodes[c].dir && c != ROOT);
                assert(t.nodes.contains_key(t.parents[c]));
            }
        }
    }
    assert forall|i: u32| i != parent implies #[trigger] subdirs(u, i) == subdirs(t, i) by {
        assert(subdirs(u, i) =~= subdirs(t, i));
    }
    assert forall|i: u32| i != inum implies #[trigger] names_of(u, i) == names_of(t, i) by {}
    assert forall|k: (u32, Seq<u8>)| #[trigger] u.names.contains_key(k) && u.nodes[u.names[k]].dir
        implies k.0 == u.parents[u.names[k]] by {
        if k != (parent, name) {
            assert(t.names.contains_key(k));
            assert(u.names[k] == t.names[k]);
            assert(t.nodes.contains_key(t.names[k]));
        }
    }
    assert forall|i: u32| #[trigger] u.nodes.contains_key(i) implies if u.nodes[i].dir {
        &&& u.parents.contains_key(i)
        &&& u.nodes[i].links == 2 + subdirs(u, i).len()
    } else {
        &&& u.nodes[i].links == names_of(u, i).len()
        &&& u.nodes[i].links >= 1
    } by {
        if i != inum {
            assert(t.nodes.contains_key(i));
            if i != parent {
                assert(subdirs(u, i) == subdirs(t, i));
            }
            assert(names_of(u, i) == names_of(t, i));
        } else {
            assert(subdirs(u, i) == subdirs(t, i));
        }
    }
    assert forall|i: u32| #[trigger] u.nodes.contains_key(i) && u.nodes[i].dir && i != ROOT implies {
        &&& names_of(u, i).len() == 1
        &&& u.nodes.contains_key(u.parents[i])
        &&& u.nodes[u.parents[i]].dir
    } by {
        if i != inum {
            assert(t.nodes.contains_key(i));
            assert(names_of(u, i) == names_of(t, i));
            let p = t.parents[i];
            assert(t.nodes.contains_key(p) && t.nodes[p].dir);
            assert(u.nodes.contains_key(p));
        }
    }
}

/// Whether no name stands in a directory.
pub open spec fn is_empty(t: Tree, inum: u32) -> bool {
    forall|k: (u32, Seq<u8>)| #[trigger] t.names.contains_key(k) ==> k.0 != inum
}

/// Removing an empty directory takes its name and its inode away, and keeps
/// everything in step.
pub proof fn law_rmdir_stays_in_step(t: Tree, parent: u32, name: Seq<u8>, inum: u32)
    requires
        in_step(t),
        t.names.contains_key((parent, name)),
        t.names[(parent, name)] == inum,
        t.nodes[inum].dir,
        is_empty(t, inum),
    ensures
        ({
            let u = after(t, ops::directory_removed(parent, name, inum));
            &&& in_step(u)
            &&& u.names == t.names.remove((parent, name))
            &&& u.parents == t.parents.remove(inum)
            &&& !u.nodes.contains_key(inum)
            &&& forall|i: u32|
                i != inum ==> #[trigger] u.nodes.contains_key(i) == t.nodes.contains_key(i)
                    && u.nodes[i].dir == t.nodes[i].dir && (i != parent ==> u.nodes[i]
                    == t.nodes[i])
        }),
{
    let list = ops::directory_removed(parent, name, inum);
    let u = after(t, list);
    let t1 = changed(t, list[0]);
    let t2 = changed(t1, list[3]);
    let t3 = changed(t2, list[4]);
    lemma_after_all(t, list, seq![t, t1, t1, t1, t2, t3, changed(t3, list[5])]);
    assert(t.nodes.contains_key(inum));
    assert(t.nodes.contains_key(parent));
    assert(parent != inum);
    lemma_leave(t, u, (parent, name));
    lemma_finite(t);
    assert(parent == t.parents[inum]);
    assert(subdirs(t, parent).contains(inum));
    assert(subdirs(t, parent).len() >= 1) by {
        assert(subdirs(t, parent).remove(inum).len() >= 0);
    }
    assert(u.nodes =~= t.nodes.remove(inum).insert(
        parent,
        Node { dir: true, links: t.nodes[parent].links - 1 },
    ));
    assert(names_of(u, inum).len() == 0);
    assert(subdirs(u, parent) =~= subdirs(t, parent).remove(inum));
    assert forall|i: u32| i != parent implies #[trigger] subdirs(u, i) == subdirs(t, i) by {
        assert forall|c: u32| subdirs(u, i).contains(c) == subdirs(t, i).contains(c) by {}
        assert(subdirs(u, i) =~= subdirs(t, i));
    }
    assert forall|i: u32| i != inum implies #[trigger] names_of(u, i) == names_of(t, i) by {}
    assert forall|i: u32| i != inum implies #[trigger] u.nodes.contains_key(i)
        == t.nodes.contains_key(i) && u.nodes[i].dir == t.nodes[i].dir && (i != parent
        ==> u.nodes[i] == t.nodes[i]) by {}
    assert forall|k: (u32, Seq<u8>)| #[trigger] u.names.contains_key(k) implies {
        &&& u.nodes.contains_key(k.0)
        &&& u.nodes[k.0].dir
        &&& u.nodes.contains_key(u.names[k])
        &&& u.names[k] != ROOT
        &&& u.names[k] != inum
    } by {
        assert(t.names.contains_key(k));
        assert(u.nodes.contains_key(k.0) == t.nodes.contains_key(k.0));
        if u.names[k] == inum {
            lemma_finite(u);
            assert(names_of(u, inum).contains(k));
            assert(names_of(u, inum).remove(k).len() >= 0);
        }
        assert(u.nodes.contains_key(u.names[k]) == t.nodes.contains_key(u.names[k]));
    }
    assert forall|k: (u32, Seq<u8>)| #[trigger] u.names.contains_key(k) && u.nodes[u.names[k]].dir
        implies k.0 == u.parents[u.names[k]] by {
        assert(t.names.contains_key(k));
        assert(u.nodes.contains_key(u.names[k]));
        assert(t.nodes[u.names[k]].dir);
    }
    assert forall|i: u32| #[trigger] u.nodes.contains_key(i) implies if u.nodes[i].dir {
        &&& u.parents.contains_key(i)
        &&& u.nodes[i].links == 2 + subdirs(u, i).len()
    } else {
        &&& u.nodes[i].links == names_of(u, i).len()
        &&& u.nodes[i].links >= 1
    } by {
        assert(t.nodes.contains_key(i));
        assert(i != inum);
        if i != parent {
            assert(subdirs(u, i) == subdirs(t, i));
        }
        assert(names_of(u, i) == names_of(t, i));
    }
    assert forall|i: u32| #[trigger] u.nodes.contains_key(i) && u.nodes[i].dir && i != ROOT implies {
        &&& names_of(u, i).len() == 1
        &&& u.nodes.contains_key(u.parents[i])
        &&& u.nodes[u.parents[i]].dir
    } by {
        assert(t.nodes.contains_key(i));
        assert(names_of(u, i) == names_of(t, i));
        let p = t.parents[i];
        assert(t.nodes.contains_key(p) && t.nodes[p].dir);
        if p == inum {
            // It has a name, which would stand in the empty directory.
            lemma_one(t, i);
            let k = choose|k: (u32, Seq<u8>)| names_of(t, i).contains(k);
            assert(t.names.contains_key(k));
            assert(false);
        }
        assert(u.nodes.contains_key(p) == t.nodes.contains_key(p));
    }
}

/// An inode whose names are counted has one.
proof fn lemma_one(t: Tree, inum: u32)
    requires
        t.names.dom().finite(),
        t.nodes.dom().finite(),
        names_of(t, inum).len() >= 1,
    ensures
        exists|k: (u32, Seq<u8>)| names_of(t, inum).contains(k),
{
    lemma_finite(t);
    if forall|k: (u32, Seq<u8>)| !names_of(t, inum).contains(k) {
        assert(names_of(t, inum) =~= Set::empty());
    }
}

/// Moving a file or a directory to a place where nothing stands keeps
/// everything in step, and what moved is found there and nowhere else.
pub proof fn law_move_stays_in_step(
    t: Tree,
    from: (u32, Seq<u8>),
    to: (u32, Seq<u8>),
    inum: u32,
)
    requires
        in_step(t),
        t.names.contains_key(from),
        t.names[from] == inum,
        !t.names.contains_key(to),
        t.nodes.contains_key(to.0),
        t.nodes[to.0].dir,
    ensures
        ({
            let u = after(t, ops::moved(from, to, inum, t.nodes[inum].dir));
            &&& in_step(u)
            &&& u.names == t.names.insert(to, inum).remove(from)
            &&& u.parents == (if t.nodes[inum].dir {
                t.parents.insert(inum, to.0)
            } else {
                t.parents
            })
        }),
{
    let is_dir = t.nodes[inum].dir;
    let list = ops::moved(from, to, inum, is_dir);
    let u = after(t, list);
    assert(t.nodes.contains_key(inum) && inum != ROOT);
    assert(t.nodes.contains_key(from.0) && t.nodes[from.0].dir);
    assert(from != to);
    let t1 = changed(t, list[0]);
    let t2 = changed(t1, list[1]);
    let across = is_dir && from.0 != to.0;
    if across {
        let t3 = changed(t2, list[2]);
        let t4 = changed(t3, list[3]);
        let t5 = changed(t4, list[4]);
        lemma_after_all(t, list, seq![t, t1, t2, t3, t4, t5, changed(t5, list[5])]);
    } else {
        lemma_after_all(t, list, seq![t, t1, t2, changed(t2, list[2])]);
    }
    lemma_enter(t, t1, to, inum);
    lemma_leave(t1, t2, from);
    assert(u.names == t.names.insert(to, inum).remove(from));
    assert forall|i: u32| #[trigger] names_of(u, i).len() == names_of(t, i).len() by {
        assert(names_of(u, i) =~= names_of(t2, i));
        if i != inum {
            assert(names_of(t1, i) == names_of(t, i));
            assert(names_of(t2, i) == names_of(t1, i));
        }
    }
    lemma_finite(t);
    if is_dir {
        assert(t.parents[inum] == from.0);
        assert(t.nodes.contains_key(inum) && t.nodes[inum].dir);
        assert(t.parents.contains_key(inum));
    }
    assert(is_dir && !across ==> t.parents =~= t.parents.insert(inum, to.0));
    lemma_moved_subdirs(t, u, from.0, to.0, inum, across);
    assert forall|i: u32| #[trigger] u.nodes.contains_key(i) == t.nodes.contains_key(i)
        && u.nodes[i].dir == t.nodes[i].dir by {}
    assert forall|k: (u32, Seq<u8>)| #[trigger] u.names.contains_key(k) implies {
        &&& u.nodes.contains_key(k.0)
        &&& u.nodes[k.0].dir
        &&& u.nodes.contains_key(u.names[k])
        &&& u.names[k] != ROOT
    } by {
        if k != to {
            assert(t.names.contains_key(k));
        }
        assert(u.nodes.contains_key(k.0) == t.nodes.contains_key(k.0));
        assert(u.nodes.contains_key(u.names[k]) == t.nodes.contains_key(u.names[k]));
    }
    assert forall|k: (u32, Seq<u8>)| #[trigger] u.names.contains_key(k) && u.nodes[u.names[k]].dir
        implies k.0 == u.parents[u.names[k]] by {
        assert(u.nodes.contains_key(u.names[k]));
        if k != to {
            assert(t.names.contains_key(k));
            if u.names[k] == inum {
                // A directory has one name, and that was the other one.
                lemma_two(t, inum, k, from);
                assert(false);
            }
            assert(u.parents[u.names[k]] == t.parents[t.names[k]]);
        }
    }
    assert forall|i: u32| #[trigger] u.nodes.contains_key(i) implies if u.nodes[i].dir {
        &&& u.parents.contains_key(i)
        &&& u.nodes[i].links == 2 + subdirs(u, i).len()
    } else {
        &&& u.nodes[i].links == names_of(u, i).len()
        &&& u.nodes[i].links >= 1
    } by {
        assert(t.nodes.contains_key(i));
        assert(names_of(u, i).len() == names_of(t, i).len());
        assert(subdirs(u, i).len() >= 0);
    }
    assert forall|i: u32| #[trigger] u.nodes.contains_key(i) && u.nodes[i].dir && i != ROOT implies {
        &&& names_of(u, i).len() == 1
        &&& u.nodes.contains_key(u.parents[i])
        &&& u.nodes[u.parents[i]].dir
    } by {
        assert(t.nodes.contains_key(i));
        assert(names_of(u, i).len() == names_of(t, i).len());
        let p = u.parents[i];
        assert(t.nodes.contains_key(t.parents[i]));
        assert(u.nodes.contains_key(p) == t.nodes.contains_key(p));
    }
}

/// Below the directory it left there is one directory less, below the one it
/// came to one more, and the counts of links say so.
proof fn lemma_moved_subdirs(t: Tree, u: Tree, from: u32, to: u32, inum: u32, across: bool)
    requires
        in_step(t),
        t.nodes.contains_key(inum),
        inum != ROOT,
        t.nodes.contains_key(from),
        t.nodes.contains_key(to),
        across ==> t.nodes[inum].dir && from != to && t.parents.contains_key(inum)
            && t.parents[inum] == from && t.nodes[from].dir && t.nodes[to].dir,
        u.parents == (if across {
            t.parents.insert(inum, to)
        } else {
            t.parents
        }),
        u.nodes.dom() =~= t.nodes.dom(),
        forall|i: u32|
            t.nodes.contains_key(i) ==> (#[trigger] u.nodes[i]).dir == t.nodes[i].dir
                && u.nodes[i].links == t.nodes[i].links + (if across && i == to {
                1int
            } else if across && i == from {
                if t.nodes[i].links > 0 {
                    -1int
                } else {
                    0
                }
            } else {
                0
            }),
    ensures
        forall|i: u32|
            t.nodes.contains_key(i) && t.nodes[i].dir ==> #[trigger] subdirs(u, i).len()
                == u.nodes[i].links - 2,
{
    lemma_finite(t);
    assert forall|i: u32| t.nodes.contains_key(i) && t.nodes[i].dir implies #[trigger] subdirs(
        u,
        i,
    ).len() == u.nodes[i].links - 2 by {
        assert(u.nodes[i].dir == t.nodes[i].dir);
        assert forall|c: u32| u.nodes.contains_key(c) == t.nodes.contains_key(c) by {
            assert(u.nodes.dom().contains(c) == t.nodes.dom().contains(c));
        }
        if across && i == to {
            assert(!subdirs(t, i).contains(inum));
            assert(subdirs(u, i) =~= subdirs(t, i).insert(inum));
        } else if across && i == from {
            assert(subdirs(t, i).contains(inum));
            assert(subdirs(u, i) =~= subdirs(t, i).remove(inum));
        } else {
            assert(subdirs(u, i) =~= subdirs(t, i));
        }
    }
}

/// Renaming keeps everything in step: what stood at the place it goes to is
/// gone, what moved is found there, and its old name is gone.
pub proof fn law_rename_stays_in_step(
    t: Tree,
    from: (u32, Seq<u8>),
    to: (u32, Seq<u8>),
    inum: u32,
    moving: Inode,
    there: Option<Occupant>,
)
    requires
        in_step(t),
        t.names.contains_key(from),
        t.names[from] == inum,
        t.nodes[inum] == node_of(moving),
        t.nodes.contains_key(to.0),
        t.nodes[to.0].dir,
        match there {
            None => !t.names.contains_key(to),
            Some(o) => {
                &&& t.names.contains_key(to)
                &&& t.names[to] == o.inum
                &&& t.nodes[o.inum] == node_of(o.inode)
                &&& o.inode.dir() ==> is_empty(t, o.inum)
            },
        },
    ensures
        ({
            let u = after(t, ops::renamed(from, to, inum, moving, there));
            &&& in_step(u)
            &&& u.names == (if there is Some && there->0.inum == inum {
                t.names
            } else {
                t.names.insert(to, inum).remove(from)
            })
        }),
{
    match there {
        None => {
            law_move_stays_in_step(t, from, to, inum);
        },
        Some(o) => {
            if o.inum != inum {
                let first = ops::cleared(to, o);
                let rest = ops::moved(from, to, inum, moving.dir());
                let m = after(t, first);
                lemma_after_add(t, first, rest);
                if o.inode.dir() {
                    law_rmdir_stays_in_step(t, to.0, to.1, o.inum);
                } else {
                    law_unlink_stays_in_step(t, to.0, to.1, o.inum, o.inode);
                }
                assert(m.names == t.names.remove(to));
                assert(from != to);
                assert(m.nodes.contains_key(to.0) == t.nodes.contains_key(to.0)) by {
                    if to.0 == o.inum {
                        assert(t.names.contains_key(to));
                    }
                }
                assert(m.nodes.contains_key(inum) == t.nodes.contains_key(inum));
                law_move_stays_in_step(m, from, to, inum);
                assert(m.names.insert(to, inum) =~= t.names.insert(to, inum));
            }
        },
    }
}

/// Whether climbing from a directory comes to the root within `n` steps.
pub open spec fn reaches_root(parents: Map<u32, u32>, at: u32, n: nat) -> bool
    decreases n,
{
    at == ROOT || (n > 0 && parents.contains_key(at) && reaches_root(
        parents,
        parents[at],
        (n - 1) as nat,
    ))
}

proof fn lemma_reaches_further(parents: Map<u32, u32>, at: u32, n: nat, m: nat)
    requires
        reaches_root(parents, at, n),
        n <= m,
    ensures
        reaches_root(parents, at, m),
    decreases n,
{
    if at != ROOT {
        lemma_reaches_further(parents, parents[at], (n - 1) as nat, (m - 1) as nat);
    }
}

proof fn lemma_no_loop(parents: Map<u32, u32>, at: u32, n: nat)
    requires
        reaches_root(parents, at, n),
        at != ROOT,
    ensures
        parents[at] != at,
    decreases n,
{
    if parents[at] == at {
        lemma_no_loop(parents, at, (n - 1) as nat);
    }
}

/// A climb that does not come by a directory does not depend on its `..`.
proof fn lemma_other_way(parents: Map<u32, u32>, inum: u32, to: u32, at: u32, n: nat, left: nat)
    requires
        reaches_root(parents, at, n),
        n < left,
        !ops::is_above(parents, inum, at, left),
    ensures
        reaches_root(parents.insert(inum, to), at, n),
    decreases n,
{
    if at != ROOT {
        lemma_no_loop(parents, at, n);
        lemma_other_way(parents, inum, to, parents[at], (n - 1) as nat, (left - 1) as nat);
    }
}

/// Moving a directory leaves no directory cut off from the root: a directory
/// is not moved inside itself, so from wherever a climb came to the root
/// before, it still does.
pub proof fn law_move_cuts_nothing_off(
    parents: Map<u32, u32>,
    inum: u32,
    to: u32,
    at: u32,
    n: nat,
    m: nat,
)
    requires
        inum != ROOT,
        reaches_root(parents, to, n),
        n < ops::CLIMB_MAX,
        !ops::is_above(parents, inum, to, ops::CLIMB_MAX as nat),
        reaches_root(parents, at, m),
    ensures
        reaches_root(parents.insert(inum, to), at, m + n + 1),
    decreases m,
{
    let after = parents.insert(inum, to);
    lemma_other_way(parents, inum, to, to, n, ops::CLIMB_MAX as nat);
    if at == inum {
        lemma_reaches_further(after, to, n, m + n);
    } else if at != ROOT {
        law_move_cuts_nothing_off(parents, inum, to, parents[at], n, (m - 1) as nat);
    }
}

} // verus!
