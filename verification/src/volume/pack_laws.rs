//! What reading a tree out promises, and what comes of laying it down again.

use vstd::prelude::*;

use crate::bytes;
use crate::dir;
use crate::tar::header::{EntryKind, HeaderView};
use crate::tar::laws as tar_laws;
use crate::text;
use crate::volume::pack::{self, Wants};
use crate::volume::paths;
use crate::volume::types::{Attrs, PackReport, Special, Stat};
use crate::volume::unpack::{self, JobView};

verus! {

/// Whether no two entries have the same name.
pub open spec fn distinct_names(entries: Seq<(Seq<char>, u32, bool)>) -> bool {
    forall|i: int, j: int|
        #![trigger entries[i], entries[j]]
        0 <= i < j < entries.len() ==> entries[i].0 != entries[j].0
}

/// Whether two listings hold the same entries.
pub open spec fn same_listing(
    a: Seq<(Seq<char>, u32, bool)>,
    b: Seq<(Seq<char>, u32, bool)>,
) -> bool {
    forall|x: (Seq<char>, u32, bool)| a.contains(x) <==> b.contains(x)
}

proof fn lemma_all_reordered(
    entries: Seq<(Seq<char>, u32, bool)>,
    out: Seq<(Seq<char>, u32, bool)>,
    from: Seq<int>,
)
    requires
        pack::reordered(entries, out, from),
    ensures
        same_listing(entries, out),
        distinct_names(entries) ==> distinct_names(out),
{
    let n = entries.len() as int;
    let range = vstd::set_lib::set_int_range(0, n);
    vstd::set_lib::lemma_int_range(0, n);
    from.unique_seq_to_set();
    assert(from.to_set().subset_of(range));
    vstd::set_lib::lemma_subset_equality(from.to_set(), range);
    assert forall|x: (Seq<char>, u32, bool)| entries.contains(x) <==> out.contains(x) by {
        if entries.contains(x) {
            let k = choose|k: int| 0 <= k < n && entries[k] == x;
            assert(range.contains(k));
            assert(from.to_set().contains(k));
            let i = choose|i: int| 0 <= i < from.len() && from[i] == k;
            assert(out[i] == x);
        }
        if out.contains(x) {
            let i = choose|i: int| 0 <= i < out.len() && out[i] == x;
            assert(entries[from[i]] == x);
        }
    }
    if distinct_names(entries) {
        assert forall|i: int, j: int| 0 <= i < j < out.len() implies (#[trigger] out[i]).0 != (
        #[trigger] out[j]).0 by {
            let a = from[i];
            let b = from[j];
            assert(a != b);
            if a < b {
                assert(entries[a].0 != entries[b].0);
            } else {
                assert(entries[b].0 != entries[a].0);
            }
        }
    }
}

/// Entries each of which stands behind the next in name.
spec fn descending(s: Seq<(Seq<char>, u32, bool)>) -> bool {
    forall|i: int, j: int|
        #![trigger s[i], s[j]]
        0 <= i < j < s.len() ==> bytes::sorts_before(text::utf8(s[j].0), text::utf8(s[i].0))
}

proof fn lemma_one_order(a: Seq<(Seq<char>, u32, bool)>, b: Seq<(Seq<char>, u32, bool)>)
    requires
        descending(a),
        descending(b),
        same_listing(a, b),
    ensures
        a == b,
    decreases a.len(),
{
    if a.len() == 0 {
        if b.len() > 0 {
            assert(b.contains(b[0]));
        }
        assert(a =~= b);
    } else {
        assert(a.contains(a[0]));
        let j = choose|j: int| 0 <= j < b.len() && b[j] == a[0];
        assert(b.contains(b[0]));
        let k = choose|k: int| 0 <= k < a.len() && a[k] == b[0];
        if j > 0 && k > 0 {
            bytes::lemma_order_transitive(
                text::utf8(a[0].0),
                text::utf8(b[0].0),
                text::utf8(a[0].0),
            );
            bytes::lemma_order_irreflexive(text::utf8(a[0].0));
        }
        assert(a[0] == b[0]);
        let x = a.skip(1);
        let y = b.skip(1);
        assert forall|e: (Seq<char>, u32, bool)| x.contains(e) <==> y.contains(e) by {
            bytes::lemma_order_irreflexive(text::utf8(a[0].0));
            if x.contains(e) {
                let i = choose|i: int| 0 <= i < x.len() && x[i] == e;
                assert(a[i + 1] == e);
                assert(a.contains(e) && b.contains(e));
                let m = choose|m: int| 0 <= m < b.len() && b[m] == e;
                assert(e != a[0]);
                assert(y[m - 1] == e);
            }
            if y.contains(e) {
                let i = choose|i: int| 0 <= i < y.len() && y[i] == e;
                assert(b[i + 1] == e);
                assert(b.contains(e) && a.contains(e));
                let m = choose|m: int| 0 <= m < a.len() && a[m] == e;
                assert(e != b[0]);
                assert(x[m - 1] == e);
            }
        }
        lemma_one_order(x, y);
        assert(a =~= seq![a[0]] + x);
        assert(b =~= seq![b[0]] + y);
    }
}

/// A directory's names come out in the same order however they are listed, so
/// the same tree produces the same archive.
pub proof fn law_order_is_reproducible(
    a: Seq<(Seq<char>, u32, bool)>,
    b: Seq<(Seq<char>, u32, bool)>,
    out_a: Seq<(Seq<char>, u32, bool)>,
    out_b: Seq<(Seq<char>, u32, bool)>,
    from_a: Seq<int>,
    from_b: Seq<int>,
)
    requires
        pack::reordered(a, out_a, from_a),
        pack::reordered(b, out_b, from_b),
        same_listing(a, b),
        distinct_names(a),
        distinct_names(b),
    ensures
        out_a == out_b,
{
    lemma_all_reordered(a, out_a, from_a);
    lemma_all_reordered(b, out_b, from_b);
    assert(descending(out_a)) by {
        assert forall|i: int, j: int| 0 <= i < j < out_a.len() implies bytes::sorts_before(
            text::utf8((#[trigger] out_a[j]).0),
            text::utf8((#[trigger] out_a[i]).0),
        ) by {
            assert(pack::later_name(out_a[i].0, from_a[i], out_a[j].0, from_a[j]));
        }
    }
    assert(descending(out_b)) by {
        assert forall|i: int, j: int| 0 <= i < j < out_b.len() implies bytes::sorts_before(
            text::utf8((#[trigger] out_b[j]).0),
            text::utf8((#[trigger] out_b[i]).0),
        ) by {
            assert(pack::later_name(out_b[i].0, from_b[i], out_b[j].0, from_b[j]));
        }
    }
    assert(same_listing(out_a, out_b)) by {
        assert forall|x: (Seq<char>, u32, bool)| out_a.contains(x) <==> out_b.contains(x) by {
            assert(a.contains(x) <==> b.contains(x));
        }
    }
    lemma_one_order(out_a, out_b);
}

/// The paths under a directory, depth-first: each name, the last of `rest`
/// first, followed by what is inside it. `kids` gives the names in each
/// directory; directories are gone into `d` deep.
pub open spec fn preorder(
    dir: Seq<char>,
    rest: Seq<(Seq<char>, u32, bool)>,
    kids: Map<Seq<char>, Seq<(Seq<char>, u32, bool)>>,
    d: nat,
) -> Seq<Seq<char>>
    decreases d, rest.len(),
{
    if rest.len() == 0 {
        Seq::empty()
    } else {
        let path = paths::joined(dir, rest.last().0);
        seq![path] + (if rest.last().2 && d > 0 {
            preorder(path, kids[path], kids, (d - 1) as nat)
        } else {
            Seq::empty()
        }) + preorder(dir, rest.drop_last(), kids, d)
    }
}

/// Whether directories are at most `d` deep.
pub open spec fn at_most_deep(
    dir: Seq<char>,
    rest: Seq<(Seq<char>, u32, bool)>,
    kids: Map<Seq<char>, Seq<(Seq<char>, u32, bool)>>,
    d: nat,
) -> bool
    decreases d, rest.len(),
{
    if rest.len() == 0 {
        true
    } else {
        let path = paths::joined(dir, rest.last().0);
        &&& rest.last().2 ==> d > 0 && at_most_deep(path, kids[path], kids, (d - 1) as nat)
        &&& at_most_deep(dir, rest.drop_last(), kids, d)
    }
}

/// Going deeper than a tree is changes nothing.
proof fn lemma_deep_enough(
    dir: Seq<char>,
    rest: Seq<(Seq<char>, u32, bool)>,
    kids: Map<Seq<char>, Seq<(Seq<char>, u32, bool)>>,
    d: nat,
)
    requires
        at_most_deep(dir, rest, kids, d),
    ensures
        at_most_deep(dir, rest, kids, d + 1),
        preorder(dir, rest, kids, d + 1) == preorder(dir, rest, kids, d),
    decreases d, rest.len(),
{
    if rest.len() > 0 {
        let path = paths::joined(dir, rest.last().0);
        lemma_deep_enough(dir, rest.drop_last(), kids, d);
        if rest.last().2 {
            lemma_deep_enough(path, kids[path], kids, (d - 1) as nat);
        }
    }
}

/// What is left to visit: what is under the innermost directory, then what is
/// left of the one around it, and so on.
pub open spec fn left_to_visit(
    stack: Seq<(Seq<char>, Seq<(Seq<char>, u32, bool)>)>,
    kids: Map<Seq<char>, Seq<(Seq<char>, u32, bool)>>,
    d: nat,
) -> Seq<Seq<char>>
    decreases stack.len(),
{
    if stack.len() == 0 {
        Seq::empty()
    } else {
        preorder(stack.last().0, stack.last().1, kids, d) + left_to_visit(
            stack.drop_last(),
            kids,
            d,
        )
    }
}

/// Whether directories are at most `d` deep under every level.
pub open spec fn levels_at_most_deep(
    stack: Seq<(Seq<char>, Seq<(Seq<char>, u32, bool)>)>,
    kids: Map<Seq<char>, Seq<(Seq<char>, u32, bool)>>,
    d: nat,
) -> bool {
    forall|i: int|
        0 <= i < stack.len() ==> at_most_deep((#[trigger] stack[i]).0, stack[i].1, kids, d)
}

/// The levels once the next path has been visited, and gone into if it is a
/// directory.
pub open spec fn after_visit(
    stack: Seq<(Seq<char>, Seq<(Seq<char>, u32, bool)>)>,
    kids: Map<Seq<char>, Seq<(Seq<char>, u32, bool)>>,
) -> Seq<(Seq<char>, Seq<(Seq<char>, u32, bool)>)> {
    let s = pack::unfinished(stack);
    let (dir, rest) = s.last();
    let path = paths::joined(dir, rest.last().0);
    let less = s.drop_last().push((dir, rest.drop_last()));
    if rest.last().2 {
        less.push((path, kids[path]))
    } else {
        less
    }
}

/// The first `n` paths that a walk visits.
pub open spec fn visited(
    stack: Seq<(Seq<char>, Seq<(Seq<char>, u32, bool)>)>,
    kids: Map<Seq<char>, Seq<(Seq<char>, u32, bool)>>,
    n: nat,
) -> Seq<Seq<char>>
    decreases n,
{
    let s = pack::unfinished(stack);
    if n == 0 || s.len() == 0 {
        Seq::empty()
    } else {
        seq![paths::joined(s.last().0, s.last().1.last().0)] + visited(
            after_visit(stack, kids),
            kids,
            (n - 1) as nat,
        )
    }
}

proof fn lemma_unfinished(
    stack: Seq<(Seq<char>, Seq<(Seq<char>, u32, bool)>)>,
    kids: Map<Seq<char>, Seq<(Seq<char>, u32, bool)>>,
    d: nat,
)
    requires
        levels_at_most_deep(stack, kids, d),
    ensures
        left_to_visit(pack::unfinished(stack), kids, d) == left_to_visit(stack, kids, d),
        levels_at_most_deep(pack::unfinished(stack), kids, d),
        pack::unfinished(stack).len() > 0 ==> pack::unfinished(stack).last().1.len() > 0,
    decreases stack.len(),
{
    if stack.len() > 0 && stack.last().1.len() == 0 {
        assert(left_to_visit(stack, kids, d) =~= left_to_visit(stack.drop_last(), kids, d));
        assert forall|i: int| 0 <= i < stack.drop_last().len() implies at_most_deep(
            (#[trigger] stack.drop_last()[i]).0,
            stack.drop_last()[i].1,
            kids,
            d,
        ) by {
            assert(stack.drop_last()[i] == stack[i]);
        }
        lemma_unfinished(stack.drop_last(), kids, d);
    }
}

/// Names come out depth-first: a walk visits, one after the other, exactly the
/// paths of the tree, a directory right in front of what is inside it, and the
/// names of each directory in its order.
#[verifier::spinoff_prover]
#[verifier::rlimit(40)]
pub proof fn law_walk_is_depth_first(
    stack: Seq<(Seq<char>, Seq<(Seq<char>, u32, bool)>)>,
    kids: Map<Seq<char>, Seq<(Seq<char>, u32, bool)>>,
    d: nat,
    n: nat,
)
    requires
        levels_at_most_deep(stack, kids, d),
        n <= left_to_visit(stack, kids, d).len(),
    ensures
        visited(stack, kids, n) == left_to_visit(stack, kids, d).take(n as int),
    decreases n,
{
    let all = left_to_visit(stack, kids, d);
    let s = pack::unfinished(stack);
    lemma_unfinished(stack, kids, d);
    if n == 0 {
        assert(all.take(0) =~= Seq::empty());
    } else {
        assert(s.len() > 0);
        let (dir, rest) = s.last();
        let e = rest.last();
        let path = paths::joined(dir, e.0);
        let less = s.drop_last().push((dir, rest.drop_last()));
        let next = after_visit(stack, kids);
        let under = if e.2 {
            preorder(path, kids[path], kids, (d - 1) as nat)
        } else {
            Seq::empty()
        };
        let tail = left_to_visit(s.drop_last(), kids, d);
        let more = preorder(dir, rest.drop_last(), kids, d);
        assert(at_most_deep(s[s.len() - 1].0, s[s.len() - 1].1, kids, d));
        assert(all == (seq![path] + under + more) + tail);
        assert(less.drop_last() =~= s.drop_last());
        assert(left_to_visit(less, kids, d) == more + tail);
        assert forall|i: int| 0 <= i < less.len() implies at_most_deep(
            (#[trigger] less[i]).0,
            less[i].1,
            kids,
            d,
        ) by {
            if i < s.len() - 1 {
                assert(less[i] == s[i]);
            }
        }
        if e.2 {
            lemma_deep_enough(path, kids[path], kids, (d - 1) as nat);
            assert(next.drop_last() =~= less);
            assert(left_to_visit(next, kids, d) == under + (more + tail));
            assert forall|i: int| 0 <= i < next.len() implies at_most_deep(
                (#[trigger] next[i]).0,
                next[i].1,
                kids,
                d,
            ) by {
                if i < less.len() {
                    assert(next[i] == less[i]);
                }
            }
        } else {
            assert(left_to_visit(next, kids, d) =~= under + (more + tail));
        }
        assert(all =~= seq![path] + left_to_visit(next, kids, d));
        law_walk_is_depth_first(next, kids, d, (n - 1) as nat);
        assert(all.take(n as int) =~= seq![path] + left_to_visit(next, kids, d).take(n - 1));
    }
}

/// The second name for an inode is written as a hard link to the first,
/// whatever was visited in between.
pub proof fn law_second_name_becomes_a_link(
    seen: Map<u32, Seq<char>>,
    first: Seq<char>,
    between: Seq<char>,
    stat: Stat,
    other: Stat,
)
    requires
        !seen.contains_key(stat.inode),
        stat.links > 1,
        stat.mode & dir::IFMT != dir::IFDIR,
    ensures
        ({
            let one = pack::seen_after(seen, first, stat);
            let two = pack::seen_after(one, between, other);
            &&& one.contains_key(stat.inode)
            &&& one[stat.inode] == first
            &&& two.contains_key(stat.inode)
            &&& two[stat.inode] == first
        }),
{
}

/// A directory is never written as a hard link.
pub proof fn law_directories_are_never_links(
    seen: Map<u32, Seq<char>>,
    name: Seq<char>,
    stat: Stat,
    inum: u32,
)
    requires
        stat.mode & dir::IFMT == dir::IFDIR,
        !seen.contains_key(inum),
    ensures
        !pack::seen_after(seen, name, stat).contains_key(inum),
{
}

/// What is set right after an entry is created: the attributes and the time
/// that were read out.
pub open spec fn restored(
    path: Seq<char>,
    stat: Stat,
    attrs: Seq<(Seq<char>, Seq<u8>)>,
) -> Seq<JobView> {
    (if attrs.len() > 0 {
        seq![JobView::Attributes { path, list: attrs }]
    } else {
        Seq::empty()
    }) + (if stat.mtime != 0 {
        seq![JobView::Times { path, secs: stat.mtime }]
    } else {
        Seq::empty()
    })
}

/// The special file that a mode and device numbers stand for. An archive has
/// no sockets, and carries one as a FIFO.
pub open spec fn special_for(mode: u16, numbers: (u32, u32)) -> Special {
    let kind = mode & dir::IFMT;
    if kind == dir::IFCHR {
        Special::CharDevice { major: numbers.0, minor: numbers.1 }
    } else if kind == dir::IFBLK {
        Special::BlockDevice { major: numbers.0, minor: numbers.1 }
    } else {
        Special::Fifo
    }
}

/// What was read out of a tree is laid down again as it was: an entry read
/// back from an archive calls for the same kind of file at the same path, with
/// the permission bits, the owner, the target or the device numbers, the time
/// and, in some order, the extended attributes that it had.
pub proof fn law_packed_entry_unpacks_as_it_was(
    base: Seq<char>,
    name: Seq<char>,
    stat: Stat,
    attrs: Seq<(Seq<char>, Seq<u8>)>,
    target: Seq<char>,
    numbers: (u32, u32),
    size: u64,
    back: HeaderView,
)
    requires
        name.len() > 0,
        tar_laws::same_entry(
            back,
            pack::described(name, stat, attrs, target, numbers, size),
        ),
    ensures
        ({
            let path = paths::placed_at(base, name);
            let given = Attrs { mode: stat.mode & 0o7777, uid: stat.uid, gid: stat.gid };
            let parents = unpack::parents_of(base, back);
            let jobs = unpack::jobs(base, false, back);
            &&& !(pack::wants(stat.mode) is Target) ==> back.xattrs.to_multiset()
                == attrs.to_multiset()
            &&& match pack::wants(stat.mode) {
                Wants::Children => {
                    &&& jobs == parents + seq![JobView::Directory { path, attrs: given }]
                    &&& unpack::put_off(base, false, back) == seq![
                        unpack::DeferredView {
                            path,
                            attrs: given,
                            mtime: stat.mtime,
                            xattrs: back.xattrs,
                        },
                    ]
                },
                Wants::Target => jobs == parents + seq![
                    JobView::Replace(path),
                    JobView::Symlink { path, target },
                ],
                Wants::Numbers => jobs == parents + seq![
                    JobView::Replace(path),
                    JobView::Special {
                        path,
                        special: special_for(stat.mode, numbers),
                        attrs: given,
                    },
                ] + restored(path, stat, back.xattrs),
                Wants::Contents => {
                    &&& jobs == parents + seq![
                        JobView::Replace(path),
                        JobView::File { path, attrs: given },
                    ] + restored(path, stat, back.xattrs)
                    &&& back.size == size
                },
            }
        }),
{
    let path = paths::placed_at(base, name);
    let given = Attrs { mode: stat.mode & 0o7777, uid: stat.uid, gid: stat.gid };
    let parents = unpack::parents_of(base, back);
    let jobs = unpack::jobs(base, false, back);
    assert(unpack::attrs_of(back) == given);
    match pack::wants(stat.mode) {
        Wants::Children => {
            assert(jobs =~= parents + seq![JobView::Directory { path, attrs: given }]);
        },
        Wants::Target => {
            assert(jobs =~= parents + seq![
                JobView::Replace(path),
                JobView::Symlink { path, target },
            ]);
        },
        Wants::Numbers => {
            assert(unpack::special_of(back) == special_for(stat.mode, numbers));
        },
        Wants::Contents => {},
    }
}

/// A hard link read out of a tree is laid down again as a hard link to the
/// name that was written first.
pub proof fn law_packed_link_unpacks_as_it_was(
    base: Seq<char>,
    name: Seq<char>,
    target: Seq<char>,
    stat: Stat,
    back: HeaderView,
)
    requires
        name.len() > 0,
        crate::tar::field::normal(target) == target,
        tar_laws::same_entry(back, pack::link_header(name, target, stat)),
    ensures
        unpack::jobs(base, false, back) == unpack::parents_of(base, back) + seq![
            JobView::Replace(paths::placed_at(base, name)),
            JobView::HardLink {
                target: paths::placed_at(base, target),
                path: paths::placed_at(base, name),
            },
        ],
{
    assert(unpack::jobs(base, false, back) =~= unpack::parents_of(base, back) + seq![
        JobView::Replace(paths::placed_at(base, name)),
        JobView::HardLink {
            target: paths::placed_at(base, target),
            path: paths::placed_at(base, name),
        },
    ]);
}

/// What is read of an inode, and what kind of entry it becomes, go by its type:
/// a socket goes as a FIFO, and what has no type of these as a file.
pub proof fn law_types_become_kinds(mode: u16)
    ensures
        mode & 0o170000 == 0o040000 ==> pack::kind_of(mode) == EntryKind::Directory && pack::wants(
            mode,
        ) is Children,
        mode & 0o170000 == 0o120000 ==> pack::kind_of(mode) == EntryKind::Symlink && pack::wants(
            mode,
        ) is Target,
        mode & 0o170000 == 0o020000 ==> pack::kind_of(mode) == EntryKind::CharDevice && pack::wants(
            mode,
        ) is Numbers,
        mode & 0o170000 == 0o060000 ==> pack::kind_of(mode) == EntryKind::BlockDevice
            && pack::wants(mode) is Numbers,
        mode & 0o170000 == 0o010000 ==> pack::kind_of(mode) == EntryKind::Fifo && pack::wants(
            mode,
        ) is Numbers,
        mode & 0o170000 == 0o140000 ==> pack::kind_of(mode) == EntryKind::Fifo && pack::wants(
            mode,
        ) is Numbers,
        mode & 0o170000 == 0o100000 ==> pack::kind_of(mode) == EntryKind::File && pack::wants(
            mode,
        ) is Contents,
        ({
            let kind = mode & 0o170000;
            kind != 0o040000 && kind != 0o120000 && kind != 0o020000 && kind != 0o060000 && kind
                != 0o010000 && kind != 0o140000 ==> pack::kind_of(mode) == EntryKind::File
                && pack::wants(mode) is Contents
        }),
{
}

/// An entry read out of a tree has its own name, permission bits, owner, group
/// and time; a file its size, a symbolic link its target, a device its numbers,
/// and everything but a symbolic link its extended attributes.
pub proof fn law_entries_carry_what_was_found(
    name: Seq<char>,
    stat: Stat,
    attrs: Seq<(Seq<char>, Seq<u8>)>,
    target: Seq<char>,
    numbers: (u32, u32),
    size: u64,
)
    ensures
        ({
            let h = pack::described(name, stat, attrs, target, numbers, size);
            let kind = stat.mode & 0o170000;
            let node = kind == 0o020000 || kind == 0o060000 || kind == 0o010000 || kind
                == 0o140000;
            let file = !node && kind != 0o040000 && kind != 0o120000;
            &&& h.path == name
            &&& h.kind == pack::kind_of(stat.mode)
            &&& h.mode == stat.mode & 0o7777
            &&& h.uid == stat.uid
            &&& h.gid == stat.gid
            &&& h.mtime == stat.mtime
            &&& file ==> h.size == size
            &&& !file ==> h.size == 0
            &&& kind == 0o120000 ==> h.link == target && h.xattrs.len() == 0
            &&& kind != 0o120000 ==> h.link.len() == 0 && h.xattrs == attrs
            &&& node ==> h.major == numbers.0 && h.minor == numbers.1
            &&& !node ==> h.major == 0 && h.minor == 0
        }),
{
}

/// A second name of an inode is written as a hard link to the first, with its
/// permission bits, owner, group and time, and without contents.
pub proof fn law_link_entries_lead_to_the_first_name(
    name: Seq<char>,
    target: Seq<char>,
    stat: Stat,
)
    ensures
        ({
            let h = pack::link_header(name, target, stat);
            &&& h.path == name
            &&& h.kind == EntryKind::HardLink
            &&& h.link == target
            &&& h.mode == stat.mode & 0o7777
            &&& h.uid == stat.uid
            &&& h.gid == stat.gid
            &&& h.mtime == stat.mtime
            &&& h.size == 0
            &&& h.major == 0
            &&& h.minor == 0
            &&& h.xattrs.len() == 0
        }),
{
}

/// The first name of an inode is remembered only if others are to come and it is
/// no directory; nothing that is remembered is forgotten or changed.
pub proof fn law_first_names_are_remembered(
    seen: Map<u32, Seq<char>>,
    name: Seq<char>,
    stat: Stat,
    inum: u32,
)
    ensures
        ({
            let then = pack::seen_after(seen, name, stat);
            &&& seen.contains_key(inum) ==> then.contains_key(inum) && then[inum] == seen[inum]
            &&& !seen.contains_key(inum) && inum != stat.inode ==> !then.contains_key(inum)
            &&& !seen.contains_key(stat.inode) ==> (then.contains_key(stat.inode) <==> stat.links
                >= 2 && stat.mode & 0o170000 != 0o040000)
            &&& !seen.contains_key(stat.inode) && then.contains_key(stat.inode)
                ==> then[stat.inode] == name
        }),
{
}

/// The report of reading a tree out counts each entry once, by its type, the
/// bytes of every file, and the extended attributes of all but symbolic links.
pub proof fn law_packing_is_counted(r: PackReport, stat: Stat, attrs: nat, size: u64)
    requires
        pack::has_room(r, attrs, size),
    ensures
        ({
            let c = pack::counted(r, stat, attrs, size);
            let kind = stat.mode & 0o170000;
            let node = kind == 0o020000 || kind == 0o060000 || kind == 0o010000 || kind
                == 0o140000;
            let file = !node && kind != 0o040000 && kind != 0o120000;
            &&& c.directories == r.directories + one_if(kind == 0o040000)
            &&& c.symlinks == r.symlinks + one_if(kind == 0o120000)
            &&& c.devices == r.devices + one_if(node)
            &&& c.files == r.files + one_if(file)
            &&& c.bytes == r.bytes + (if file {
                size as int
            } else {
                0
            })
            &&& c.xattrs == r.xattrs + (if kind == 0o120000 {
                0
            } else {
                attrs as int
            })
            &&& c.hard_links == r.hard_links
        }),
{
}

/// One if a thing is so, none if not.
pub open spec fn one_if(so: bool) -> int {
    if so {
        1
    } else {
        0
    }
}

/// A directory's names are all kept, each once, and stand so that taking them
/// from the end takes them in the order of their bytes.
pub proof fn law_names_are_taken_in_order(
    entries: Seq<(Seq<char>, u32, bool)>,
    out: Seq<(Seq<char>, u32, bool)>,
    from: Seq<int>,
    i: int,
    j: int,
)
    requires
        pack::reordered(entries, out, from),
        0 <= i < j < out.len(),
    ensures
        out.len() == entries.len(),
        out[i] == entries[from[i]],
        from[i] != from[j],
        out[i].0 != out[j].0 ==> bytes::sorts_before(text::utf8(out[j].0), text::utf8(out[i].0)),
{
    assert(pack::later_name(out[i].0, from[i], out[j].0, from[j]));
}

} // verus!
