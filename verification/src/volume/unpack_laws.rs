//! What laying an archive down promises.

use vstd::prelude::*;

use crate::tar::field;
use crate::tar::header::HeaderView;
use crate::volume::paths;
use crate::volume::paths_laws;
use crate::volume::types::{Attrs, PackReport, Special, UnpackReport};
use crate::volume::unpack::{self, DeferredView, Gone, JobView};

verus! {

/// Whatever an entry creates, but for a directory, is created only once
/// whatever was at its path is gone: nothing of what was there — no mode, no
/// owner, no label — is left for it to inherit.
pub proof fn law_nothing_is_inherited(base: Seq<char>, whiteouts: bool, h: HeaderView)
    requires
        h.path.len() > 0,
        !unpack::whites_out(whiteouts, h),
        !(h.kind is Directory),
    ensures
        ({
            let jobs = unpack::jobs(base, whiteouts, h);
            let first = unpack::parents_of(base, h).len() as int;
            &&& jobs.len() >= first + 2
            &&& jobs[first] == JobView::Replace(unpack::path_of(base, h))
            &&& jobs[first + 1] == unpack::made(base, h)[1]
            &&& forall|i: int| 0 <= i < first ==> #[trigger] jobs[i] is MakeParents
        }),
{
}

/// A whiteout marker is obeyed and never written; where markers are not
/// obeyed, a name like one is a name like any other.
pub proof fn law_markers_are_obeyed_or_names(base: Seq<char>, h: HeaderView)
    requires
        h.path.len() > 0,
        crate::volume::removal::is_marker(paths::below(h.path)),
    ensures
        unpack::jobs(base, true, h) == seq![
            JobView::Whiteout {
                dir: paths::placed_at(base, paths::above(h.path)),
                name: paths::below(h.path),
            },
        ],
        unpack::put_off(base, true, h).len() == 0,
        forall|i: int|
            0 <= i < unpack::jobs(base, false, h).len() ==> !(#[trigger] unpack::jobs(
                base,
                false,
                h,
            )[i] is Whiteout),
{
}

/// A directory that was there already loses the labels it had: finishing it
/// replaces them by those of the archive, even when there are none.
pub proof fn law_directories_lose_old_labels(d: DeferredView)
    ensures
        unpack::finished(d).contains(JobView::Attributes { path: d.path, list: d.xattrs }),
{
    assert(unpack::finished(d)[2] == JobView::Attributes { path: d.path, list: d.xattrs });
}

proof fn lemma_at_depth(list: Seq<DeferredView>, depth: nat)
    ensures
        forall|i: int|
            0 <= i < unpack::at_depth(list, depth).len() ==> unpack::level(#[trigger] unpack::at_depth(list, depth)[i]) == depth && list.contains(unpack::at_depth(list, depth)[i]),
        forall|k: int|
            0 <= k < list.len() && unpack::level(#[trigger] list[k]) == depth
                ==> unpack::at_depth(list, depth).contains(list[k]),
    decreases list.len(),
{
    if list.len() > 0 {
        let front = list.drop_last();
        let before = unpack::at_depth(front, depth);
        let out = unpack::at_depth(list, depth);
        lemma_at_depth(front, depth);
        assert forall|i: int| 0 <= i < out.len() implies unpack::level(#[trigger] out[i])
            == depth && list.contains(out[i]) by {
            if i < before.len() {
                assert(front.contains(before[i]));
                let k = choose|k: int| 0 <= k < front.len() && front[k] == before[i];
                assert(list[k] == out[i]);
            } else {
                assert(list[list.len() - 1] == out[i]);
            }
        }
        assert forall|k: int| 0 <= k < list.len() && unpack::level(#[trigger] list[k])
            == depth implies out.contains(list[k]) by {
            if k < front.len() {
                assert(front[k] == list[k]);
                assert(before.contains(front[k]));
                let i = choose|i: int| 0 <= i < before.len() && before[i] == front[k];
                assert(out[i] == list[k]);
            } else {
                assert(out[before.len() as int] == list[k]);
            }
        }
    }
}

proof fn lemma_deepest(list: Seq<DeferredView>, k: int)
    requires
        0 <= k < list.len(),
    ensures
        unpack::level(list[k]) <= unpack::deepest(list),
    decreases list.len(),
{
    if k < list.len() - 1 {
        lemma_deepest(list.drop_last(), k);
    }
}

/// Every directory put off up to a depth is finished, no other is, and deeper
/// ones before less deep ones.
proof fn lemma_deepest_first(list: Seq<DeferredView>, depth: int)
    ensures
        ({
            let out = unpack::deepest_first(list, depth);
            &&& forall|i: int|
                0 <= i < out.len() ==> list.contains(#[trigger] out[i]) && unpack::level(out[i]) <= depth
            &&& forall|k: int|
                0 <= k < list.len() && unpack::level(#[trigger] list[k]) <= depth
                    ==> out.contains(list[k])
            &&& forall|i: int, j: int|
                #![trigger out[i], out[j]]
                0 <= i < j < out.len() ==> unpack::level(out[i]) >= unpack::level(out[j])
        }),
    decreases depth + 1,
{
    if depth >= 0 {
        let here = unpack::at_depth(list, depth as nat);
        let rest = unpack::deepest_first(list, depth - 1);
        let out = unpack::deepest_first(list, depth);
        lemma_at_depth(list, depth as nat);
        lemma_deepest_first(list, depth - 1);
        assert forall|i: int| 0 <= i < out.len() implies list.contains(#[trigger] out[i])
            && unpack::level(out[i]) <= depth by {
            if i < here.len() {
                assert(out[i] == here[i]);
            } else {
                assert(out[i] == rest[i - here.len()]);
            }
        }
        assert forall|k: int| 0 <= k < list.len() && unpack::level(#[trigger] list[k])
            <= depth implies out.contains(list[k]) by {
            if unpack::level(list[k]) == depth {
                assert(here.contains(list[k]));
                let i = choose|i: int| 0 <= i < here.len() && here[i] == list[k];
                assert(out[i] == list[k]);
            } else {
                assert(rest.contains(list[k]));
                let i = choose|i: int| 0 <= i < rest.len() && rest[i] == list[k];
                assert(out[here.len() + i] == list[k]);
            }
        }
        assert forall|i: int, j: int| 0 <= i < j < out.len() implies unpack::level(#[trigger] out[i]) >= unpack::level(#[trigger] out[j]) by {
            if i < here.len() {
                assert(out[i] == here[i]);
                if j < here.len() {
                    assert(out[j] == here[j]);
                } else {
                    assert(out[j] == rest[j - here.len()]);
                }
            } else {
                assert(out[i] == rest[i - here.len()] && out[j] == rest[j - here.len()]);
            }
        }
    }
}

/// At the end every directory put off is finished, no other is, and deeper
/// ones come first — so that no time is disturbed after it has been set.
pub proof fn law_deepest_directories_come_first(list: Seq<DeferredView>)
    ensures
        ({
            let out = unpack::deepest_first(list, unpack::deepest(list) as int);
            &&& forall|x: DeferredView| list.contains(x) <==> out.contains(x)
            &&& forall|i: int, j: int|
                #![trigger out[i], out[j]]
                0 <= i < j < out.len() ==> unpack::level(out[i]) >= unpack::level(out[j])
        }),
{
    let top = unpack::deepest(list) as int;
    let out = unpack::deepest_first(list, top);
    lemma_deepest_first(list, top);
    assert forall|x: DeferredView| list.contains(x) <==> out.contains(x) by {
        if list.contains(x) {
            let k = choose|k: int| 0 <= k < list.len() && list[k] == x;
            lemma_deepest(list, k);
        }
        if out.contains(x) {
            let i = choose|i: int| 0 <= i < out.len() && out[i] == x;
        }
    }
}

/// Where a directory put off is.
pub open spec fn place(d: DeferredView) -> Seq<char> {
    paths::tidy(d.path)
}

/// What is still there was put off, and is not gone.
pub proof fn lemma_still_there(list: Seq<DeferredView>, gone: Gone, i: int)
    requires
        0 <= i < unpack::still_there(list, gone).len(),
    ensures
        list.contains(unpack::still_there(list, gone)[i]),
        !unpack::is_gone(unpack::still_there(list, gone)[i].path, gone),
    decreases list.len(),
{
    let front = list.drop_last();
    let before = unpack::still_there(front, gone);
    if i < before.len() {
        lemma_still_there(front, gone, i);
        let k = choose|k: int| 0 <= k < front.len() && front[k] == before[i];
        assert(list[k] == before[i]);
    } else {
        assert(list[list.len() - 1] == list.last());
    }
}

/// What is still there of two lists, the one behind the other.
proof fn lemma_still_there_add(a: Seq<DeferredView>, b: Seq<DeferredView>, gone: Gone)
    ensures
        unpack::still_there(a + b, gone) == unpack::still_there(a, gone) + unpack::still_there(
            b,
            gone,
        ),
    decreases b.len(),
{
    let both = unpack::still_there(a, gone) + unpack::still_there(b, gone);
    if b.len() == 0 {
        assert(a + b =~= a);
        assert(both =~= unpack::still_there(a, gone));
    } else {
        lemma_still_there_add(a, b.drop_last(), gone);
        assert((a + b).drop_last() =~= a + b.drop_last());
        assert((a + b).last() == b.last());
        assert(unpack::still_there(a + b, gone) =~= both);
    }
}

proof fn lemma_at_depth_add(a: Seq<DeferredView>, b: Seq<DeferredView>, depth: nat)
    ensures
        unpack::at_depth(a + b, depth) == unpack::at_depth(a, depth) + unpack::at_depth(b, depth),
    decreases b.len(),
{
    let both = unpack::at_depth(a, depth) + unpack::at_depth(b, depth);
    if b.len() == 0 {
        assert(a + b =~= a);
        assert(both =~= unpack::at_depth(a, depth));
    } else {
        lemma_at_depth_add(a, b.drop_last(), depth);
        assert((a + b).drop_last() =~= a + b.drop_last());
        assert((a + b).last() == b.last());
        assert(unpack::at_depth(a + b, depth) =~= both);
    }
}

/// Whether no directory in a list is at a place.
pub open spec fn nowhere_in(list: Seq<DeferredView>, at: Seq<char>) -> bool {
    forall|i: int| 0 <= i < list.len() ==> place(#[trigger] list[i]) != at
}

/// A directory that is the last in a list at its place is finished last there.
proof fn lemma_last_stays_last(
    a: Seq<DeferredView>,
    x: DeferredView,
    b: Seq<DeferredView>,
    depth: int,
) -> (at: int)
    requires
        nowhere_in(b, place(x)),
        unpack::level(x) <= depth,
    ensures
        ({
            let out = unpack::deepest_first(a + seq![x] + b, depth);
            &&& 0 <= at < out.len()
            &&& out[at] == x
            &&& nowhere_in(out.skip(at + 1), place(x))
        }),
    decreases depth,
{
    let list = a + seq![x] + b;
    let out = unpack::deepest_first(list, depth);
    let here = unpack::at_depth(list, depth as nat);
    let rest = unpack::deepest_first(list, depth - 1);
    if unpack::level(x) == depth {
        let d = depth as nat;
        lemma_at_depth_add(a + seq![x], b, d);
        lemma_at_depth_add(a, seq![x], d);
        assert(seq![x].drop_last() =~= Seq::<DeferredView>::empty());
        assert(unpack::at_depth(Seq::<DeferredView>::empty(), d) =~= Seq::empty());
        assert(seq![x].last() == x);
        assert(unpack::at_depth(seq![x], d) =~= seq![x]);
        let front = unpack::at_depth(a, d);
        let behind = unpack::at_depth(b, d);
        let at = front.len() as int;
        assert(here == front + seq![x] + behind);
        lemma_at_depth(b, d);
        lemma_deepest_first(list, depth - 1);
        let tail = out.skip(at + 1);
        assert forall|i: int| 0 <= i < tail.len() implies place(#[trigger] tail[i]) != place(
            x,
        ) by {
            if i < behind.len() {
                assert(tail[i] == behind[i]);
                let k = choose|k: int| 0 <= k < b.len() && b[k] == behind[i];
                assert(place(b[k]) != place(x));
            } else {
                assert(tail[i] == rest[i - behind.len()]);
                assert(unpack::level(rest[i - behind.len()]) <= depth - 1);
            }
        }
        at
    } else {
        let at = lemma_last_stays_last(a, x, b, depth - 1);
        assert(out == here + rest);
        assert(out.skip((here.len() + at + 1) as int) =~= rest.skip(at + 1));
        here.len() + at
    }
}

/// What stands of the entries behind the one at `k`, of what was put off there.
proof fn lemma_put_off_later(
    base: Seq<char>,
    whiteouts: bool,
    entries: Seq<HeaderView>,
    k: int,
) -> (at: int)
    requires
        0 <= k < entries.len(),
        entries[k].path.len() > 0,
        !unpack::whites_out(whiteouts, entries[k]),
        forall|j: int|
            k < j < entries.len() ==> nowhere_in(
                unpack::put_off(base, whiteouts, #[trigger] entries[j]),
                paths::tidy(unpack::path_of(base, entries[k])),
            ),
    ensures
        ({
            let list = unpack::put_off_by(base, whiteouts, entries);
            let path = unpack::path_of(base, entries[k]);
            &&& !(entries[k].kind is Directory) ==> nowhere_in(list, paths::tidy(path))
            &&& entries[k].kind is Directory && (forall|j: int|
                k < j < entries.len() ==> !unpack::is_gone(
                    path,
                    unpack::gone_by(base, whiteouts, #[trigger] entries[j]),
                )) ==> {
                &&& 0 <= at < list.len()
                &&& list[at] == unpack::put_off(base, whiteouts, entries[k])[0]
                &&& nowhere_in(list.skip(at + 1), paths::tidy(path))
            }
        }),
    decreases entries.len(),
{
    let last = entries.last();
    let path = unpack::path_of(base, entries[k]);
    let front = entries.drop_last();
    let before = unpack::put_off_by(base, whiteouts, front);
    let gone = unpack::gone_by(base, whiteouts, last);
    let kept = unpack::still_there(before, gone);
    let new = unpack::put_off(base, whiteouts, last);
    let list = unpack::put_off_by(base, whiteouts, entries);
    assert(list == kept + new);
    if k == entries.len() - 1 {
        if last.kind is Directory {
            assert(list.skip((kept.len() + 1) as int) =~= Seq::empty());
        } else {
            assert forall|i: int| 0 <= i < list.len() implies place(#[trigger] list[i])
                != paths::tidy(path) by {
                lemma_still_there(before, gone, i);
            }
        }
        kept.len() as int
    } else {
        assert(front[k] == entries[k]);
        assert forall|j: int| k < j < front.len() implies nowhere_in(
            unpack::put_off(base, whiteouts, #[trigger] front[j]),
            paths::tidy(path),
        ) by {
            assert(front[j] == entries[j]);
        }
        let was = lemma_put_off_later(base, whiteouts, front, k);
        assert(nowhere_in(unpack::put_off(base, whiteouts, entries[entries.len() - 1]), paths::tidy(path)));
        if !(entries[k].kind is Directory) {
            assert forall|i: int| 0 <= i < list.len() implies place(#[trigger] list[i])
                != paths::tidy(path) by {
                if i < kept.len() {
                    lemma_still_there(before, gone, i);
                    let m = choose|m: int| 0 <= m < before.len() && before[m] == kept[i];
                    assert(place(before[m]) != paths::tidy(path));
                } else {
                    assert(list[i] == new[i - kept.len()]);
                }
            }
            0
        } else if forall|j: int|
            k < j < entries.len() ==> !unpack::is_gone(
                path,
                unpack::gone_by(base, whiteouts, #[trigger] entries[j]),
            ) {
            assert forall|j: int| k < j < front.len() implies !unpack::is_gone(
                path,
                unpack::gone_by(base, whiteouts, #[trigger] front[j]),
            ) by {
                assert(front[j] == entries[j]);
            }
            assert(!unpack::is_gone(
                path,
                unpack::gone_by(base, whiteouts, entries[entries.len() - 1]),
            ));
            let x = unpack::put_off(base, whiteouts, entries[k])[0];
            let a = before.take(was);
            let b = before.skip(was + 1);
            assert(before =~= a + seq![x] + b);
            lemma_still_there_add(a + seq![x], b, gone);
            lemma_still_there_add(a, seq![x], gone);
            assert(seq![x].drop_last() =~= Seq::<DeferredView>::empty());
            assert(unpack::still_there(Seq::<DeferredView>::empty(), gone) =~= Seq::empty());
            assert(seq![x].last() == x);
            assert(unpack::still_there(seq![x], gone) =~= seq![x]);
            let at = unpack::still_there(a, gone).len() as int;
            let behind = unpack::still_there(b, gone);
            let tail = list.skip(at + 1);
            assert(tail =~= behind + new);
            assert forall|i: int| 0 <= i < tail.len() implies place(#[trigger] tail[i])
                != paths::tidy(path) by {
                if i < behind.len() {
                    lemma_still_there(b, gone, i);
                    let m = choose|m: int| 0 <= m < b.len() && b[m] == behind[i];
                    assert(place(b[m]) != paths::tidy(path));
                } else {
                    assert(tail[i] == new[i - behind.len()]);
                }
            }
            at
        } else {
            0
        }
    }
}

/// Entries that appear later win. At the end of an archive nothing is done to
/// what the last entry for a path laid down there, unless that is a directory;
/// and to a directory, what its last entry says is done last.
pub proof fn law_later_entries_win(
    base: Seq<char>,
    whiteouts: bool,
    entries: Seq<HeaderView>,
    k: int,
)
    requires
        0 <= k < entries.len(),
        entries[k].path.len() > 0,
        !unpack::whites_out(whiteouts, entries[k]),
        forall|j: int|
            k < j < entries.len() ==> nowhere_in(
                unpack::put_off(base, whiteouts, #[trigger] entries[j]),
                paths::tidy(unpack::path_of(base, entries[k])),
            ),
    ensures
        ({
            let list = unpack::put_off_by(base, whiteouts, entries);
            let out = unpack::deepest_first(list, unpack::deepest(list) as int);
            let path = unpack::path_of(base, entries[k]);
            &&& !(entries[k].kind is Directory) ==> nowhere_in(out, paths::tidy(path))
            &&& entries[k].kind is Directory && (forall|j: int|
                k < j < entries.len() ==> !unpack::is_gone(
                    path,
                    unpack::gone_by(base, whiteouts, #[trigger] entries[j]),
                )) ==> exists|at: int|
                {
                    &&& 0 <= at < out.len()
                    &&& #[trigger] out[at] == unpack::put_off(base, whiteouts, entries[k])[0]
                    &&& nowhere_in(out.skip(at + 1), paths::tidy(path))
                }
        }),
{
    let list = unpack::put_off_by(base, whiteouts, entries);
    let top = unpack::deepest(list) as int;
    let out = unpack::deepest_first(list, top);
    let path = unpack::path_of(base, entries[k]);
    let at = lemma_put_off_later(base, whiteouts, entries, k);
    if !(entries[k].kind is Directory) {
        lemma_deepest_first(list, top);
        assert forall|i: int| 0 <= i < out.len() implies place(#[trigger] out[i]) != paths::tidy(
            path,
        ) by {
            let m = choose|m: int| 0 <= m < list.len() && list[m] == out[i];
            assert(place(list[m]) != paths::tidy(path));
        }
    } else if forall|j: int|
        k < j < entries.len() ==> !unpack::is_gone(
            path,
            unpack::gone_by(base, whiteouts, #[trigger] entries[j]),
        ) {
        let x = list[at];
        lemma_deepest(list, at);
        assert(list =~= list.take(at) + seq![x] + list.skip(at + 1));
        let b = lemma_last_stays_last(list.take(at), x, list.skip(at + 1), top);
        assert(out[b] == x);
    }
}

/// What replaces a directory is not treated as that directory: nothing that
/// was put off at its path or below it is kept.
pub proof fn law_replaced_directories_are_forgotten(
    base: Seq<char>,
    whiteouts: bool,
    list: Seq<DeferredView>,
    h: HeaderView,
)
    requires
        h.path.len() > 0,
        !unpack::whites_out(whiteouts, h),
        !(h.kind is Directory),
    ensures
        ({
            let left = unpack::still_there(list, unpack::gone_by(base, whiteouts, h));
            let at = paths::tidy(unpack::path_of(base, h));
            forall|i: int|
                0 <= i < left.len() ==> place(#[trigger] left[i]) != at && !paths::is_below(
                    place(left[i]),
                    at,
                )
        }),
{
    let gone = unpack::gone_by(base, whiteouts, h);
    let left = unpack::still_there(list, gone);
    let at = paths::tidy(unpack::path_of(base, h));
    assert forall|i: int| 0 <= i < left.len() implies place(#[trigger] left[i]) != at
        && !paths::is_below(place(left[i]), at) by {
        lemma_still_there(list, gone, i);
    }
}

/// The report of an unpacking counts each entry that is laid down once, by its
/// kind, and the bytes of every file; extended attributes of files and devices
/// are counted at once, and those of directories when they are finished. Entries
/// without a path, and markers that are obeyed, are not counted.
pub proof fn law_unpacking_is_counted(r: UnpackReport, whiteouts: bool, h: HeaderView)
    requires
        unpack::has_room(r, 0, h),
    ensures
        ({
            let c = unpack::counted(r, whiteouts, h);
            let laid = h.path.len() > 0 && !(whiteouts && paths::opens_with(
                paths::below(h.path),
                ".wh."@,
            ));
            let node = h.kind is CharDevice || h.kind is BlockDevice || h.kind is Fifo;
            &&& c.files == r.files + (if laid && h.kind is File {
                1int
            } else {
                0
            })
            &&& c.bytes == r.bytes + (if laid && h.kind is File {
                h.size as int
            } else {
                0
            })
            &&& c.directories == r.directories + (if laid && h.kind is Directory {
                1int
            } else {
                0
            })
            &&& c.symlinks == r.symlinks + (if laid && h.kind is Symlink {
                1int
            } else {
                0
            })
            &&& c.hard_links == r.hard_links + (if laid && h.kind is HardLink {
                1int
            } else {
                0
            })
            &&& c.devices == r.devices + (if laid && node {
                1int
            } else {
                0
            })
            &&& c.xattrs == r.xattrs + (if laid && (h.kind is File || node) {
                h.xattrs.len() as int
            } else {
                0
            })
            &&& c.removed == r.removed
        }),
{
}

/// A directory is finished with the permission bits, the owner, the extended
/// attributes and — unless it is zero — the time of its own entry, the time last.
pub proof fn law_directories_are_finished_as_their_entry_says(
    base: Seq<char>,
    whiteouts: bool,
    h: HeaderView,
)
    requires
        h.path.len() > 0,
        h.kind is Directory,
        !(whiteouts && paths::opens_with(paths::below(h.path), ".wh."@)),
    ensures
        ({
            let path = paths::placed_at(base, h.path);
            let put_off = unpack::put_off(base, whiteouts, h);
            &&& put_off.len() == 1
            &&& unpack::finished(put_off[0]).take(3) == seq![
                JobView::Mode { path, mode: h.mode },
                JobView::Owner { path, uid: h.uid, gid: h.gid },
                JobView::Attributes { path, list: h.xattrs },
            ]
            &&& h.mtime == 0 ==> unpack::finished(put_off[0]).len() == 3
            &&& h.mtime != 0 ==> unpack::finished(put_off[0]).len() == 4 && unpack::finished(
                put_off[0],
            )[3] == (JobView::Times { path, secs: h.mtime })
        }),
{
    let f = unpack::finished(unpack::put_off(base, whiteouts, h)[0]);
    let path = paths::placed_at(base, h.path);
    assert(f.take(3) =~= seq![
        JobView::Mode { path, mode: h.mode },
        JobView::Owner { path, uid: h.uid, gid: h.gid },
        JobView::Attributes { path, list: h.xattrs },
    ]);
}

/// What an entry that is no directory lays down: first the directories above it,
/// then room where it goes, then the thing itself — a file with the contents to
/// come, a link to the entry's target, a device with its numbers — and behind a
/// file or a device its extended attributes and, unless it is zero, its time.
pub proof fn law_entries_are_laid_down_as_they_say(
    base: Seq<char>,
    whiteouts: bool,
    h: HeaderView,
)
    requires
        h.path.len() > 0,
        !(whiteouts && paths::opens_with(paths::below(h.path), ".wh."@)),
    ensures
        ({
            let path = paths::placed_at(base, h.path);
            let attrs = Attrs { mode: h.mode, uid: h.uid, gid: h.gid };
            let up = paths::above(h.path);
            let first = if up.len() > 0 {
                seq![JobView::MakeParents(paths::placed_at(base, up))]
            } else {
                Seq::empty()
            };
            let labels = if h.xattrs.len() > 0 {
                seq![JobView::Attributes { path, list: h.xattrs }]
            } else {
                Seq::empty()
            };
            let time = if h.mtime != 0 {
                seq![JobView::Times { path, secs: h.mtime }]
            } else {
                Seq::empty()
            };
            let all = unpack::jobs(base, whiteouts, h);
            &&& h.kind is Directory ==> all == first + seq![JobView::Directory { path, attrs }]
            &&& h.kind is File ==> all == first + seq![
                JobView::Replace(path),
                JobView::File { path, attrs },
            ] + labels + time
            &&& h.kind is Symlink ==> all == first + seq![
                JobView::Replace(path),
                JobView::Symlink { path, target: h.link },
            ]
            &&& h.kind is HardLink ==> all == first + seq![
                JobView::Replace(path),
                JobView::HardLink {
                    target: paths::placed_at(base, field::normal(h.link)),
                    path,
                },
            ]
            &&& h.kind is CharDevice ==> all == first + seq![
                JobView::Replace(path),
                JobView::Special {
                    path,
                    special: Special::CharDevice { major: h.major, minor: h.minor },
                    attrs,
                },
            ] + labels + time
            &&& h.kind is BlockDevice ==> all == first + seq![
                JobView::Replace(path),
                JobView::Special {
                    path,
                    special: Special::BlockDevice { major: h.major, minor: h.minor },
                    attrs,
                },
            ] + labels + time
            &&& h.kind is Fifo ==> all == first + seq![
                JobView::Replace(path),
                JobView::Special { path, special: Special::Fifo, attrs },
            ] + labels + time
        }),
{
    let first = unpack::parents_of(base, h);
    let made = unpack::made(base, h);
    let rest = unpack::dressed(base, h);
    assert(first + made + Seq::<JobView>::empty() =~= first + made);
    let path = paths::placed_at(base, h.path);
    let labels = if h.xattrs.len() > 0 {
        seq![JobView::Attributes { path, list: h.xattrs }]
    } else {
        Seq::empty()
    };
    let time = if h.mtime != 0 {
        seq![JobView::Times { path, secs: h.mtime }]
    } else {
        Seq::empty()
    };
    assert(first + made + rest =~= first + made + labels + time);
}

/// An entry without a path lays nothing down.
pub proof fn law_entries_without_a_path_do_nothing(
    base: Seq<char>,
    whiteouts: bool,
    h: HeaderView,
)
    requires
        h.path.len() == 0,
    ensures
        unpack::jobs(base, whiteouts, h).len() == 0,
        unpack::put_off(base, whiteouts, h).len() == 0,
        unpack::gone_by(base, whiteouts, h) is Nothing,
{
}

/// What waits to be counted are the extended attributes of every directory put
/// off, and every one of these is finished, one behind the other.
pub proof fn law_every_directory_is_finished_and_counted(
    list: Seq<DeferredView>,
    d: DeferredView,
)
    ensures
        unpack::waiting(Seq::empty()) == 0,
        unpack::waiting(list.push(d)) == unpack::waiting(list) + d.xattrs.len(),
        unpack::all_finished(Seq::empty()).len() == 0,
        unpack::all_finished(list.push(d)) == unpack::all_finished(list) + unpack::finished(d),
{
    assert(list.push(d).drop_last() =~= list);
}

/// A directory inside another is deeper.
pub proof fn law_inner_directories_are_deeper(inner: DeferredView, outer: DeferredView)
    requires
        paths::is_below(paths::tidy(inner.path), paths::tidy(outer.path)),
    ensures
        unpack::level(inner) > unpack::level(outer),
{
    let a = paths::tidy(outer.path);
    let b = paths::tidy(inner.path);
    lemma_depth_grows(b, a.len() as int);
    assert(b.take(a.len() as int) == a);
}

proof fn lemma_depth_grows(path: Seq<char>, n: int)
    requires
        0 <= n < path.len(),
        path[n] == '/',
    ensures
        paths::depth(path) > paths::depth(path.take(n)),
    decreases path.len(),
{
    let less = path.drop_last();
    if n == less.len() {
        assert(less =~= path.take(n));
    } else {
        assert(less.take(n) =~= path.take(n));
        lemma_depth_grows(less, n);
    }
}

/// A report starts with nothing counted.
pub proof fn law_reports_start_at_nothing()
    ensures
        ({
            let u = UnpackReport::nothing();
            &&& u.files == 0
            &&& u.directories == 0
            &&& u.symlinks == 0
            &&& u.hard_links == 0
            &&& u.devices == 0
            &&& u.xattrs == 0
            &&& u.bytes == 0
            &&& u.removed == 0
        }),
        ({
            let p = PackReport::nothing();
            &&& p.files == 0
            &&& p.directories == 0
            &&& p.symlinks == 0
            &&& p.hard_links == 0
            &&& p.devices == 0
            &&& p.xattrs == 0
            &&& p.bytes == 0
        }),
{
}

/// Whether a place is inside another, or is it.
pub open spec fn at_or_inside(parts: Seq<Seq<char>>, outer: Seq<Seq<char>>) -> bool {
    outer.len() <= parts.len() && parts.take(outer.len() as int) == outer
}

/// What was put off is forgotten exactly where an entry removes it: an opaque
/// marker what is inside its directory, but not the directory; any other marker
/// what it names and all that is inside; a bookkeeping marker and a directory
/// nothing; and every other entry what stood in its place.
pub proof fn law_only_what_is_removed_is_forgotten(
    base: Seq<char>,
    whiteouts: bool,
    h: HeaderView,
    path: Seq<char>,
)
    requires
        h.path.len() > 0,
    ensures
        ({
            let gone = unpack::is_gone(path, unpack::gone_by(base, whiteouts, h));
            let parts = paths::components(path);
            let dir = paths::components(base) + paths::components(paths::above(h.path));
            let name = paths::below(h.path);
            let marked = whiteouts && name.len() >= 4 && name.take(4) == ".wh."@;
            let inside = name.len() >= 8 && name.take(8) == ".wh..wh."@;
            &&& marked && name == ".wh..wh..opq"@ ==> (gone <==> at_or_inside(parts, dir) && parts
                != dir)
            &&& marked && inside && name != ".wh..wh..opq"@ ==> !gone
            &&& marked && !inside && name.len() > 4 && !name.skip(4).contains('/') ==> (gone
                <==> at_or_inside(parts, dir.push(name.skip(4))))
            &&& !marked && h.kind is Directory ==> !gone
            &&& !marked && !(h.kind is Directory) ==> (gone <==> at_or_inside(
                parts,
                paths::components(base) + paths::components(h.path),
            ))
        }),
{
    reveal_strlit(".wh.");
    reveal_strlit(".wh..wh.");
    reveal_strlit(".wh..wh..opq");
    let name = paths::below(h.path);
    let up = paths::placed_at(base, paths::above(h.path));
    assert(".wh..wh..opq"@.take(8) =~= ".wh..wh."@);
    assert(".wh..wh."@.take(4) =~= ".wh."@);
    assert(".wh..wh..opq"@.take(4) =~= ".wh."@);
    if name.len() >= 8 && name.take(8) == ".wh..wh."@ {
        assert(name.take(8).take(4) =~= name.take(4));
    }
    paths_laws::law_placing_adds_components(base, paths::above(h.path));
    paths_laws::law_placing_adds_components(base, h.path);
    lemma_gone_below(path, up);
    lemma_gone_at(path, unpack::path_of(base, h));
    if name.len() > 4 && !name.skip(4).contains('/') {
        let rest = name.skip(4);
        let p = paths::joined(up, rest);
        lemma_gone_at(path, p);
        assert forall|i: int| 0 <= i < rest.len() implies #[trigger] rest[i] != '/' by {
            assert(rest.contains(rest[i]));
        }
        paths_laws::law_components_stand_between_separators(rest, up);
        paths_laws::law_components_add_up(up, rest);
        assert(paths::components(p) =~= paths::components(up).push(rest)) by {
            if up.len() > 0 && up.last() == '/' {
                let less = up.drop_last();
                assert(up =~= less.push('/'));
                paths_laws::law_components_add_up(less, rest);
                paths_laws::law_components_stand_between_separators(rest, less);
                assert(up + rest =~= less.push('/') + rest);
            }
        }
    }
}

proof fn lemma_gone_at(path: Seq<char>, p: Seq<char>)
    ensures
        unpack::is_gone(path, Gone::At(p)) <==> at_or_inside(
            paths::components(path),
            paths::components(p),
        ),
{
    let parts = paths::components(path);
    let outer = paths::components(p);
    paths_laws::law_spelled_paths_tell_places_apart(path, p);
    if outer.len() < parts.len() && parts.take(outer.len() as int) == outer {
        paths_laws::law_places_within_are_spelled_below(path, p);
    }
    if outer.len() == parts.len() {
        assert(parts.take(outer.len() as int) =~= parts);
    }
}

proof fn lemma_gone_below(path: Seq<char>, p: Seq<char>)
    ensures
        unpack::is_gone(path, Gone::Below(p)) <==> at_or_inside(
            paths::components(path),
            paths::components(p),
        ) && paths::components(path) != paths::components(p),
{
    let parts = paths::components(path);
    let outer = paths::components(p);
    paths_laws::law_spelled_paths_tell_places_apart(path, p);
    if outer.len() < parts.len() && parts.take(outer.len() as int) == outer {
        paths_laws::law_places_within_are_spelled_below(path, p);
    }
    if outer.len() == parts.len() {
        assert(parts.take(outer.len() as int) =~= parts);
    }
}

} // verus!
