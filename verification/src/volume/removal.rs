//! Removing whole subtrees, and what layers remove.

use vstd::prelude::*;

use crate::text;
use crate::volume::paths;
use crate::volume::types::Entry;

verus! {

/// Entries as the contracts speak of them.
pub open spec fn entries_view(entries: Seq<Entry>) -> Seq<(Seq<char>, u32, bool)> {
    entries.map_values(|e: Entry| e@)
}

/// The paths of what is in a directory: of the directories in it, or of the
/// rest.
pub open spec fn paths_in(dir: Seq<char>, entries: Seq<(Seq<char>, u32, bool)>, dirs: bool) -> Seq<
    Seq<char>,
>
    decreases entries.len(),
{
    if entries.len() == 0 {
        Seq::empty()
    } else {
        let before = paths_in(dir, entries.drop_last(), dirs);
        if entries.last().2 == dirs {
            before.push(paths::joined(dir, entries.last().0))
        } else {
            before
        }
    }
}

/// The paths of all that is in a directory.
pub open spec fn all_paths_in(dir: Seq<char>, entries: Seq<(Seq<char>, u32, bool)>) -> Seq<
    Seq<char>,
> {
    Seq::new(entries.len(), |i: int| paths::joined(dir, entries[i].0))
}

/// The paths of all that is in a directory.
pub fn children(dir: &str, entries: &Vec<Entry>) -> (out: Vec<String>)
    ensures
        paths::texts(out@) == all_paths_in(dir@, entries_view(entries@)),
{
    let mut out: Vec<String> = Vec::new();
    let mut i: usize = 0;
    while i < entries.len()
        invariant
            i <= entries@.len(),
            out@.len() == i,
            forall|k: int|
                0 <= k < i ==> (#[trigger] out@[k])@ == paths::joined(dir@, entries@[k].name@),
        decreases entries.len() - i,
    {
        out.push(paths::join(dir, entries[i].name.as_str()));
        i += 1;
    }
    assert(paths::texts(out@) =~= all_paths_in(dir@, entries_view(entries@)));
    out
}

/// A directory being removed with everything under it.
///
/// Directories are gathered first, deepest last, and then removed in reverse;
/// everything else goes as it is come across.
pub struct Removal {
    /// The directories found, each behind the one it is in.
    pub order: Vec<String>,
    /// How many of them have been listed.
    pub at: usize,
    /// What was found in each of those.
    pub seen: Ghost<Seq<Seq<(Seq<char>, u32, bool)>>>,
}

impl Removal {
    /// Every directory found in one of those listed stands behind it.
    pub open spec fn inv(&self) -> bool {
        &&& self.at <= self.order@.len()
        &&& self.seen@.len() == self.at
        &&& forall|i: int, e: int|
            #![trigger self.seen@[i][e]]
            0 <= i < self.at && 0 <= e < self.seen@[i].len() && self.seen@[i][e].2
                ==> exists|j: int|
                i < j < self.order@.len() && (#[trigger] self.order@[j])@ == paths::joined(
                    self.order@[i]@,
                    self.seen@[i][e].0,
                )
    }

    /// Start removing a directory.
    pub fn new(path: &str) -> (r: Self)
        ensures
            r.inv(),
            paths::texts(r.order@) == seq![path@],
            r.at == 0,
    {
        let mut order: Vec<String> = Vec::new();
        order.push(path.to_owned());
        assert(paths::texts(order@) =~= seq![path@]);
        Removal { order, at: 0, seen: Ghost(Seq::empty()) }
    }

    /// The directory to list next.
    pub fn next(&self) -> (r: Option<String>)
        requires
            self.inv(),
        ensures
            match r {
                Some(dir) => self.at < self.order@.len() && dir@ == self.order@[self.at as int]@,
                None => self.at == self.order@.len(),
            },
    {
        if self.at < self.order.len() {
            Some(self.order[self.at].clone())
        } else {
            None
        }
    }

    /// What is in the directory being listed: the paths to unlink. Directories
    /// in it are gathered.
    pub fn listed(&mut self, entries: &Vec<Entry>) -> (files: Vec<String>)
        requires
            old(self).inv(),
            old(self).at < old(self).order@.len(),
        ensures
            final(self).inv(),
            final(self).at == old(self).at + 1,
            final(self).seen@ == old(self).seen@.push(entries_view(entries@)),
            ({
                let dir = old(self).order@[old(self).at as int]@;
                let found = entries_view(entries@);
                &&& paths::texts(files@) == paths_in(dir, found, false)
                &&& paths::texts(final(self).order@) == paths::texts(old(self).order@)
                    + paths_in(dir, found, true)
            }),
    {
        let dir: String = self.order[self.at].clone();
        assert(self.order.len() == self.order@.len());
        let next: usize = self.at + 1;
        let ghost all = entries_view(entries@);
        let ghost first = paths::texts(self.order@);
        let mut files: Vec<String> = Vec::new();
        let mut i: usize = 0;
        assert(all.take(0) =~= Seq::empty());
        assert(paths::texts(files@) =~= Seq::empty());
        assert(first + paths_in(dir@, all.take(0), true) =~= first);
        while i < entries.len()
            invariant
                i <= entries@.len(),
                all == entries_view(entries@),
                self.at == old(self).at,
                self.seen == old(self).seen,
                paths::texts(files@) == paths_in(dir@, all.take(i as int), false),
                paths::texts(self.order@) == first + paths_in(dir@, all.take(i as int), true),
            decreases entries.len() - i,
        {
            let ghost f = files@;
            let ghost o = self.order@;
            proof {
                assert(all.take(i + 1).drop_last() =~= all.take(i as int));
                assert(all.take(i + 1).last() == entries@[i as int]@);
            }
            let child: String = paths::join(dir.as_str(), entries[i].name.as_str());
            if entries[i].is_dir {
                self.order.push(child);
                assert(paths::texts(self.order@) =~= paths::texts(o).push(child@));
                assert(paths::texts(self.order@) =~= first + paths_in(
                    dir@,
                    all.take(i + 1),
                    true,
                ));
            } else {
                files.push(child);
                assert(paths::texts(files@) =~= paths::texts(f).push(child@));
            }
            i += 1;
        }
        assert(all.take(i as int) =~= all);
        self.at = next;
        let ghost seen = old(self).seen@.push(all);
        self.seen = Ghost(seen);
        proof {
            let n = old(self).order@.len() as int;
            assert forall|j: int| 0 <= j < n implies (#[trigger] self.order@[j])@ == old(
                self,
            ).order@[j]@ by {
                assert(paths::texts(self.order@)[j] == first[j]);
            }
            assert forall|i: int, e: int|
                #![trigger self.seen@[i][e]]
                0 <= i < self.at && 0 <= e < self.seen@[i].len()
                    && self.seen@[i][e].2 implies exists|j: int|
                i < j < self.order@.len() && (#[trigger] self.order@[j])@ == paths::joined(
                    self.order@[i]@,
                    self.seen@[i][e].0,
                ) by {
                if i < old(self).at {
                    assert(old(self).seen@[i][e].2);
                    let j = choose|j: int|
                        i < j < n && (#[trigger] old(self).order@[j])@ == paths::joined(
                            old(self).order@[i]@,
                            old(self).seen@[i][e].0,
                        );
                    assert(self.order@[j]@ == old(self).order@[j]@);
                } else {
                    let k = lemma_listed(dir@, all, e, true);
                    assert(paths::texts(self.order@)[n + k] == paths_in(dir@, all, true)[k]);
                    assert(self.order@[n + k]@ == paths::joined(dir@, all[e].0));
                }
            }
        }
        files
    }

    /// The directories to remove, in the order to remove them.
    pub fn directories(self) -> (out: Vec<String>)
        requires
            self.inv(),
            self.at == self.order@.len(),
        ensures
            out@.len() == self.order@.len(),
            forall|i: int|
                0 <= i < out@.len() ==> (#[trigger] out@[i])@ == self.order@[out@.len() - 1 - i]@,
    {
        let mut out: Vec<String> = Vec::new();
        let n: usize = self.order.len();
        let mut i: usize = 0;
        while i < n
            invariant
                i <= n,
                n == self.order@.len(),
                out@.len() == i,
                forall|k: int|
                    0 <= k < i ==> (#[trigger] out@[k])@ == self.order@[n - 1 - k]@,
            decreases n - i,
        {
            out.push(self.order[n - 1 - i].clone());
            i += 1;
        }
        out
    }
}

/// What is listed is among the paths.
proof fn lemma_listed(
    dir: Seq<char>,
    entries: Seq<(Seq<char>, u32, bool)>,
    e: int,
    dirs: bool,
) -> (k: int)
    requires
        0 <= e < entries.len(),
        entries[e].2 == dirs,
    ensures
        0 <= k < paths_in(dir, entries, dirs).len(),
        paths_in(dir, entries, dirs)[k] == paths::joined(dir, entries[e].0),
    decreases entries.len(),
{
    if e == entries.len() - 1 {
        paths_in(dir, entries, dirs).len() - 1
    } else {
        lemma_listed(dir, entries.drop_last(), e, dirs)
    }
}

/// Removing a subtree leaves nothing behind: everything found in a directory
/// is unlinked, or is a directory that is removed before the one it is in.
pub proof fn law_removal_leaves_nothing(r: Removal, out: Seq<Seq<char>>, i: int, e: int)
    requires
        r.inv(),
        r.at == r.order@.len(),
        out.len() == r.order@.len(),
        forall|k: int|
            0 <= k < out.len() ==> #[trigger] out[k] == r.order@[out.len() - 1 - k]@,
        0 <= i < r.order@.len(),
        0 <= e < r.seen@[i].len(),
    ensures
        ({
            let dir = r.order@[i]@;
            let path = paths::joined(dir, r.seen@[i][e].0);
            if r.seen@[i][e].2 {
                exists|j: int, k: int|
                    0 <= j < k < out.len() && #[trigger] out[j] == path && #[trigger] out[k]
                        == dir
            } else {
                paths_in(dir, r.seen@[i], false).contains(path)
            }
        }),
{
    let dir = r.order@[i]@;
    let n = out.len() as int;
    if r.seen@[i][e].2 {
        let j = choose|j: int|
            i < j < r.order@.len() && (#[trigger] r.order@[j])@ == paths::joined(
                dir,
                r.seen@[i][e].0,
            );
        assert(out[n - 1 - j] == r.order@[j]@);
        assert(out[n - 1 - i] == dir);
    } else {
        let k = lemma_listed(dir, r.seen@[i], e, false);
        assert(paths_in(dir, r.seen@[i], false)[k] == paths::joined(dir, r.seen@[i][e].0));
    }
}

/// What a whiteout marker stands for.
#[derive(Debug)]
pub enum Whiteout {
    /// Everything that the lower layers put in its directory is hidden.
    Opaque,
    /// Nothing: the name is kept for bookkeeping, and is not written either.
    Nothing,
    /// This path is removed.
    Remove(String),
}

/// Whether a name is a whiteout marker.
pub open spec fn is_marker(name: Seq<char>) -> bool {
    paths::opens_with(name, ".wh."@)
}

/// Whether a name is a whiteout marker.
pub fn is_whiteout(name: &str) -> (r: bool)
    ensures
        r == is_marker(name@),
{
    paths::after_prefix(name, ".wh.").is_some()
}

/// What the marker of a name stands for, in a directory.
///
/// `.wh..wh..opq` empties its directory of everything the lower layers put
/// there. `.wh.<name>` removes that one name. Anything else beginning
/// `.wh..wh.` is a bookkeeping file and is dropped rather than written.
pub fn apply_whiteout(dir: &str, name: &str) -> (r: Whiteout)
    requires
        is_marker(name@),
    ensures
        match r {
            Whiteout::Opaque => name@ == ".wh..wh..opq"@,
            Whiteout::Nothing => name@ != ".wh..wh..opq"@ && paths::opens_with(
                name@,
                ".wh..wh."@,
            ),
            Whiteout::Remove(path) => {
                &&& name@ != ".wh..wh..opq"@
                &&& !paths::opens_with(name@, ".wh..wh."@)
                &&& path@ == paths::joined(dir@, name@.skip(".wh."@.len() as int))
            },
        },
{
    if text::same_text(name, ".wh..wh..opq") {
        return Whiteout::Opaque;
    }
    if paths::after_prefix(name, ".wh..wh.").is_some() {
        return Whiteout::Nothing;
    }
    match paths::after_prefix(name, ".wh.") {
        Some(rest) => Whiteout::Remove(paths::join(dir, rest.as_str())),
        None => Whiteout::Nothing,
    }
}

/// The paths that the marker of a name removes from a directory. `there` says
/// whether what the marker speaks of is there — the directory, if it is opaque,
/// and the one path otherwise — and `found` is what is in the directory.
pub open spec fn whited_out(
    dir: Seq<char>,
    name: Seq<char>,
    there: bool,
    found: Seq<(Seq<char>, u32, bool)>,
) -> Seq<Seq<char>> {
    if !there {
        Seq::empty()
    } else if name == ".wh..wh..opq"@ {
        all_paths_in(dir, found)
    } else if paths::opens_with(name, ".wh..wh."@) {
        Seq::empty()
    } else {
        seq![paths::joined(dir, name.skip(".wh."@.len() as int))]
    }
}

/// The paths that the marker of a name removes from a directory.
pub fn to_remove(dir: &str, name: &str, there: bool, found: &Vec<Entry>) -> (out: Vec<String>)
    requires
        is_marker(name@),
    ensures
        paths::texts(out@) == whited_out(dir@, name@, there, entries_view(found@)),
{
    let mut out: Vec<String> = Vec::new();
    if there {
        match apply_whiteout(dir, name) {
            Whiteout::Opaque => {
                return children(dir, found);
            },
            Whiteout::Nothing => {},
            Whiteout::Remove(path) => {
                out.push(path);
            },
        }
    }
    assert(paths::texts(out@) =~= whited_out(dir@, name@, there, entries_view(found@)));
    out
}

/// A marker is a name that opens with `.wh.`. One for a whole directory names all
/// that is listed in it, one that opens with `.wh..wh.` otherwise names nothing,
/// and any other names what stands behind the `.wh.`, in its own directory.
pub proof fn law_markers_name_what_they_say(
    dir: Seq<char>,
    rest: Seq<char>,
    found: Seq<(Seq<char>, u32, bool)>,
)
    ensures
        is_marker(seq!['.', 'w', 'h', '.'] + rest),
        forall|name: Seq<char>|
            #[trigger] is_marker(name) <==> name.len() >= 4 && name[0] == '.' && name[1] == 'w'
                && name[2] == 'h' && name[3] == '.',
        whited_out(dir, seq!['.', 'w', 'h', '.'] + rest, false, found).len() == 0,
        rest == seq!['.', 'w', 'h', '.', '.', 'o', 'p', 'q'] ==> whited_out(
            dir,
            seq!['.', 'w', 'h', '.'] + rest,
            true,
            found,
        ) == Seq::new(found.len(), |i: int| paths::joined(dir, found[i].0)),
        rest != seq!['.', 'w', 'h', '.', '.', 'o', 'p', 'q'] && rest.len() >= 4 && rest.take(4)
            == seq!['.', 'w', 'h', '.'] ==> whited_out(
            dir,
            seq!['.', 'w', 'h', '.'] + rest,
            true,
            found,
        ).len() == 0,
        !(rest.len() >= 4 && rest.take(4) == seq!['.', 'w', 'h', '.']) ==> whited_out(
            dir,
            seq!['.', 'w', 'h', '.'] + rest,
            true,
            found,
        ) == seq![paths::joined(dir, rest)],
{
    reveal_strlit(".wh.");
    reveal_strlit(".wh..wh.");
    reveal_strlit(".wh..wh..opq");
    let mark = seq!['.', 'w', 'h', '.'];
    let opaque = seq!['.', 'w', 'h', '.', '.', 'o', 'p', 'q'];
    let name = mark + rest;
    assert(".wh."@ =~= mark);
    assert(".wh..wh."@ =~= mark + mark);
    assert(".wh..wh..opq"@ =~= mark + opaque);
    assert(name.take(4) =~= mark);
    assert(name.skip(4) =~= rest);
    assert forall|n: Seq<char>| #[trigger] is_marker(n) <==> n.len() >= 4 && n[0] == '.' && n[1]
        == 'w' && n[2] == 'h' && n[3] == '.' by {
        if n.len() >= 4 {
            assert(n.take(4)[0] == n[0] && n.take(4)[1] == n[1] && n.take(4)[2] == n[2]
                && n.take(4)[3] == n[3]);
            if n[0] == '.' && n[1] == 'w' && n[2] == 'h' && n[3] == '.' {
                assert(n.take(4) =~= mark);
            }
        }
    }
    assert((mark + opaque).skip(4) =~= opaque);
    assert(opaque.take(4) =~= mark);
    if name == ".wh..wh..opq"@ {
        assert(rest =~= opaque);
    }
    if rest.len() >= 4 {
        assert(name.take(8) =~= mark + rest.take(4));
        assert((mark + mark).skip(4) =~= mark);
        assert((mark + rest.take(4)).skip(4) =~= rest.take(4));
    }
}

/// What is unlinked in a directory, and what is gone down into, are its own
/// entries: those that are directories, or those that are not, and no others.
pub proof fn law_paths_of_one_sort(
    dir: Seq<char>,
    entries: Seq<(Seq<char>, u32, bool)>,
    dirs: bool,
    path: Seq<char>,
)
    ensures
        paths_in(dir, entries, dirs).contains(path) <==> exists|i: int|
            0 <= i < entries.len() && (#[trigger] entries[i]).2 == dirs && path == paths::joined(
                dir,
                entries[i].0,
            ),
    decreases entries.len(),
{
    let out = paths_in(dir, entries, dirs);
    if entries.len() == 0 {
        assert(out.len() == 0);
    } else {
        let front = entries.drop_last();
        let last = entries.last();
        law_paths_of_one_sort(dir, front, dirs, path);
        let before = paths_in(dir, front, dirs);
        if before.contains(path) {
            let k = choose|k: int| 0 <= k < before.len() && before[k] == path;
            assert(out[k] == path);
            let i = choose|i: int|
                0 <= i < front.len() && (#[trigger] front[i]).2 == dirs && path == paths::joined(
                    dir,
                    front[i].0,
                );
            assert(entries[i] == front[i]);
        }
        if last.2 == dirs && path == paths::joined(dir, last.0) {
            assert(out.last() == path);
            assert(out.contains(path));
            assert(entries[entries.len() - 1].2 == dirs);
        }
        if exists|i: int|
            0 <= i < entries.len() && (#[trigger] entries[i]).2 == dirs && path == paths::joined(
                dir,
                entries[i].0,
            ) {
            let i = choose|i: int|
                0 <= i < entries.len() && (#[trigger] entries[i]).2 == dirs && path
                    == paths::joined(dir, entries[i].0);
            if i < front.len() {
                assert(front[i] == entries[i]);
            }
        }
        if out.contains(path) && !before.contains(path) {
            let k = choose|k: int| 0 <= k < out.len() && out[k] == path;
            if k < before.len() {
                assert(before[k] == path);
            }
        }
    }
}

} // verus!
