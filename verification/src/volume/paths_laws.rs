//! What holds of taking paths apart and putting them together.

use vstd::prelude::*;

use crate::tar::field;
use crate::volume::paths;

verus! {

/// Whether text can be one component of a path.
pub open spec fn is_component(name: Seq<char>) -> bool {
    name.len() > 0 && forall|i: int| 0 <= i < name.len() ==> #[trigger] name[i] != '/'
}

/// A component starts behind the last separator.
proof fn lemma_starts_at(path: Seq<char>, at: int, i: int)
    requires
        0 <= at <= i <= path.len(),
        at > 0 ==> path[at - 1] == '/',
        forall|k: int| at <= k < i ==> #[trigger] path[k] != '/',
    ensures
        field::last_start(path, i) == at,
    decreases i - at,
{
    if i > at {
        assert(path[i - 1] != '/');
        lemma_starts_at(path, at, i - 1);
    }
}

/// Splitting a path gives back the directory and the name it was joined from.
pub proof fn law_split_undoes_join(dir: Seq<char>, name: Seq<char>)
    requires
        is_component(name),
        dir == seq!['/'] || (dir.len() > 0 && dir.last() != '/'),
    ensures
        paths::parent_and_name(paths::joined(dir, name)) == Some((dir, name)),
{
    let path = paths::joined(dir, name);
    let at = path.len() - name.len();
    assert(path.skip(at) =~= name);
    assert(path.last() == name.last());
    assert(name[name.len() - 1] != '/');
    assert(field::without_trailing(path) == path);
    assert forall|k: int| at <= k < path.len() implies #[trigger] path[k] != '/' by {
        assert(path[k] == name[k - at]);
    }
    lemma_starts_at(path, at, path.len() as int);
    if dir == seq!['/'] {
        assert(at == 1);
        assert(paths::above(path) =~= Seq::empty());
    } else {
        assert(path.take(at - 1) =~= dir);
    }
}

/// Joining gives back a path that was split, if it was written in the one way:
/// absolute, and without a separator at its end or two in a row before the
/// name.
pub proof fn law_join_undoes_split(path: Seq<char>)
    requires
        path.len() > 1,
        path[0] == '/',
        path.last() != '/',
        paths::above(path).len() > 0 ==> paths::above(path).last() != '/',
    ensures
        paths::parent_and_name(path) matches Some((dir, name)) && paths::joined(dir, name) == path
            && is_component(name),
{
    paths::lemma_last_start(path, path.len() as int);
    let at = paths::name_start(path);
    assert(field::without_trailing(path) == path);
    let (dir, name) = paths::parent_and_name(path)->0;
    assert forall|i: int| 0 <= i < name.len() implies #[trigger] name[i] != '/' by {
        assert(path[at + i] != '/');
    }
    assert(at > 0) by {
        if at == 0 {
            assert(path[0] != '/');
        }
    }
    assert(at < path.len()) by {
        if at == path.len() {
            assert(path[at - 1] == '/');
        }
    }
    assert(paths::joined(dir, name) =~= path);
}

/// The components of a path are components.
proof fn lemma_components(path: Seq<char>)
    ensures
        forall|k: int|
            0 <= k < paths::components(path).len() ==> is_component(
                #[trigger] paths::components(path)[k],
            ),
    decreases path.len(),
{
    paths::lemma_last_start(path, path.len() as int);
    let at = paths::name_start(path);
    if at > 0 {
        lemma_components(path.take(at - 1));
    }
    if at < path.len() {
        let last = path.skip(at);
        assert forall|i: int| 0 <= i < last.len() implies #[trigger] last[i] != '/' by {
            assert(path[at + i] != '/');
        }
        assert(is_component(last));
    }
    let before = if at > 0 {
        paths::components(path.take(at - 1))
    } else {
        Seq::empty()
    };
    let all = paths::components(path);
    assert forall|k: int| 0 <= k < all.len() implies is_component(#[trigger] all[k]) by {
        if k < before.len() {
            assert(all[k] == before[k]);
        }
    }
}

proof fn lemma_spelled_end(parts: Seq<Seq<char>>)
    requires
        parts.len() > 0,
        is_component(parts.last()),
    ensures
        paths::spelled(parts).len() > 0,
        paths::spelled(parts).last() != '/',
{
    assert(paths::spelled(parts).last() == parts.last()[parts.last().len() - 1]);
}

/// Every directory along a path is right inside the one in front of it, so
/// each one's parent is there before it is made.
pub proof fn law_parents_come_first(path: Seq<char>, k: int)
    requires
        0 <= k < paths::along(path).len(),
    ensures
        ({
            let dirs = paths::along(path);
            let parts = paths::components(path);
            &&& dirs.len() == parts.len()
            &&& is_component(parts[k])
            &&& paths::parent_and_name(dirs[k]) == Some(
                (
                    if k == 0 {
                        seq!['/']
                    } else {
                        dirs[k - 1]
                    },
                    parts[k],
                ),
            )
        }),
{
    let dirs = paths::along(path);
    let parts = paths::components(path);
    lemma_components(path);
    let here = parts.take(k + 1);
    assert(here.drop_last() =~= parts.take(k));
    assert(here.last() == parts[k]);
    if k == 0 {
        assert(paths::spelled(parts.take(0)) =~= Seq::empty());
        assert(dirs[0] =~= paths::joined(seq!['/'], parts[0]));
        law_split_undoes_join(seq!['/'], parts[0]);
    } else {
        assert(is_component(parts[k - 1]));
        assert(parts.take(k).last() == parts[k - 1]);
        lemma_spelled_end(parts.take(k));
        assert(dirs[k - 1] == paths::spelled(parts.take(k)));
        assert(dirs[k] =~= paths::joined(dirs[k - 1], parts[k]));
        law_split_undoes_join(dirs[k - 1], parts[k]);
    }
}

/// Names in an archive are never absolute.
pub proof fn law_names_are_never_absolute(root: Seq<char>, path: Seq<char>)
    ensures
        paths::relative(root, path).len() > 0 ==> paths::relative(root, path)[0] != '/',
{
    lemma_without_leading(path.skip(root.len() as int));
}

proof fn lemma_without_leading(s: Seq<char>)
    ensures
        field::without_leading(s).len() > 0 ==> field::without_leading(s)[0] != '/',
    decreases s.len(),
{
    if s.len() > 0 && s[0] == '/' {
        lemma_without_leading(s.skip(1));
    }
}

/// What is read out of a directory and laid down in one of the same path comes
/// to the path it had.
pub proof fn law_relative_paths_come_back(base: Seq<char>, name: Seq<char>)
    requires
        name.len() > 0,
        name[0] != '/',
    ensures
        ({
            let root = if base.len() == 0 {
                Seq::empty()
            } else {
                seq!['/'] + base
            };
            paths::relative(root, paths::placed_at(base, name)) == name
        }),
{
    let root = if base.len() == 0 {
        Seq::empty()
    } else {
        seq!['/'] + base
    };
    let path = paths::placed_at(base, name);
    let rest = path.skip(root.len() as int);
    assert(rest =~= seq!['/'] + name);
    assert(rest.skip(1) =~= name);
    reveal_with_fuel(field::without_leading, 2);
}

/// A path that is two paths with a separator between them has the components
/// of both.
pub proof fn law_components_add_up(a: Seq<char>, b: Seq<char>)
    ensures
        paths::components(a.push('/') + b) == paths::components(a) + paths::components(b),
    decreases b.len(),
{
    let p = a.push('/') + b;
    let n = a.len() + 1;
    let at = paths::name_start(b);
    paths::lemma_last_start(b, b.len() as int);
    assert(p[n + at - 1] == '/') by {
        if at > 0 {
            assert(b[at - 1] == '/');
        }
    }
    assert forall|k: int| n + at <= k < p.len() implies #[trigger] p[k] != '/' by {
        assert(p[k] == b[k - n]);
    }
    lemma_starts_at(p, n + at, p.len() as int);
    assert(p.skip(n + at) =~= b.skip(at));
    if at == 0 {
        assert(p.take(n + at - 1) =~= a);
    } else {
        assert(p.take(n + at - 1) =~= a.push('/') + b.take(at - 1));
        law_components_add_up(a, b.take(at - 1));
    }
    assert(paths::components(p) =~= paths::components(a) + paths::components(b));
}

/// A component is a path of one component.
pub proof fn lemma_one_component(name: Seq<char>)
    requires
        is_component(name),
    ensures
        paths::components(name) == seq![name],
{
    lemma_starts_at(name, 0, name.len() as int);
    assert(name.skip(0) =~= name);
    assert(paths::components(name) =~= seq![name]);
}

/// Components spelled out are the components of the path they spell.
pub proof fn law_spelling_keeps_components(parts: Seq<Seq<char>>)
    requires
        forall|k: int| 0 <= k < parts.len() ==> is_component(#[trigger] parts[k]),
    ensures
        paths::components(paths::spelled(parts)) == parts,
    decreases parts.len(),
{
    if parts.len() == 0 {
        assert(paths::components(paths::spelled(parts)) =~= parts);
    } else {
        let front = parts.drop_last();
        assert forall|k: int| 0 <= k < front.len() implies is_component(#[trigger] front[k]) by {
            assert(front[k] == parts[k]);
        }
        law_spelling_keeps_components(front);
        assert(is_component(parts[parts.len() - 1]));
        lemma_one_component(parts.last());
        law_components_add_up(paths::spelled(front), parts.last());
        assert(paths::components(paths::spelled(parts)) =~= parts);
    }
}

/// What is placed below a directory has that directory's components in front
/// of its own.
pub proof fn law_placing_adds_components(base: Seq<char>, path: Seq<char>)
    ensures
        paths::components(paths::placed_at(base, path)) == paths::components(base)
            + paths::components(path),
{
    let none = Seq::<char>::empty();
    assert(paths::components(none) =~= Seq::empty());
    if base.len() == 0 {
        assert(base =~= none);
        assert(paths::placed_at(base, path) =~= none.push('/') + path);
        law_components_add_up(none, path);
    } else {
        let root = seq!['/'] + base;
        assert(root =~= none.push('/') + base);
        law_components_add_up(none, base);
        assert(paths::components(root) =~= paths::components(base));
        law_components_add_up(root, path);
    }
}

/// Spelling a path out keeps its components, so that paths that are spelled
/// alike are the same place, and what is spelled as lying below a place has
/// that place's components in front of more.
pub proof fn law_spelled_paths_tell_places_apart(path: Seq<char>, other: Seq<char>)
    ensures
        paths::components(paths::tidy(path)) == paths::components(path),
        paths::tidy(path) == paths::tidy(other) <==> paths::components(path)
            == paths::components(other),
        paths::is_below(paths::tidy(path), paths::tidy(other)) ==> {
            let parts = paths::components(path);
            let front = paths::components(other);
            front.len() < parts.len() && parts.take(front.len() as int) == front
        },
{
    lemma_components(path);
    lemma_components(other);
    law_spelling_keeps_components(paths::components(path));
    law_spelling_keeps_components(paths::components(other));
    let one = paths::tidy(path);
    let two = paths::tidy(other);
    if paths::is_below(one, two) {
        let rest = one.skip((two.len() + 1) as int);
        assert(one =~= two.push('/') + rest);
        law_components_add_up(two, rest);
        let front = paths::components(other);
        if paths::components(rest).len() == 0 {
            assert(paths::components(path) =~= front);
        }
        assert(paths::components(path).take(front.len() as int) =~= front);
    }
}

proof fn lemma_spelled_add(a: Seq<Seq<char>>, b: Seq<Seq<char>>)
    ensures
        paths::spelled(a + b) == paths::spelled(a) + paths::spelled(b),
    decreases b.len(),
{
    if b.len() == 0 {
        assert(a + b =~= a);
        assert(paths::spelled(a) + paths::spelled(b) =~= paths::spelled(a));
    } else {
        lemma_spelled_add(a, b.drop_last());
        assert((a + b).drop_last() =~= a + b.drop_last());
        assert((a + b).last() == b.last());
        assert(paths::spelled(a + b) =~= paths::spelled(a) + paths::spelled(b));
    }
}

/// A path that has the components of another in front of more is spelled as
/// lying below it.
pub proof fn law_places_within_are_spelled_below(path: Seq<char>, other: Seq<char>)
    requires
        ({
            let parts = paths::components(path);
            let front = paths::components(other);
            front.len() < parts.len() && parts.take(front.len() as int) == front
        }),
    ensures
        paths::is_below(paths::tidy(path), paths::tidy(other)),
{
    let parts = paths::components(path);
    let front = paths::components(other);
    let more = parts.skip(front.len() as int);
    assert(parts =~= front + more);
    lemma_spelled_add(front, more);
    let first = seq![more[0]];
    let others = more.skip(1);
    assert(more =~= first + others);
    lemma_spelled_add(first, others);
    assert(first.drop_last() =~= Seq::<Seq<char>>::empty());
    assert(paths::spelled(Seq::<Seq<char>>::empty()) =~= Seq::<char>::empty());
    assert(paths::spelled(first) =~= seq!['/'] + more[0]);
    let tail = paths::spelled(more);
    assert(tail[0] == '/');
    assert(paths::tidy(path).take(paths::tidy(other).len() as int) =~= paths::tidy(other));
}

/// A path without a separator is one component, or none where it is empty, and a
/// separator more at either end changes nothing.
pub proof fn law_components_stand_between_separators(name: Seq<char>, path: Seq<char>)
    requires
        name.len() > 0,
        forall|i: int| 0 <= i < name.len() ==> #[trigger] name[i] != '/',
    ensures
        paths::components(name) == seq![name],
        paths::components(Seq::empty()) == Seq::<Seq<char>>::empty(),
        paths::components(path.push('/')) == paths::components(path),
        paths::components(seq!['/'] + path) == paths::components(path),
{
    field::law_last_component_stands_behind_the_last_slash(Seq::empty(), name);
    assert(field::last_component(name) == name);
    assert(paths::name_start(name) == 0) by {
        let at = paths::name_start(name);
        lemma_start_in_bounds(name, name.len() as int);
        assert(name.skip(at).len() == name.len());
    }
    assert(name.skip(0) =~= name);
    assert(paths::components(name) =~= seq![name]);
    assert(paths::components(Seq::empty()) =~= Seq::<Seq<char>>::empty());
    law_components_add_up(path, Seq::empty());
    assert(path.push('/') + Seq::<char>::empty() =~= path.push('/'));
    assert(paths::components(path) + Seq::<Seq<char>>::empty() =~= paths::components(path));
    law_components_add_up(Seq::empty(), path);
    assert(Seq::<char>::empty().push('/') + path =~= seq!['/'] + path);
    assert(Seq::<Seq<char>>::empty() + paths::components(path) =~= paths::components(path));
}

proof fn lemma_start_in_bounds(path: Seq<char>, i: int)
    requires
        0 <= i <= path.len(),
    ensures
        0 <= field::last_start(path, i) <= i,
    decreases i,
{
    if i > 0 && path[i - 1] != '/' {
        lemma_start_in_bounds(path, i - 1);
    }
}

/// Separators at the end of a path do not matter to what its parent and its name
/// are, and only a path of nothing but separators has none.
pub proof fn law_closing_separators_do_not_matter(path: Seq<char>)
    ensures
        paths::parent_and_name(path.push('/')) == paths::parent_and_name(path),
        paths::parent_and_name(path) is None <==> (forall|i: int|
            0 <= i < path.len() ==> #[trigger] path[i] == '/'),
{
    assert(path.push('/').drop_last() =~= path);
    lemma_only_separators(path);
}

proof fn lemma_only_separators(path: Seq<char>)
    ensures
        field::without_trailing(path).len() == 0 <==> (forall|i: int|
            0 <= i < path.len() ==> #[trigger] path[i] == '/'),
    decreases path.len(),
{
    if path.len() > 0 && path.last() == '/' {
        let less = path.drop_last();
        lemma_only_separators(less);
        if field::without_trailing(path).len() == 0 {
            assert forall|i: int| 0 <= i < path.len() implies #[trigger] path[i] == '/' by {
                if i < less.len() {
                    assert(less[i] == '/');
                }
            }
        }
        if forall|i: int| 0 <= i < path.len() ==> #[trigger] path[i] == '/' {
            assert forall|i: int| 0 <= i < less.len() implies #[trigger] less[i] == '/' by {
                assert(path[i] == '/');
            }
        }
    } else if path.len() > 0 {
        assert(path[path.len() - 1] != '/');
    }
}

/// What is above a path and what is below it are what stands in front of its last
/// separator and what stands behind.
pub proof fn law_paths_split_at_the_last_separator(dir: Seq<char>, name: Seq<char>)
    requires
        forall|i: int| 0 <= i < name.len() ==> #[trigger] name[i] != '/',
    ensures
        paths::above(dir.push('/') + name) == dir,
        paths::below(dir.push('/') + name) == name,
        paths::above(name).len() == 0,
        paths::below(name) == name,
{
    field::law_last_component_stands_behind_the_last_slash(dir, name);
    let path = dir.push('/') + name;
    let at = paths::name_start(path);
    lemma_start_in_bounds(path, path.len() as int);
    assert(path.skip(at).len() == name.len());
    assert(path.take(dir.len() as int) =~= dir);
    lemma_start_in_bounds(name, name.len() as int);
    assert(name.skip(paths::name_start(name)).len() == name.len());
}

} // verus!
