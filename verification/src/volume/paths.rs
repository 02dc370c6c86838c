//! Paths.

use vstd::prelude::*;

use crate::error::{Error, Result};
use crate::tar::field;
use crate::text;

verus! {

/// A directory and a name, with one separator between them.
pub open spec fn joined(dir: Seq<char>, name: Seq<char>) -> Seq<char> {
    if dir.len() > 0 && dir.last() == '/' {
        dir + name
    } else {
        dir.push('/') + name
    }
}

/// Join a directory and a name, without doubling the separator.
pub fn join(dir: &str, name: &str) -> (path: String)
    ensures
        path@ == joined(dir@, name@),
{
    let chars: Vec<char> = text::chars_of(dir);
    let mut path: String = dir.to_owned();
    if chars.len() == 0 || chars[chars.len() - 1] != '/' {
        path.push('/');
    }
    path.append(name);
    path
}

/// Where the last component of a path starts.
pub open spec fn name_start(path: Seq<char>) -> int {
    field::last_start(path, path.len() as int)
}

/// What a path's last component stands behind, without the separator.
pub open spec fn above(path: Seq<char>) -> Seq<char> {
    if name_start(path) > 0 {
        path.take(name_start(path) - 1)
    } else {
        Seq::empty()
    }
}

/// A path's last component.
pub open spec fn below(path: Seq<char>) -> Seq<char> {
    path.skip(name_start(path))
}

/// The parent of a path and its final component, if it has one.
pub open spec fn parent_and_name(path: Seq<char>) -> Option<(Seq<char>, Seq<char>)> {
    let trimmed = field::without_trailing(path);
    if trimmed.len() == 0 {
        None
    } else if above(trimmed).len() == 0 {
        Some((seq!['/'], below(trimmed)))
    } else {
        Some((above(trimmed), below(trimmed)))
    }
}

/// A last component starts behind a separator, or where the path does, and
/// holds no separator itself.
pub proof fn lemma_last_start(path: Seq<char>, i: int)
    requires
        0 <= i <= path.len(),
    ensures
        0 <= field::last_start(path, i) <= i,
        field::last_start(path, i) > 0 ==> path[field::last_start(path, i) - 1] == '/',
        forall|k: int| field::last_start(path, i) <= k < i ==> #[trigger] path[k] != '/',
    decreases i,
{
    if i > 0 && path[i - 1] != '/' {
        lemma_last_start(path, i - 1);
    }
}

/// Where the last component of characters starts.
fn find_name(chars: &[char]) -> (at: usize)
    ensures
        at == name_start(chars@),
        at <= chars@.len(),
{
    let mut at: usize = chars.len();
    while at > 0 && chars[at - 1] != '/'
        invariant
            at <= chars@.len(),
            name_start(chars@) == field::last_start(chars@, at as int),
        decreases at,
    {
        at -= 1;
    }
    at
}

/// Characters without the separators they close with.
fn without_slashes(chars: Vec<char>) -> (out: Vec<char>)
    ensures
        out@ == field::without_trailing(chars@),
        out@.len() > 0 ==> out@.last() != '/',
{
    let mut out = chars;
    while out.len() > 0 && out[out.len() - 1] == '/'
        invariant
            field::without_trailing(chars@) == field::without_trailing(out@),
        decreases out.len(),
    {
        let ghost was = out@;
        out.pop();
        assert(out@ =~= was.drop_last());
    }
    out
}

/// A path without the separators it closes with.
pub fn trim_end(path: &str) -> (s: String)
    ensures
        s@ == field::without_trailing(path@),
{
    text::string_of(without_slashes(text::chars_of(path)).as_slice())
}

/// Split a path into its parent and its final component.
pub fn split_path(path: &str) -> (r: Result<(String, String)>)
    ensures
        match r {
            Ok((parent, name)) => parent_and_name(path@) == Some((parent@, name@)),
            Err(e) => parent_and_name(path@) is None && (e matches Error::InvalidPath(m) && m@
                == path@),
        },
{
    let trimmed: Vec<char> = without_slashes(text::chars_of(path));
    if trimmed.len() == 0 {
        return Err(Error::InvalidPath(path.to_owned()));
    }
    let at: usize = find_name(trimmed.as_slice());
    let name: String = text::string_of(
        vstd::slice::slice_subrange(trimmed.as_slice(), at, trimmed.len()),
    );
    assert(name@ =~= below(trimmed@));
    let parent: String = if at <= 1 {
        let mut root: String = String::new();
        root.push('/');
        assert(root@ =~= seq!['/']);
        root
    } else {
        let front: String = text::string_of(
            vstd::slice::slice_subrange(trimmed.as_slice(), 0, at - 1),
        );
        assert(front@ =~= above(trimmed@));
        front
    };
    Ok((parent, name))
}

/// Split a path within an archive into what its last component stands behind
/// and that component.
pub fn split_last(path: &str) -> (r: (String, String))
    ensures
        r.0@ == above(path@),
        r.1@ == below(path@),
{
    let chars: Vec<char> = text::chars_of(path);
    let at: usize = find_name(chars.as_slice());
    let name: String = text::string_of(
        vstd::slice::slice_subrange(chars.as_slice(), at, chars.len()),
    );
    assert(name@ =~= below(path@));
    let front: String = if at > 0 {
        text::string_of(vstd::slice::slice_subrange(chars.as_slice(), 0, at - 1))
    } else {
        String::new()
    };
    assert(front@ =~= above(path@));
    (front, name)
}

/// The components of a path: what stands between separators, empty ones left
/// out.
pub open spec fn components(path: Seq<char>) -> Seq<Seq<char>>
    decreases path.len(),
{
    let at = name_start(path);
    let before = if 0 < at <= path.len() {
        components(path.take(at - 1))
    } else {
        Seq::empty()
    };
    if at < path.len() {
        before.push(path.skip(at))
    } else {
        before
    }
}

/// Components spelled out, each behind a separator.
pub open spec fn spelled(parts: Seq<Seq<char>>) -> Seq<char>
    decreases parts.len(),
{
    if parts.len() == 0 {
        Seq::empty()
    } else {
        spelled(parts.drop_last()).push('/') + parts.last()
    }
}

/// Every directory along a path, the topmost first.
pub open spec fn along(path: Seq<char>) -> Seq<Seq<char>> {
    let parts = components(path);
    Seq::new(parts.len(), |k: int| spelled(parts.take(k + 1)))
}

/// Texts as the contracts speak of them.
pub open spec fn texts(list: Seq<String>) -> Seq<Seq<char>> {
    list.map_values(|s: String| s@)
}

proof fn lemma_component_step(path: Seq<char>, i: int)
    requires
        0 <= i < path.len(),
    ensures
        ({
            let done = path.take(i);
            let more = path.take(i + 1);
            let at = name_start(done);
            &&& path[i] == '/' ==> components(more) == components(done) && name_start(more) == i
                + 1
            &&& path[i] != '/' ==> name_start(more) == at
            &&& path[i] != '/' && at == i ==> components(more) == components(done).push(
                seq![path[i]],
            )
            &&& path[i] != '/' && at < i ==> components(done).len() > 0 && components(more)
                == components(done).drop_last().push(components(done).last().push(path[i]))
                && components(done).last() == done.skip(at)
        }),
{
    let done = path.take(i);
    let more = path.take(i + 1);
    lemma_last_start_agrees(path, i, i);
    lemma_last_start_agrees(path, i + 1, i);
    lemma_last_start_agrees(path, i + 1, i + 1);
    lemma_last_start(done, i);
    let at = name_start(done);
    if path[i] == '/' {
        assert(more.take(i) =~= done);
        assert(name_start(more) == i + 1);
    } else {
        assert(field::last_start(more, i + 1) == field::last_start(more, i));
        assert(name_start(more) == at);
        if at > 0 {
            assert(more.take(at - 1) =~= done.take(at - 1));
        }
        if at == i {
            assert(more.skip(at) =~= seq![path[i]]);
        } else {
            assert(more.skip(at) =~= done.skip(at).push(path[i]));
            let before = if at > 0 {
                components(done.take(at - 1))
            } else {
                Seq::empty()
            };
            assert(components(done) == before.push(done.skip(at)));
            assert(components(done).drop_last() =~= before);
        }
    }
}

proof fn lemma_last_start_agrees(path: Seq<char>, n: int, i: int)
    requires
        0 <= i <= n <= path.len(),
    ensures
        field::last_start(path.take(n), i) == field::last_start(path, i),
    decreases i,
{
    if i > 0 {
        lemma_last_start_agrees(path, n, i - 1);
    }
}

/// Every directory along a path, the topmost first: what has to be there
/// before the path itself can be.
pub fn directories_along(path: &str) -> (out: Vec<String>)
    ensures
        texts(out@) == along(path@),
{
    let chars: Vec<char> = text::chars_of(path);
    let mut out: Vec<String> = Vec::new();
    let mut so_far: String = String::new();
    let mut open: bool = false;
    let mut i: usize = 0;
    let ghost none: Seq<char> = chars@.take(0);
    assert(texts(out@) =~= Seq::empty());
    assert(components(none) =~= Seq::empty());
    assert(spelled(components(none)) =~= Seq::empty());
    while i < chars.len()
        invariant
            i <= chars@.len(),
            chars@ == path@,
            ({
                let parts = components(chars@.take(i as int));
                &&& so_far@ == spelled(parts)
                &&& open == (name_start(chars@.take(i as int)) < i)
                &&& open ==> parts.len() > 0
                &&& texts(out@).len() == parts.len() - (if open {
                    1int
                } else {
                    0int
                })
                &&& forall|k: int|
                    0 <= k < out@.len() ==> (#[trigger] out@[k])@ == spelled(parts.take(k + 1))
            }),
        decreases chars.len() - i,
    {
        let ghost parts = components(chars@.take(i as int));
        let ghost next = components(chars@.take(i + 1));
        let ghost old_out = out@;
        let ghost was = so_far@;
        proof {
            lemma_component_step(chars@, i as int);
            lemma_last_start(chars@.take(i as int), i as int);
        }
        let c: char = chars[i];
        if c == '/' {
            if open {
                out.push(so_far.clone());
                assert(parts.take(parts.len() as int) =~= parts);
            }
            open = false;
        } else {
            if !open {
                so_far.push('/');
                assert(next.drop_last() =~= parts);
                assert(so_far@.push(c) =~= spelled(parts).push('/') + next.last());
            } else {
                assert(next.drop_last() =~= parts.drop_last());
                assert(so_far@.push(c) =~= spelled(parts.drop_last()).push('/') + next.last());
            }
            so_far.push(c);
            open = true;
            assert forall|k: int| 0 <= k < out@.len() implies (#[trigger] out@[k])@ == spelled(
                next.take(k + 1),
            ) by {
                assert(next.take(k + 1) =~= parts.take(k + 1));
            }
        }
        i += 1;
    }
    let ghost parts = components(path@);
    assert(chars@.take(i as int) =~= path@);
    if open {
        assert(parts.take(parts.len() as int) =~= parts);
        out.push(so_far);
    }
    assert(texts(out@) =~= along(path@));
    out
}

/// A path spelled out from its components, each behind one separator: the root
/// is nothing at all.
pub open spec fn tidy(path: Seq<char>) -> Seq<char> {
    spelled(components(path))
}

/// A path spelled out from its components.
pub fn tidied(path: &str) -> (out: Vec<char>)
    ensures
        out@ == tidy(path@),
{
    let list: Vec<String> = directories_along(path);
    let ghost parts = components(path@);
    assert(texts(list@).len() == parts.len());
    if list.len() == 0 {
        let out: Vec<char> = Vec::new();
        assert(parts =~= Seq::empty());
        assert(out@ =~= Seq::empty());
        return out;
    }
    let last: usize = list.len() - 1;
    assert(texts(list@)[last as int] == list@[last as int]@);
    assert(parts.take(last + 1) =~= parts);
    text::chars_of(list[last].as_str())
}

/// Whether a spelled-out path is below another.
pub open spec fn is_below(path: Seq<char>, root: Seq<char>) -> bool {
    &&& path.len() > root.len()
    &&& path.take(root.len() as int) == root
    &&& path[root.len() as int] == '/'
}

/// Whether a spelled-out path is below another.
pub fn lies_below(path: &Vec<char>, root: &Vec<char>) -> (r: bool)
    ensures
        r == is_below(path@, root@),
{
    if path.len() <= root.len() || path[root.len()] != '/' {
        return false;
    }
    let mut i: usize = 0;
    while i < root.len()
        invariant
            i <= root@.len() < path@.len(),
            forall|k: int| 0 <= k < i ==> #[trigger] path@[k] == root@[k],
        decreases root.len() - i,
    {
        if path[i] != root[i] {
            assert(path@.take(root@.len() as int)[i as int] != root@[i as int]);
            return false;
        }
        i += 1;
    }
    assert(path@.take(root@.len() as int) =~= root@);
    true
}

/// Whether two spelled-out paths are the same.
pub fn same_place(a: &Vec<char>, b: &Vec<char>) -> (r: bool)
    ensures
        r == (a@ == b@),
{
    if a.len() != b.len() {
        return false;
    }
    let mut i: usize = 0;
    while i < a.len()
        invariant
            i <= a@.len(),
            a@.len() == b@.len(),
            forall|k: int| 0 <= k < i ==> #[trigger] a@[k] == b@[k],
        decreases a.len() - i,
    {
        if a[i] != b[i] {
            return false;
        }
        i += 1;
    }
    assert(a@ =~= b@);
    true
}

/// Where a path within an archive lands, under `base`.
pub open spec fn placed_at(base: Seq<char>, path: Seq<char>) -> Seq<char> {
    if base.len() == 0 {
        seq!['/'] + path
    } else {
        (seq!['/'] + base).push('/') + path
    }
}

/// Where a path within an archive lands, under `base`.
pub fn place(base: &str, path: &str) -> (s: String)
    ensures
        s@ == placed_at(base@, path@),
{
    let mut s: String = String::new();
    s.push('/');
    assert(s@ =~= seq!['/']);
    let empty: bool = text::chars_of(base).len() == 0;
    if !empty {
        s.append(base);
        s.push('/');
    }
    s.append(path);
    s
}

/// How many separators a path holds.
pub open spec fn depth(path: Seq<char>) -> nat
    decreases path.len(),
{
    if path.len() == 0 {
        0
    } else {
        depth(path.drop_last()) + (if path.last() == '/' {
            1nat
        } else {
            0nat
        })
    }
}

/// How many separators a path holds.
pub fn depth_of(path: &str) -> (n: usize)
    ensures
        n == depth(path@),
{
    let chars: Vec<char> = text::chars_of(path);
    let mut n: usize = 0;
    let mut i: usize = 0;
    assert(chars@.take(0).len() == 0);
    while i < chars.len()
        invariant
            i <= chars@.len(),
            n <= i,
            n == depth(chars@.take(i as int)),
        decreases chars.len() - i,
    {
        assert(chars@.take(i + 1).drop_last() =~= chars@.take(i as int));
        if chars[i] == '/' {
            n += 1;
        }
        i += 1;
    }
    assert(chars@.take(i as int) =~= chars@);
    n
}

/// A path relative to the root it lies under.
pub open spec fn relative(root: Seq<char>, path: Seq<char>) -> Seq<char> {
    field::without_leading(path.skip(root.len() as int))
}

/// A path relative to the root it lies under, and never absolute — an archive
/// of absolute paths is a hazard to whoever unpacks it.
pub fn relative_to(root: &str, path: &str) -> (s: String)
    requires
        root@.len() <= path@.len(),
    ensures
        s@ == relative(root@, path@),
{
    let chars: Vec<char> = text::chars_of(path);
    let mut at: usize = text::chars_of(root).len();
    while at < chars.len() && chars[at] == '/'
        invariant
            at <= chars@.len(),
            relative(root@, path@) == field::without_leading(chars@.skip(at as int)),
        decreases chars.len() - at,
    {
        assert(chars@.skip(at as int).skip(1) =~= chars@.skip(at + 1));
        at += 1;
    }
    let s: String = text::string_of(
        vstd::slice::slice_subrange(chars.as_slice(), at, chars.len()),
    );
    assert(s@ =~= chars@.skip(at as int));
    s
}

/// Whether text opens with a prefix.
pub open spec fn opens_with(s: Seq<char>, prefix: Seq<char>) -> bool {
    prefix.len() <= s.len() && s.take(prefix.len() as int) == prefix
}

/// What is left of text behind a prefix it opens with.
pub fn after_prefix(s: &str, prefix: &str) -> (r: Option<String>)
    ensures
        match r {
            Some(rest) => opens_with(s@, prefix@) && rest@ == s@.skip(prefix@.len() as int),
            None => !opens_with(s@, prefix@),
        },
{
    let a: Vec<char> = text::chars_of(s);
    let b: Vec<char> = text::chars_of(prefix);
    if b.len() > a.len() {
        return None;
    }
    let mut i: usize = 0;
    while i < b.len()
        invariant
            i <= b@.len() <= a@.len(),
            a@ == s@,
            b@ == prefix@,
            forall|k: int| 0 <= k < i ==> #[trigger] a@[k] == b@[k],
        decreases b.len() - i,
    {
        if a[i] != b[i] {
            assert(s@.take(prefix@.len() as int)[i as int] != prefix@[i as int]);
            return None;
        }
        i += 1;
    }
    assert(s@.take(prefix@.len() as int) =~= prefix@);
    let rest: String = text::string_of(
        vstd::slice::slice_subrange(a.as_slice(), b.len(), a.len()),
    );
    assert(rest@ =~= s@.skip(prefix@.len() as int));
    Some(rest)
}

} // verus!
