//! The fields of a tar header: NUL-padded text, octal numbers, padding.

use vstd::prelude::*;

use crate::error::{Error, Result};
use crate::text;

verus! {

/// One block of a tar archive. Everything in the format is a multiple of this.
pub const BLOCK: usize = 512;

/// Bytes of padding needed to reach the next block boundary.
pub open spec fn padding(size: nat) -> nat {
    ((512 - size % 512) % 512) as nat
}

/// Bytes of padding needed to reach the next block boundary.
pub fn pad_for(size: u64) -> (pad: usize)
    ensures
        pad == padding(size as nat),
        pad < 512,
        (size + pad) % 512 == 0,
{
    let rem: usize = (size % 512) as usize;
    if rem == 0 {
        0
    } else {
        512 - rem
    }
}

/// The first place from `i` on that holds `b`, or the end.
pub open spec fn find_byte(s: Seq<u8>, i: int, b: u8) -> int
    decreases s.len() - i,
{
    if i >= s.len() || s[i] == b {
        i
    } else {
        find_byte(s, i + 1, b)
    }
}

/// The first place from `from` on that holds `b`, or the end.
pub fn index_of(s: &[u8], from: usize, b: u8) -> (i: usize)
    requires
        from <= s@.len(),
    ensures
        i == find_byte(s@, from as int, b),
        from <= i <= s@.len(),
        i < s@.len() ==> s@[i as int] == b,
        forall|j: int| from <= j < i ==> s@[j] != b,
{
    let mut i: usize = from;
    while i < s.len() && s[i] != b
        invariant
            from <= i <= s@.len(),
            find_byte(s@, from as int, b) == find_byte(s@, i as int, b),
            forall|j: int| from <= j < i ==> s@[j] != b,
        decreases s.len() - i,
    {
        i += 1;
    }
    i
}

/// A NUL-padded field as text: what stands before the first NUL.
pub open spec fn field_text(field: Seq<u8>) -> Seq<char> {
    text::lossy_text(field.take(find_byte(field, 0, 0)))
}

/// Read a NUL-padded field as a string.
pub fn cstr(field: &[u8]) -> (s: String)
    ensures
        s@ == field_text(field@),
{
    let end: usize = index_of(field, 0, 0);
    let head: &[u8] = vstd::slice::slice_subrange(field, 0, end);
    assert(head@ =~= field@.take(end as int));
    text::lossy(head)
}

/// Bytes as one number, most significant first.
pub open spec fn big_endian(s: Seq<u8>) -> nat
    decreases s.len(),
{
    if s.len() == 0 {
        0
    } else {
        big_endian(s.drop_last()) * 256 + s.last() as nat
    }
}

/// Where the digits of an octal field end: at a NUL or a space.
pub open spec fn octal_end(field: Seq<u8>, i: int) -> int
    decreases field.len() - i,
{
    if i >= field.len() || field[i] == 0 || field[i] == 32 {
        i
    } else {
        octal_end(field, i + 1)
    }
}

/// The digits of an octal field, as text.
pub open spec fn octal_text(field: Seq<u8>) -> Seq<char> {
    text::trim(text::ascii(field.take(octal_end(field, 0))))
}

/// The last eight bytes of a field, or all of a shorter one.
pub open spec fn last_eight(field: Seq<u8>) -> Seq<u8> {
    if field.len() > 8 {
        field.skip(field.len() - 8)
    } else {
        field
    }
}

/// The number an octal field holds, or `None` for one that is malformed.
///
/// A field whose top bit is set holds the number in binary, its last 63 bits
/// counting. A blank field holds zero.
pub open spec fn octal_value(field: Seq<u8>) -> Option<u64> {
    if field.len() > 0 && field[0] >= 128 {
        Some((big_endian(last_eight(field)) % 0x8000_0000_0000_0000) as u64)
    } else if octal_text(field).len() == 0 {
        Some(0)
    } else {
        match text::whole_number(octal_text(field), 8) {
            Some(n) => if n <= u64::MAX {
                Some(n as u64)
            } else {
                None
            },
            None => None,
        }
    }
}

/// What is reported of a field that is no number.
pub open spec fn bad_octal(field: Seq<u8>) -> Seq<char> {
    "malformed octal field '"@ + octal_text(field) + "' in tar header"@
}

/// A byte more makes at most 256 times as much.
proof fn lemma_big_endian_bound(s: Seq<u8>)
    requires
        s.len() <= 8,
    ensures
        s.len() <= 7 ==> big_endian(s) < 0x100_0000_0000_0000,
        s.len() <= 6 ==> big_endian(s) < 0x1_0000_0000_0000,
        s.len() <= 5 ==> big_endian(s) < 0x100_0000_0000,
        s.len() <= 4 ==> big_endian(s) < 0x1_0000_0000,
        s.len() <= 3 ==> big_endian(s) < 0x100_0000,
        s.len() <= 2 ==> big_endian(s) < 0x1_0000,
        s.len() <= 1 ==> big_endian(s) < 0x100,
        s.len() == 0 ==> big_endian(s) == 0,
        big_endian(s) <= u64::MAX,
    decreases s.len(),
{
    if s.len() > 0 {
        lemma_big_endian_bound(s.drop_last());
    }
}

/// Read one of tar's octal number fields.
///
/// GNU marks values too large for octal by setting the top bit and storing
/// them big-endian binary — which is how a file over 8 GiB records its size.
pub fn octal(field: &[u8]) -> (r: Result<u64>)
    ensures
        match r {
            Ok(n) => octal_value(field@) == Some(n),
            Err(e) => octal_value(field@) is None && (e matches Error::InvalidPath(m) && m@
                == bad_octal(field@)),
        },
{
    if field.len() > 0 && field[0] >= 128 {
        let start: usize = if field.len() > 8 {
            field.len() - 8
        } else {
            0
        };
        let tail: &[u8] = vstd::slice::slice_subrange(field, start, field.len());
        assert(tail@ =~= last_eight(field@));
        let mut value: u64 = 0;
        let mut i: usize = 0;
        while i < tail.len()
            invariant
                i <= tail@.len(),
                tail@.len() <= 8,
                value == big_endian(tail@.take(i as int)),
            decreases tail.len() - i,
        {
            proof {
                assert(tail@.take(i + 1).drop_last() =~= tail@.take(i as int));
                lemma_big_endian_bound(tail@.take(i as int));
            }
            value = value * 256 + tail[i] as u64;
            i += 1;
        }
        assert(tail@.take(i as int) =~= tail@);
        return Ok(value % 0x8000_0000_0000_0000);
    }
    let mut end: usize = 0;
    while end < field.len() && field[end] != 0 && field[end] != 32
        invariant
            end <= field@.len(),
            octal_end(field@, 0) == octal_end(field@, end as int),
        decreases field.len() - end,
    {
        end += 1;
    }
    let head: &[u8] = vstd::slice::slice_subrange(field, 0, end);
    assert(head@ =~= field@.take(end as int));
    let chars: Vec<char> = text::latin1(head);
    let digits: &[char] = text::trimmed(chars.as_slice());
    assert(digits@ == octal_text(field@));
    if digits.len() == 0 {
        return Ok(0);
    }
    match text::parse_whole(digits, 8, u64::MAX) {
        Some(n) => Ok(n),
        None => {
            let mut m: String = "malformed octal field '".to_owned();
            text::push_chars(&mut m, digits);
            m.append("' in tar header");
            Err(Error::InvalidPath(m))
        },
    }
}

/// A path without the `./` and the slashes it opens with, in whatever order
/// they come.
pub open spec fn without_front(path: Seq<char>) -> Seq<char>
    decreases path.len(),
{
    if path.len() >= 2 && path[0] == '.' && path[1] == '/' {
        without_front(path.skip(2))
    } else if path.len() > 0 && path[0] == '/' {
        without_front(path.skip(1))
    } else {
        path
    }
}

/// A path without the slashes it opens with.
pub open spec fn without_leading(path: Seq<char>) -> Seq<char>
    decreases path.len(),
{
    if path.len() > 0 && path[0] == '/' {
        without_leading(path.skip(1))
    } else {
        path
    }
}

/// A path without the slashes it closes with.
pub open spec fn without_trailing(path: Seq<char>) -> Seq<char>
    decreases path.len(),
{
    if path.len() > 0 && path.last() == '/' {
        without_trailing(path.drop_last())
    } else {
        path
    }
}

/// The one way a path is written: no `./` and no slash in front, no slash at
/// the end.
pub open spec fn normal(path: Seq<char>) -> Seq<char> {
    without_trailing(without_front(path))
}

/// Whether a path is written in that way.
pub open spec fn is_normal(path: Seq<char>) -> bool {
    &&& path.len() >= 2 ==> !(path[0] == '.' && path[1] == '/')
    &&& path.len() > 0 ==> path[0] != '/' && path.last() != '/'
}

/// What is left of a path's front is its end, and opens with neither.
proof fn lemma_without_front(path: Seq<char>) -> (from: int)
    ensures
        0 <= from <= path.len(),
        without_front(path) == path.skip(from),
        without_front(path).len() >= 2 ==> !(without_front(path)[0] == '.' && without_front(path)[1]
            == '/'),
        without_front(path).len() > 0 ==> without_front(path)[0] != '/',
    decreases path.len(),
{
    if path.len() >= 2 && path[0] == '.' && path[1] == '/' {
        let n = lemma_without_front(path.skip(2));
        assert(path.skip(2).skip(n) =~= path.skip(n + 2));
        n + 2
    } else if path.len() > 0 && path[0] == '/' {
        let n = lemma_without_front(path.skip(1));
        assert(path.skip(1).skip(n) =~= path.skip(n + 1));
        n + 1
    } else {
        assert(path.skip(0) =~= path);
        0
    }
}

/// What is left of a path's end is its beginning, and closes with no slash.
proof fn lemma_without_trailing(path: Seq<char>) -> (to: int)
    ensures
        0 <= to <= path.len(),
        without_trailing(path) == path.take(to),
        without_trailing(path).len() > 0 ==> without_trailing(path).last() != '/',
    decreases path.len(),
{
    if path.len() > 0 && path.last() == '/' {
        let n = lemma_without_trailing(path.drop_last());
        assert(path.drop_last().take(n) =~= path.take(n));
        n
    } else {
        assert(path.take(path.len() as int) =~= path);
        path.len() as int
    }
}

/// Normalising takes a part of a path, which is written in the one way; what
/// is written in that way already is left as it is, so that normalising twice
/// changes nothing more.
pub proof fn law_normal_is_stable(path: Seq<char>)
    ensures
        is_normal(normal(path)),
        normal(normal(path)) == normal(path),
        is_normal(path) ==> normal(path) == path,
        exists|from: int, to: int|
            0 <= from <= to <= path.len() && normal(path) == #[trigger] path.subrange(from, to),
{
    let from = lemma_without_front(path);
    let front = without_front(path);
    let n = lemma_without_trailing(front);
    assert(normal(path) =~= path.subrange(from, from + n));
}

/// Archives carry `./etc/passwd` and `/etc/passwd` alike; pick one.
pub fn normalise(path: &str) -> (s: String)
    ensures
        s@ == normal(path@),
        is_normal(s@),
        normal(s@) == s@,
{
    let chars: Vec<char> = text::chars_of(path);
    let mut lo: usize = 0;
    let mut hi: usize = chars.len();
    assert(chars@.skip(0) =~= chars@);
    while lo < hi && (chars[lo] == '/' || (hi - lo >= 2 && chars[lo] == '.' && chars[lo + 1]
        == '/'))
        invariant
            lo <= hi,
            hi == chars@.len(),
            without_front(path@) == without_front(chars@.skip(lo as int)),
        decreases hi - lo,
    {
        if chars[lo] == '/' {
            assert(chars@.skip(lo as int).skip(1) =~= chars@.skip(lo + 1));
            lo += 1;
        } else {
            assert(chars@.skip(lo as int).skip(2) =~= chars@.skip(lo + 2));
            lo += 2;
        }
    }
    assert(chars@.subrange(lo as int, hi as int) =~= chars@.skip(lo as int));
    while lo < hi && chars[hi - 1] == '/'
        invariant
            lo <= hi <= chars@.len(),
            normal(path@) == without_trailing(chars@.subrange(lo as int, hi as int)),
        decreases hi,
    {
        assert(chars@.subrange(lo as int, hi as int).drop_last() =~= chars@.subrange(
            lo as int,
            hi - 1,
        ));
        hi -= 1;
    }
    let kept: &[char] = vstd::slice::slice_subrange(chars.as_slice(), lo, hi);
    let mut s: String = String::new();
    text::push_chars(&mut s, kept);
    assert(s@ =~= kept@);
    proof {
        law_normal_is_stable(path@);
    }
    s
}

/// Where the last component of a path begins.
pub open spec fn last_start(path: Seq<char>, i: int) -> int
    decreases i,
{
    if i <= 0 || path[i - 1] == '/' {
        i
    } else {
        last_start(path, i - 1)
    }
}

/// The last component of a path.
pub open spec fn last_component(path: Seq<char>) -> Seq<char> {
    path.skip(last_start(path, path.len() as int))
}

/// The last component of a path, for naming a PAX header after its entry.
pub fn basename(path: &str) -> (s: String)
    ensures
        s@ == last_component(path@),
{
    let chars: Vec<char> = text::chars_of(path);
    let mut lo: usize = chars.len();
    while lo > 0 && chars[lo - 1] != '/'
        invariant
            lo <= chars@.len(),
            last_start(chars@, chars@.len() as int) == last_start(chars@, lo as int),
        decreases lo,
    {
        lo -= 1;
    }
    let kept: &[char] = vstd::slice::slice_subrange(chars.as_slice(), lo, chars.len());
    let mut s: String = String::new();
    text::push_chars(&mut s, kept);
    assert(s@ =~= chars@.skip(lo as int));
    s
}

/// The first separator from `i` on at which a path splits into a prefix of at
/// most 155 bytes and a name of at most 100, or the end.
pub open spec fn split_point(path: Seq<u8>, i: int) -> int
    decreases path.len() - i,
{
    if i >= path.len() || (path[i] == 47 && i <= 155 && path.len() - i - 1 <= 100) {
        i
    } else {
        split_point(path, i + 1)
    }
}

/// The first character that begins at byte `i` or later.
pub open spec fn boundary_from(path: Seq<u8>, i: int) -> int
    decreases path.len() - i,
{
    if i >= path.len() || vstd::utf8::is_char_boundary(path, i) {
        i
    } else {
        boundary_from(path, i + 1)
    }
}

/// What goes into ustar's `name` and `prefix` fields. A path that does not
/// split keeps the last characters that fit.
pub open spec fn name_and_prefix(path: Seq<u8>) -> (Seq<u8>, Seq<u8>) {
    let i = split_point(path, 0);
    if path.len() <= 100 {
        (path, Seq::empty())
    } else if i < path.len() {
        (path.skip(i + 1), path.take(i))
    } else {
        (path.skip(boundary_from(path, path.len() - 100)), Seq::empty())
    }
}

/// Both parts fit their fields.
pub proof fn lemma_split_fits(path: Seq<u8>, i: int)
    requires
        0 <= i <= path.len(),
    ensures
        i <= split_point(path, i) <= path.len(),
        i <= boundary_from(path, i) <= path.len(),
        split_point(path, i) < path.len() ==> {
            let k = split_point(path, i);
            path[k] == 47 && k <= 155 && path.len() - k - 1 <= 100
        },
    decreases path.len() - i,
{
    if i < path.len() {
        lemma_split_fits(path, i + 1);
    }
}

/// Split a path into ustar's `name` and `prefix` fields.
pub fn split_name(path: &str) -> (r: (&str, &str))
    ensures
        text::utf8(r.0@) == name_and_prefix(text::utf8(path@)).0,
        text::utf8(r.1@) == name_and_prefix(text::utf8(path@)).1,
        text::utf8(r.0@).len() <= 100,
        text::utf8(r.1@).len() <= 155,
{
    let bytes: &[u8] = path.as_bytes();
    let len: usize = bytes.len();
    let ghost b = text::utf8(path@);
    assert(text::utf8(""@) =~= Seq::<u8>::empty()) by {
        reveal_strlit("");
    }
    proof {
        vstd::utf8::encode_utf8_valid_utf8(path@);
        lemma_split_fits(b, 0);
    }
    if len <= 100 {
        return (path, "");
    }
    // The split has to fall on a separator, and both halves have to fit.
    let mut i: usize = 0;
    while i < len
        invariant
            i <= len,
            len == b.len(),
            len > 100,
            bytes@ == b,
            b == text::utf8(path@),
            vstd::utf8::valid_utf8(b),
            split_point(b, 0) == split_point(b, i as int),
        decreases len - i,
    {
        if bytes[i] == 47 && i <= 155 && len - i - 1 <= 100 {
            proof {
                vstd::utf8::is_char_boundary_iff_not_is_continuation_byte(b, i as int);
            }
            let (prefix, rest) = path.split_at(i);
            proof {
                vstd::utf8::valid_utf8_split(b, i as int);
                let tail = text::utf8(rest@);
                assert(tail[0] == 47);
                assert(vstd::utf8::length_of_first_scalar(tail) == 1);
                assert(vstd::utf8::pop_first_scalar(tail) =~= tail.skip(1));
                reveal_with_fuel(vstd::utf8::is_char_boundary, 2);
            }
            let (_, name) = rest.split_at(1);
            assert(text::utf8(name@) =~= b.skip(i + 1));
            assert(text::utf8(prefix@) =~= b.take(i as int));
            return (name, prefix);
        }
        i += 1;
    }
    let mut start: usize = len - 100;
    while start < len && !path.is_char_boundary(start)
        invariant
            len - 100 <= start <= len,
            len == b.len(),
            len > 100,
            b == text::utf8(path@),
            boundary_from(b, len - 100) == boundary_from(b, start as int),
        decreases len - start,
    {
        start += 1;
    }
    proof {
        vstd::utf8::is_char_boundary_start_end_of_seq(b);
    }
    let (_, name) = path.split_at(start);
    assert(text::utf8(name@) =~= b.skip(start as int));
    (name, "")
}

/// A `/` or a `./` that a path opens with is dropped.
pub proof fn law_normal_drops_what_paths_open_with(path: Seq<char>)
    ensures
        normal(seq!['/'] + path) == normal(path),
        normal(seq!['.', '/'] + path) == normal(path),
{
    let a = seq!['/'] + path;
    let b = seq!['.', '/'] + path;
    assert(a.skip(1) =~= path);
    assert(b.skip(2) =~= path);
    assert(a[0] == '/');
    assert(b[0] == '.' && b[1] == '/');
}

/// Slashes that a path closes with are dropped, and no more of it is.
pub proof fn law_normal_drops_closing_slashes(path: Seq<char>, slashes: Seq<char>)
    requires
        path.len() > 0,
        path[0] != '/',
        path[0] == '.' ==> path.len() >= 2 && path[1] != '/',
        path.last() != '/',
        forall|i: int| 0 <= i < slashes.len() ==> #[trigger] slashes[i] == '/',
    ensures
        normal(path + slashes) == path,
    decreases slashes.len(),
{
    let all = path + slashes;
    assert(all[0] == path[0]);
    if path.len() >= 2 {
        assert(all[1] == path[1]);
    }
    assert(without_front(all) == all);
    lemma_closing_slashes(path, slashes);
}

proof fn lemma_closing_slashes(path: Seq<char>, slashes: Seq<char>)
    requires
        path.len() > 0,
        path.last() != '/',
        forall|i: int| 0 <= i < slashes.len() ==> #[trigger] slashes[i] == '/',
    ensures
        without_trailing(path + slashes) == path,
    decreases slashes.len(),
{
    let all = path + slashes;
    if slashes.len() == 0 {
        assert(all =~= path);
    } else {
        assert(all.last() == slashes[slashes.len() - 1]);
        assert(all.drop_last() =~= path + slashes.drop_last());
        lemma_closing_slashes(path, slashes.drop_last());
    }
}

/// The last component of a path is what stands behind its last `/`, or all of a
/// path without one.
pub proof fn law_last_component_stands_behind_the_last_slash(dir: Seq<char>, name: Seq<char>)
    requires
        forall|i: int| 0 <= i < name.len() ==> #[trigger] name[i] != '/',
    ensures
        last_component(name) == name,
        last_component(dir.push('/') + name) == name,
{
    lemma_last_start(Seq::empty(), name, name.len() as int);
    assert(Seq::<char>::empty() + name =~= name);
    assert(name.skip(0) =~= name);
    let front = dir.push('/');
    lemma_last_start(front, name, (front.len() + name.len()) as int);
    assert((front + name).skip(front.len() as int) =~= name);
}

proof fn lemma_last_start(front: Seq<char>, name: Seq<char>, i: int)
    requires
        front.len() <= i <= front.len() + name.len(),
        front.len() > 0 ==> front.last() == '/',
        forall|k: int| 0 <= k < name.len() ==> #[trigger] name[k] != '/',
    ensures
        last_start(front + name, i) == front.len(),
    decreases i,
{
    let all = front + name;
    if i > front.len() {
        assert(all[i - 1] == name[i - 1 - front.len()]);
        lemma_last_start(front, name, i - 1);
    } else if i > 0 {
        assert(all[i - 1] == front.last());
    }
}

} // verus!
