//! Bytes: little-endian numbers, and the order names sort in.

use vstd::prelude::*;

verus! {

/// Whether `a` sorts before `b`: byte by byte, a shorter one first.
pub open spec fn sorts_before(a: Seq<u8>, b: Seq<u8>) -> bool
    decreases a.len(),
{
    if b.len() == 0 {
        false
    } else if a.len() == 0 {
        true
    } else if a[0] != b[0] {
        a[0] < b[0]
    } else {
        sorts_before(a.skip(1), b.skip(1))
    }
}

/// Whether `a` sorts before `b`.
pub fn is_before(a: &[u8], b: &[u8]) -> (r: bool)
    ensures
        r == sorts_before(a@, b@),
{
    let mut i: usize = 0;
    assert(a@.skip(0) =~= a@);
    assert(b@.skip(0) =~= b@);
    while i < a.len() && i < b.len()
        invariant
            i <= a@.len(),
            i <= b@.len(),
            sorts_before(a@, b@) == sorts_before(a@.skip(i as int), b@.skip(i as int)),
        decreases a.len() - i,
    {
        if a[i] != b[i] {
            return a[i] < b[i];
        }
        assert(a@.skip(i as int).skip(1) =~= a@.skip(i + 1));
        assert(b@.skip(i as int).skip(1) =~= b@.skip(i + 1));
        i += 1;
    }
    i < b.len()
}

/// Nothing sorts before itself.
pub proof fn lemma_order_irreflexive(a: Seq<u8>)
    ensures
        !sorts_before(a, a),
    decreases a.len(),
{
    if a.len() > 0 {
        lemma_order_irreflexive(a.skip(1));
    }
}

/// The order is transitive.
pub proof fn lemma_order_transitive(a: Seq<u8>, b: Seq<u8>, c: Seq<u8>)
    requires
        sorts_before(a, b),
        sorts_before(b, c),
    ensures
        sorts_before(a, c),
    decreases a.len(),
{
    if a.len() > 0 && b.len() > 0 && c.len() > 0 && a[0] == b[0] && b[0] == c[0] {
        lemma_order_transitive(a.skip(1), b.skip(1), c.skip(1));
    }
}

/// Of two different names, one sorts before the other.
pub proof fn lemma_order_total(a: Seq<u8>, b: Seq<u8>)
    ensures
        a == b || sorts_before(a, b) || sorts_before(b, a),
    decreases a.len(),
{
    if a.len() == 0 && b.len() == 0 {
        assert(a =~= b);
    } else if a.len() > 0 && b.len() > 0 && a[0] == b[0] {
        lemma_order_total(a.skip(1), b.skip(1));
        if a.skip(1) == b.skip(1) {
            assert(a =~= seq![a[0]] + a.skip(1));
            assert(b =~= seq![b[0]] + b.skip(1));
        }
    }
}

/// Whether two byte strings are the same.
pub fn same(a: &[u8], b: &[u8]) -> (r: bool)
    ensures
        r == (a@ == b@),
{
    if a.len() != b.len() {
        return false;
    }
    let mut i: usize = 0;
    while i < a.len()
        invariant
            i <= a@.len(),
            a@.len() == b@.len(),
            forall|j: int| 0 <= j < i ==> a@[j] == b@[j],
        decreases a.len() - i,
    {
        if a[i] != b[i] {
            return false;
        }
        i += 1;
    }
    assert(a@ =~= b@);
    true
}

/// A copy of `s`.
pub fn copy(s: &[u8]) -> (out: Vec<u8>)
    ensures
        out@ == s@,
{
    let mut out: Vec<u8> = Vec::new();
    out.extend_from_slice(s);
    assert(out@ =~= s@);
    out
}

/// A 16-bit number, low byte first.
pub open spec fn le16(n: u16) -> Seq<u8> {
    seq![(n % 256) as u8, (n / 256) as u8]
}

/// A 32-bit number, low byte first.
pub open spec fn le32(n: u32) -> Seq<u8> {
    seq![
        (n % 256) as u8,
        (n / 256 % 256) as u8,
        (n / 65536 % 256) as u8,
        (n / 16777216) as u8,
    ]
}

/// The 16-bit number at byte `at`.
pub open spec fn get16(s: Seq<u8>, at: int) -> u16 {
    (s[at] + s[at + 1] * 256) as u16
}

/// The 32-bit number at byte `at`.
pub open spec fn get32(s: Seq<u8>, at: int) -> u32 {
    (s[at] + s[at + 1] * 256 + s[at + 2] * 65536 + s[at + 3] * 16777216) as u32
}

/// `s` with `part` in place of what stood at byte `at`.
pub open spec fn overlay(s: Seq<u8>, at: int, part: Seq<u8>) -> Seq<u8> {
    Seq::new(
        s.len(),
        |i: int|
            if at <= i < at + part.len() {
                part[i - at]
            } else {
                s[i]
            },
    )
}

/// A number put down is read back.
pub proof fn lemma_get_put32(s: Seq<u8>, at: int, n: u32)
    requires
        0 <= at,
        at + 4 <= s.len(),
    ensures
        get32(overlay(s, at, le32(n)), at) == n,
{
}

/// A number put down is read back.
pub proof fn lemma_get_put16(s: Seq<u8>, at: int, n: u16)
    requires
        0 <= at,
        at + 2 <= s.len(),
    ensures
        get16(overlay(s, at, le16(n)), at) == n,
{
}

/// Read the 16-bit number at byte `at`.
pub fn read16(s: &[u8], at: usize) -> (n: u16)
    requires
        at + 2 <= s@.len(),
    ensures
        n == get16(s@, at as int),
{
    s[at] as u16 + s[at + 1] as u16 * 256
}

/// Read the 32-bit number at byte `at`.
pub fn read32(s: &[u8], at: usize) -> (n: u32)
    requires
        at + 4 <= s@.len(),
    ensures
        n == get32(s@, at as int),
{
    s[at] as u32 + s[at + 1] as u32 * 256 + s[at + 2] as u32 * 65536 + s[at + 3] as u32 * 16777216
}

/// Put a 16-bit number at byte `at`.
pub fn put16(s: &mut Vec<u8>, at: usize, n: u16)
    requires
        at + 2 <= old(s)@.len(),
    ensures
        final(s)@ == overlay(old(s)@, at as int, le16(n)),
        final(s)@.len() == old(s)@.len(),
{
    assert(s.len() == s@.len());
    s.set(at, (n % 256) as u8);
    s.set(at + 1, (n / 256) as u8);
    assert(s@ =~= overlay(old(s)@, at as int, le16(n)));
}

/// Put a 32-bit number at byte `at`.
pub fn put32(s: &mut Vec<u8>, at: usize, n: u32)
    requires
        at + 4 <= old(s)@.len(),
    ensures
        final(s)@ == overlay(old(s)@, at as int, le32(n)),
        final(s)@.len() == old(s)@.len(),
{
    assert(s.len() == s@.len());
    s.set(at, (n % 256) as u8);
    s.set(at + 1, (n / 256 % 256) as u8);
    s.set(at + 2, (n / 65536 % 256) as u8);
    s.set(at + 3, (n / 16777216) as u8);
    assert(s@ =~= overlay(old(s)@, at as int, le32(n)));
}

/// Bytes sort by the first place they differ in; what another opens with sorts
/// before it.
pub proof fn law_first_difference_decides(front: Seq<u8>, a: Seq<u8>, b: Seq<u8>)
    ensures
        a.len() > 0 && b.len() > 0 && a[0] != b[0] ==> (sorts_before(front + a, front + b)
            <==> a[0] < b[0]),
        a.len() == 0 && b.len() > 0 ==> sorts_before(front + a, front + b),
        b.len() == 0 ==> !sorts_before(front + a, front + b),
    decreases front.len(),
{
    if front.len() == 0 {
        assert(front + a =~= a);
        assert(front + b =~= b);
    } else {
        law_first_difference_decides(front.skip(1), a, b);
        assert((front + a).skip(1) =~= front.skip(1) + a);
        assert((front + b).skip(1) =~= front.skip(1) + b);
        assert((front + a)[0] == front[0]);
        assert((front + b)[0] == front[0]);
        assert((front + a).len() > 0);
    }
}

/// Numbers stand low byte first, and are read as they stand.
pub proof fn law_low_bytes_stand_first(s: Seq<u8>, at: int, short: u16, long: u32)
    requires
        0 <= at,
        at + 4 <= s.len(),
    ensures
        le16(short).len() == 2,
        le16(short)[0] + 256 * le16(short)[1] == short,
        le32(long).len() == 4,
        le32(long)[0] + 256 * le32(long)[1] + 65536 * le32(long)[2] + 16777216 * le32(long)[3]
            == long,
        get16(s, at) == s[at] + 256 * s[at + 1],
        get32(s, at) == s[at] + 256 * s[at + 1] + 65536 * s[at + 2] + 16777216 * s[at + 3],
{
}

} // verus!
