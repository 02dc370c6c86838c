//! Bitmaps: one bit to a block or an inode, set when it is in use.

use vstd::prelude::*;

verus! {

/// Whether bit `k` of a byte is set.
pub open spec fn bit_of(byte: u8, k: u8) -> bool {
    (byte >> k) & 1 == 1
}

/// Whether bit `i` of a bitmap is set, the lowest bit of each byte first.
pub open spec fn bit(map: Seq<u8>, i: int) -> bool {
    bit_of(map[i / 8], (i % 8) as u8)
}

/// `map` with bit `i` set or cleared.
pub open spec fn with_bit(map: Seq<u8>, i: int, on: bool) -> Seq<u8> {
    let k = (i % 8) as u8;
    map.update(
        i / 8,
        if on {
            map[i / 8] | (1u8 << k)
        } else {
            map[i / 8] & !(1u8 << k)
        },
    )
}

/// How many of the first `n` bits are clear.
pub open spec fn clear_bits(map: Seq<u8>, n: nat) -> nat
    decreases n,
{
    if n == 0 {
        0
    } else {
        clear_bits(map, (n - 1) as nat) + if bit(map, n - 1) {
            0nat
        } else {
            1nat
        }
    }
}

/// The first clear bit from `i` on, or `n` when there is none below it.
pub open spec fn first_clear(map: Seq<u8>, i: int, n: int) -> int
    decreases n - i,
{
    if i >= n || !bit(map, i) {
        i
    } else {
        first_clear(map, i + 1, n)
    }
}

/// The first clear bit below `n` looking from `from` on and then from the
/// start.
pub open spec fn clear_near(map: Seq<u8>, from: int, n: int) -> Option<int> {
    let a = first_clear(map, from, n);
    let b = first_clear(map, 0, from);
    if a < n {
        Some(a)
    } else if b < from {
        Some(b)
    } else {
        None
    }
}

/// Setting or clearing a bit does that, and leaves the others alone.
pub proof fn lemma_with_bit(map: Seq<u8>, i: int, on: bool)
    requires
        0 <= i < 8 * map.len(),
    ensures
        with_bit(map, i, on).len() == map.len(),
        bit(with_bit(map, i, on), i) == on,
        forall|j: int|
            0 <= j < 8 * map.len() && j != i ==> #[trigger] bit(with_bit(map, i, on), j) == bit(
                map,
                j,
            ),
{
    let k = (i % 8) as u8;
    let x = map[i / 8];
    assert(bit_of(x | (1u8 << k), k) && !bit_of(x & !(1u8 << k), k)) by (bit_vector)
        requires
            k < 8,
    ;
    assert forall|j: int| 0 <= j < 8 * map.len() && j != i implies #[trigger] bit(
        with_bit(map, i, on),
        j,
    ) == bit(map, j) by {
        let l = (j % 8) as u8;
        if j / 8 == i / 8 {
            assert(bit_of(x | (1u8 << k), l) == bit_of(x, l) && bit_of(x & !(1u8 << k), l)
                == bit_of(x, l)) by (bit_vector)
                requires
                    k < 8,
                    l < 8,
                    k != l,
            ;
        }
    }
}

/// Changing a bit changes the count by one.
pub proof fn lemma_count_with_bit(map: Seq<u8>, i: int, on: bool, n: nat)
    requires
        0 <= i < 8 * map.len(),
        n <= 8 * map.len(),
        bit(map, i) != on,
    ensures
        i >= n ==> clear_bits(with_bit(map, i, on), n) == clear_bits(map, n),
        i < n && on ==> clear_bits(with_bit(map, i, on), n) + 1 == clear_bits(map, n),
        i < n && !on ==> clear_bits(with_bit(map, i, on), n) == clear_bits(map, n) + 1,
    decreases n,
{
    if n > 0 {
        lemma_with_bit(map, i, on);
        lemma_count_with_bit(map, i, on, (n - 1) as nat);
        if n - 1 != i {
            assert(bit(with_bit(map, i, on), n - 1) == bit(map, n - 1));
        }
    }
}

/// Putting a bit back restores the bitmap.
pub proof fn lemma_bit_back(map: Seq<u8>, i: int, on: bool)
    requires
        0 <= i < 8 * map.len(),
        bit(map, i) != on,
    ensures
        with_bit(with_bit(map, i, on), i, !on) == map,
{
    let k = (i % 8) as u8;
    let x = map[i / 8];
    if on {
        assert((x | (1u8 << k)) & !(1u8 << k) == x) by (bit_vector)
            requires
                k < 8,
                !bit_of(x, k),
        ;
    } else {
        assert((x & !(1u8 << k)) | (1u8 << k) == x) by (bit_vector)
            requires
                k < 8,
                bit_of(x, k),
        ;
    }
    assert(with_bit(with_bit(map, i, on), i, !on) =~= map);
}

/// What looking for a clear bit finds.
pub proof fn lemma_first_clear(map: Seq<u8>, i: int, n: int)
    requires
        i <= n,
    ensures
        i <= first_clear(map, i, n) <= n,
        first_clear(map, i, n) < n ==> !bit(map, first_clear(map, i, n)),
        forall|j: int| i <= j < first_clear(map, i, n) ==> bit(map, j),
    decreases n - i,
{
    if i < n && bit(map, i) {
        lemma_first_clear(map, i + 1, n);
    }
}

/// Looking from anywhere finds a clear bit exactly when one is there.
pub proof fn lemma_clear_near(map: Seq<u8>, from: int, n: int)
    requires
        0 <= from <= n,
    ensures
        match clear_near(map, from, n) {
            Some(i) => 0 <= i < n && !bit(map, i),
            None => forall|j: int| 0 <= j < n ==> bit(map, j),
        },
{
    lemma_first_clear(map, from, n);
    lemma_first_clear(map, 0, from);
}

/// Whether bit `i` is set.
pub fn test_bit(map: &Vec<u8>, i: u64) -> (r: bool)
    requires
        i < 8 * map@.len(),
    ensures
        r == bit(map@, i as int),
{
    assert(map.len() == map@.len());
    let k: u8 = (i % 8) as u8;
    let at: usize = (i / 8) as usize;
    let byte: u8 = map[at];
    (byte >> k) & 1 == 1
}

/// Set or clear bit `i`.
pub fn set_bit(map: &mut Vec<u8>, i: u64, on: bool)
    requires
        i < 8 * old(map)@.len(),
    ensures
        final(map)@ == with_bit(old(map)@, i as int, on),
{
    assert(map.len() == map@.len());
    let k: u8 = (i % 8) as u8;
    let at: usize = (i / 8) as usize;
    let byte: u8 = if on {
        map[at] | (1u8 << k)
    } else {
        map[at] & !(1u8 << k)
    };
    map.set(at, byte);
}

/// The first clear bit from `from` up to `n`, or `n`.
fn scan_clear(map: &Vec<u8>, from: u64, n: u64) -> (i: u64)
    requires
        from <= n <= 8 * map@.len(),
    ensures
        i == first_clear(map@, from as int, n as int),
        from <= i <= n,
{
    let mut i: u64 = from;
    while i < n && test_bit(map, i)
        invariant
            from <= i <= n,
            n <= 8 * map@.len(),
            first_clear(map@, from as int, n as int) == first_clear(map@, i as int, n as int),
        decreases n - i,
    {
        i += 1;
    }
    i
}

/// The first clear bit below `n`, looking from `from` on and then from the
/// start.
pub fn find_clear(map: &Vec<u8>, from: u64, n: u64) -> (r: Option<u64>)
    requires
        from <= n <= 8 * map@.len(),
    ensures
        match r {
            Some(i) => clear_near(map@, from as int, n as int) == Some(i as int) && i < n && !bit(
                map@,
                i as int,
            ),
            None => clear_near(map@, from as int, n as int) is None,
        },
{
    proof {
        lemma_clear_near(map@, from as int, n as int);
    }
    let a: u64 = scan_clear(map, from, n);
    if a < n {
        return Some(a);
    }
    let b: u64 = scan_clear(map, 0, from);
    if b < from {
        return Some(b);
    }
    None
}

/// Bits stand in their bytes from the lowest on: bit `i` is set when its byte,
/// divided by two as often as the place within the byte says, is odd.
pub proof fn law_low_bits_come_first(map: Seq<u8>, byte: int)
    requires
        0 <= byte < map.len(),
    ensures
        bit(map, 8 * byte) <==> map[byte] % 2 == 1,
        bit(map, 8 * byte + 1) <==> (map[byte] / 2) % 2 == 1,
        bit(map, 8 * byte + 2) <==> (map[byte] / 4) % 2 == 1,
        bit(map, 8 * byte + 3) <==> (map[byte] / 8) % 2 == 1,
        bit(map, 8 * byte + 4) <==> (map[byte] / 16) % 2 == 1,
        bit(map, 8 * byte + 5) <==> (map[byte] / 32) % 2 == 1,
        bit(map, 8 * byte + 6) <==> (map[byte] / 64) % 2 == 1,
        bit(map, 8 * byte + 7) <==> (map[byte] / 128) % 2 == 1,
{
    let x = map[byte];
    assert((x >> 0) & 1 == x % 2 && (x >> 1) & 1 == (x / 2) % 2 && (x >> 2) & 1 == (x / 4) % 2 && (x
        >> 3) & 1 == (x / 8) % 2 && (x >> 4) & 1 == (x / 16) % 2 && (x >> 5) & 1 == (x / 32) % 2
        && (x >> 6) & 1 == (x / 64) % 2 && (x >> 7) & 1 == (x / 128) % 2) by (bit_vector);
}

/// The clear bit that is found is the first one from where the search starts on,
/// or else the first of all.
pub proof fn law_nearest_clear_bit_is_found(map: Seq<u8>, from: int, n: int)
    requires
        0 <= from <= n,
    ensures
        match clear_near(map, from, n) {
            Some(i) => {
                &&& 0 <= i < n
                &&& !bit(map, i)
                &&& i >= from ==> forall|j: int| from <= j < i ==> bit(map, j)
                &&& i < from ==> (forall|j: int| from <= j < n ==> bit(map, j)) && (forall|j: int|
                    0 <= j < i ==> bit(map, j))
            },
            None => forall|j: int| 0 <= j < n ==> bit(map, j),
        },
{
    lemma_first_clear(map, from, n);
    lemma_first_clear(map, 0, from);
}

} // verus!
