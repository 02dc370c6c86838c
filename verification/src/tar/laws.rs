//! What holds of reading and writing together.

use vstd::prelude::*;

use crate::bytes;
use crate::decimal;
use crate::tar::field;
use crate::tar::header::{self, EntryKind, HeaderView};
use crate::tar::pax;
use crate::tar::reader::{self, Carry, Fault, Reader, ReaderView, Step};
use crate::tar::stream::Source;
use crate::tar::writer::{self, WriterView};
use crate::text;

verus! {

/// Whether every byte is ASCII.
pub open spec fn all_ascii(s: Seq<u8>) -> bool {
    forall|i: int| 0 <= i < s.len() ==> s[i] < 128
}

/// ASCII bytes are their own text.
proof fn lemma_ascii_text(s: Seq<u8>)
    requires
        all_ascii(s),
    ensures
        text::lossy_text(s) == text::ascii(s),
        text::utf8(text::ascii(s)) == s,
{
    let chars = text::ascii(s);
    assert forall|i: int| 0 <= i < chars.len() implies '\0' <= #[trigger] chars[i] <= '\u{7f}' by {
        assert(s[i] < 128);
    }
    assert(vstd::utf8::is_ascii_chars(chars));
    vstd::utf8::is_ascii_chars_encode_utf8(chars);
    assert(vstd::utf8::encode_utf8(chars) =~= s) by {
        assert forall|i: int| 0 <= i < s.len() implies (#[trigger] chars[i]) as u8 == s[i] by {
            assert(s[i] < 128);
        }
    }
    vstd::utf8::encode_utf8_valid_utf8(chars);
    vstd::utf8::encode_utf8_decode_utf8(chars);
}

/// Text survives being written out and read back.
proof fn lemma_text_back(s: Seq<char>)
    ensures
        text::lossy_text(text::utf8(s)) == s,
{
    vstd::utf8::encode_utf8_valid_utf8(s);
    vstd::utf8::encode_utf8_decode_utf8(s);
}

/// The digits of a number are digits, and spell it.
proof fn lemma_digits_spell(n: nat, base: nat)
    requires
        2 <= base <= 10,
    ensures
        text::digits(n, base).len() >= 1,
        forall|i: int| 0 <= i < text::digits(n, base).len() ==> 48 <= #[trigger] text::digits(
            n,
            base,
        )[i] < 48 + base,
        text::all_digits(text::ascii(text::digits(n, base)), base),
        text::digits_value(text::ascii(text::digits(n, base)), base) == n,
    decreases n,
{
    let ds = text::digits(n, base);
    let cs = text::ascii(ds);
    if n < base {
        assert(cs.drop_last() =~= Seq::<char>::empty());
        assert(text::digits_value(cs.drop_last(), base) == 0);
        assert(0 * base == 0);
    } else {
        vstd::arithmetic::div_mod::lemma_div_decreases(n as int, base as int);
        vstd::arithmetic::div_mod::lemma_mod_bound(n as int, base as int);
        lemma_digits_spell(n / base, base);
        let init = text::digits(n / base, base);
        assert(cs.drop_last() =~= text::ascii(init));
        assert(ds.last() == (48 + n % base) as u8);
        vstd::arithmetic::div_mod::lemma_fundamental_div_mod(n as int, base as int);
        assert((n / base) * base + n % base == n) by (nonlinear_arith)
            requires
                n == base * (n / base) + n % base,
        ;
        assert forall|i: int| 0 <= i < ds.len() implies 48 <= #[trigger] ds[i] < 48 + base by {
            if i < init.len() {
                assert(ds[i] == init[i]);
            }
        }
    }
    assert forall|i: int| 0 <= i < cs.len() implies 48 <= ((#[trigger] cs[i]) as int) < 48
        + base by {
        assert(48 <= ds[i] < 48 + base);
    }
}

/// Trimming keeps text with nothing white at its ends.
proof fn lemma_trim_keeps(s: Seq<char>)
    requires
        s.len() > 0 ==> !text::is_white(s[0]) && !text::is_white(s.last()),
    ensures
        text::trim(s) == s,
{
}

/// A number's own digits are read back as the number.
proof fn lemma_whole_number_back(n: nat, base: nat)
    requires
        2 <= base <= 10,
    ensures
        text::trim(text::ascii(text::digits(n, base))) == text::ascii(text::digits(n, base)),
        text::whole_number(text::ascii(text::digits(n, base)), base) == Some(n),
{
    lemma_digits_spell(n, base);
    let ds = text::digits(n, base);
    let cs = text::ascii(ds);
    assert(48 <= ds[0] < 58);
    assert(48 <= ds[ds.len() - 1] < 58);
    lemma_trim_keeps(cs);
}

/// A number's own decimal digits are read back as the number, to double
/// precision.
proof fn lemma_decimal_read(n: nat)
    ensures
        decimal::number(text::trim(text::lossy_text(text::digits(n, 10)))) == Some(
            decimal::saturated(n, 0, 0),
        ),
{
    lemma_digits_spell(n, 10);
    lemma_whole_number_back(n, 10);
    let ds = text::digits(n, 10);
    let s = text::ascii(ds);
    lemma_ascii_text(ds);
    assert(48 <= ds[0] < 58);
    assert(decimal::unsigned(s) == s);
    assert(decimal::lower(s[0]) == s[0]);
    assert(!decimal::same_word(s, seq!['i', 'n', 'f'])) by {
        assert(seq!['i', 'n', 'f'][0] == 'i');
    }
    assert(!decimal::same_word(s, seq!['i', 'n', 'f', 'i', 'n', 'i', 't', 'y'])) by {
        assert(seq!['i', 'n', 'f', 'i', 'n', 'i', 't', 'y'][0] == 'i');
    }
    assert(!decimal::same_word(s, seq!['n', 'a', 'n'])) by {
        assert(seq!['n', 'a', 'n'][0] == 'n');
    }
    lemma_no_letter(s, 0, 'e', 'E');
    lemma_no_letter(s, 0, '.', '.');
    assert(s.take(s.len() as int) =~= s);
    assert(decimal::mantissa_digits(s) =~= s);
    assert(decimal::scientific(s) == Some((s, s.len() as int)));
    assert(decimal::whole_part(s, s.len() as int) =~= s);
    assert(decimal::frac_part(s, s.len() as int) =~= Seq::<char>::empty());
    assert(text::digits_value(Seq::<char>::empty(), 10) == 0);
}

/// Double precision holds every number of fewer than 54 bits exactly.
pub proof fn law_lengths_are_exact(n: nat)
    requires
        n < 0x20_0000_0000_0000,
    ensures
        decimal::saturated(n, 0, 0) == n,
{
    assert(decimal::tens(0) == 1);
    vstd::arithmetic::power2::lemma2_to64();
    vstd::arithmetic::power2::lemma2_to64_rest();
    let t: nat = if n == 0 {
        53
    } else {
        (52 - decimal::top_bit(n)) as nat
    };
    let p = vstd::arithmetic::power2::pow2(t);
    vstd::arithmetic::power2::lemma_pow2_pos(t);
    assert((n * 1 + 0) * p == n * p);
    let num = n * p;
    assert(num / 1 == num);
    assert(num % 1 == 0);
    assert(num / p == n) by {
        vstd::arithmetic::div_mod::lemma_div_multiples_vanish(n as int, p as int);
        assert(n * p == p * n) by (nonlinear_arith);
    }
}

/// Digits hold no sign of a point or a power.
proof fn lemma_no_letter(s: Seq<char>, i: int, a: char, b: char)
    requires
        text::all_digits(s, 10),
        0 <= i <= s.len(),
        (a as int) < 48 || (a as int) >= 58,
        (b as int) < 48 || (b as int) >= 58,
    ensures
        decimal::first_of(s, i, a, b) == s.len(),
    decreases s.len() - i,
{
    if i < s.len() {
        assert(48 <= (s[i] as int) < 58);
        lemma_no_letter(s, i + 1, a, b);
    }
}

/// A byte that is first found at `k` is found there.
pub(crate) proof fn lemma_found_at(s: Seq<u8>, i: int, k: int, b: u8)
    requires
        0 <= i <= k <= s.len(),
        k < s.len() ==> s[k] == b,
        forall|j: int| i <= j < k ==> s[j] != b,
    ensures
        field::find_byte(s, i, b) == k,
    decreases k - i,
{
    if i < k {
        lemma_found_at(s, i + 1, k, b);
    }
}

/// Numbers take few digits.
proof fn lemma_digits_short(n: nat)
    ensures
        text::digits(n, 10).len() <= 1 + n / 10,
    decreases n,
{
    if n >= 10 {
        lemma_digits_short(n / 10);
    }
}

/// Looking from `n` upwards finds a length that counts itself.
proof fn lemma_declared_exists(rest: nat, n: nat) -> (found: nat)
    requires
        text::digits(n, 10).len() + rest >= n,
        forall|m: nat| m < n ==> !#[trigger] pax::counts_itself(rest, m),
        n <= 2 * rest + 10,
    ensures
        pax::is_declared(rest, found),
    decreases 2 * rest + 10 - n,
{
    if pax::counts_itself(rest, n) {
        n
    } else {
        if n == 2 * rest + 10 {
            lemma_digits_short(n);
        }
        pax::lemma_digits_grow(n, n + 1);
        lemma_declared_exists(rest, n + 1)
    }
}

/// Every record has a length that counts its own digits, and its layout is
/// exactly that long.
pub proof fn law_record_counts_itself(key: Seq<u8>, value: Seq<u8>)
    ensures
        pax::record(key, value).len() == pax::declared(key.len() + value.len() + 3),
        pax::record(key, value).last() == 10,
{
    let rest = key.len() + value.len() + 3;
    assert forall|m: nat| m < rest + 1 implies !#[trigger] pax::counts_itself(rest, m) by {
        assert(text::digits(m, 10).len() >= 1);
    }
    assert(text::digits(rest + 1, 10).len() >= 1);
    let n = lemma_declared_exists(rest, rest + 1);
    assert(pax::is_declared(rest, pax::declared(rest)));
}

/// Whether a key can stand in front of the `=` that ends it.
pub open spec fn is_key(key: Seq<char>) -> bool {
    forall|i: int| 0 <= i < text::utf8(key).len() ==> text::utf8(key)[i] != 61
}

/// Records put one after another into an empty list.
pub open spec fn put_all(records: Seq<(Seq<char>, Seq<u8>)>) -> Seq<(Seq<char>, Seq<u8>)>
    decreases records.len(),
{
    if records.len() == 0 {
        Seq::empty()
    } else {
        pax::put(put_all(records.drop_last()), records.last().0, records.last().1)
    }
}

/// A record in the middle of a body is read as what it was built from.
proof fn lemma_record_read(
    before: Seq<u8>,
    key: Seq<char>,
    value: Seq<u8>,
    after: Seq<u8>,
    known: Seq<(Seq<char>, Seq<u8>)>,
)
    requires
        is_key(key),
        pax::record(text::utf8(key), value).len() <= usize::MAX,
    ensures
        ({
            let r = pax::record(text::utf8(key), value);
            let body = before + r + after;
            pax::parsed_from(body, before.len() as int, known) == pax::parsed_from(
                body,
                (before.len() + r.len()) as int,
                pax::put(known, key, value),
            )
        }),
{
    let k = text::utf8(key);
    let r = pax::record(k, value);
    let body = before + r + after;
    let at = before.len() as int;
    let n = pax::declared(k.len() + value.len() + 3);
    let ds = text::digits(n, 10);
    law_record_counts_itself(k, value);
    lemma_digits_spell(n, 10);
    let space = at + ds.len();
    assert forall|j: int| at <= j < space implies body[j] != 32 by {
        assert(body[j] == ds[j - at]);
    }
    assert(body[space] == 32);
    lemma_found_at(body, at, space, 32);
    assert(body.subrange(at, space) =~= ds);
    assert(all_ascii(ds)) by {
        assert forall|i: int| 0 <= i < ds.len() implies ds[i] < 128 by {
            assert(ds[i] < 58);
        }
    }
    lemma_ascii_text(ds);
    lemma_whole_number_back(n, 10);
    assert(pax::record_length(ds) == Some(n));
    let line = body.subrange(space + 1, at + n);
    assert(line =~= k + seq![61u8] + value + seq![10u8]);
    assert forall|j: int| 0 <= j < k.len() implies line[j] != 61 by {
        assert(line[j] == k[j]);
    }
    lemma_found_at(line, 0, k.len() as int, 61);
    assert(line.take(k.len() as int) =~= k);
    lemma_text_back(key);
    let tail = line.skip((k.len() + 1) as int);
    assert(tail =~= value + seq![10u8]);
    assert(tail.drop_last() =~= value);
}

/// What is built first stands first.
proof fn lemma_built_prefix(records: Seq<(Seq<char>, Seq<u8>)>, i: int) -> (after: Seq<u8>)
    requires
        0 <= i <= records.len(),
    ensures
        pax::built(records) == pax::built(records.take(i)) + after,
    decreases records.len(),
{
    if i == records.len() {
        assert(records.take(i) =~= records);
        assert(pax::built(records) =~= pax::built(records) + Seq::<u8>::empty());
        Seq::empty()
    } else {
        let last = pax::record(text::utf8(records.last().0), records.last().1);
        let after = lemma_built_prefix(records.drop_last(), i);
        assert(records.drop_last().take(i) =~= records.take(i));
        assert(pax::built(records) =~= pax::built(records.take(i)) + (after + last));
        after + last
    }
}

proof fn lemma_parsed_along(records: Seq<(Seq<char>, Seq<u8>)>, i: int)
    requires
        0 <= i <= records.len(),
        forall|j: int| 0 <= j < records.len() ==> is_key(#[trigger] records[j].0),
        pax::built(records).len() <= usize::MAX,
    ensures
        pax::parsed(pax::built(records)) == pax::parsed_from(
            pax::built(records),
            pax::built(records.take(i)).len() as int,
            put_all(records.take(i)),
        ),
    decreases i,
{
    if i == 0 {
        assert(records.take(0) =~= Seq::empty());
    } else {
        lemma_parsed_along(records, i - 1);
        let after = lemma_built_prefix(records, i);
        let (key, value) = records[i - 1];
        let before = pax::built(records.take(i - 1));
        let r = pax::record(text::utf8(key), value);
        assert(records.take(i).drop_last() =~= records.take(i - 1));
        assert(records.take(i).last() == records[i - 1]);
        assert(pax::built(records.take(i)) == before + r);
        assert(is_key(records[i - 1].0));
        lemma_record_read(before, key, value, after, put_all(records.take(i - 1)));
    }
}

/// Records read back from a PAX header are those it was built from, sorted by
/// key, the last one under a key counting.
pub proof fn law_pax_round_trip(records: Seq<(Seq<char>, Seq<u8>)>)
    requires
        forall|i: int| 0 <= i < records.len() ==> is_key(#[trigger] records[i].0),
        pax::built(records).len() <= usize::MAX,
    ensures
        pax::parsed(pax::built(records)) == Some(put_all(records)),
{
    lemma_parsed_along(records, records.len() as int);
    assert(records.take(records.len() as int) =~= records);
}

/// A record put under a key is found there.
pub proof fn law_put_is_found(
    records: Seq<(Seq<char>, Seq<u8>)>,
    key: Seq<char>,
    value: Seq<u8>,
)
    ensures
        pax::lookup(pax::put(records, key, value), key) == Some(value),
    decreases records.len(),
{
    let new = pax::put(records, key, value);
    if records.len() > 0 && records[0].0 != key && !bytes::sorts_before(
        text::utf8(key),
        text::utf8(records[0].0),
    ) {
        law_put_is_found(records.skip(1), key, value);
        assert(new.skip(1) =~= pax::put(records.skip(1), key, value));
    }
}

/// Putting a record leaves what stands under other keys alone.
pub proof fn law_put_keeps_others(
    records: Seq<(Seq<char>, Seq<u8>)>,
    key: Seq<char>,
    value: Seq<u8>,
    other: Seq<char>,
)
    requires
        other != key,
    ensures
        pax::lookup(pax::put(records, key, value), other) == pax::lookup(records, other),
    decreases records.len(),
{
    let new = pax::put(records, key, value);
    if records.len() == 0 {
        assert(new.skip(1) =~= Seq::empty());
        assert(pax::lookup(Seq::empty(), other) is None);
    } else if records[0].0 == key {
        assert(new.skip(1) =~= records.skip(1));
    } else if bytes::sorts_before(text::utf8(key), text::utf8(records[0].0)) {
        assert(new.skip(1) =~= records);
    } else {
        law_put_keeps_others(records.skip(1), key, value, other);
        assert(new.skip(1) =~= pax::put(records.skip(1), key, value));
    }
}

/// The last octal digits of a number are digits, and spell what they hold.
pub(crate) proof fn lemma_octal_spell(v: nat, w: nat)
    ensures
        header::octal_digits(v, w).len() == w,
        forall|i: int| 0 <= i < w ==> 48 <= #[trigger] header::octal_digits(v, w)[i] < 56,
        text::all_digits(text::ascii(header::octal_digits(v, w)), 8),
        v < eights(w) ==> text::digits_value(text::ascii(header::octal_digits(v, w)), 8) == v,
        text::digits_value(text::ascii(header::octal_digits(v, w)), 8) < eights(w),
    decreases w,
{
    let ds = header::octal_digits(v, w);
    let cs = text::ascii(ds);
    if w > 0 {
        lemma_octal_spell(v / 8, (w - 1) as nat);
        let init = header::octal_digits(v / 8, (w - 1) as nat);
        assert(cs.drop_last() =~= text::ascii(init));
        assert(ds.last() == (48 + v % 8) as u8);
        assert forall|i: int| 0 <= i < ds.len() implies 48 <= #[trigger] ds[i] < 56 by {
            if i < init.len() {
                assert(ds[i] == init[i]);
            }
        }
    }
    assert forall|i: int| 0 <= i < cs.len() implies 48 <= ((#[trigger] cs[i]) as int) < 56 by {
        assert(48 <= ds[i] < 56);
    }
}

/// Eight to the power `n`.
pub open spec fn eights(n: nat) -> nat
    decreases n,
{
    if n == 0 {
        1
    } else {
        8 * eights((n - 1) as nat)
    }
}

proof fn lemma_octal_ends(s: Seq<u8>, i: int, k: int)
    requires
        0 <= i <= k < s.len(),
        s[k] == 0,
        forall|j: int| i <= j < k ==> s[j] != 0 && s[j] != 32,
    ensures
        field::octal_end(s, i) == k,
    decreases k - i,
{
    if i < k {
        lemma_octal_ends(s, i + 1, k);
    }
}

/// A number in an octal field is read back, where it fits.
proof fn lemma_octal_back(v: nat, w: nat)
    requires
        eights(w) <= u64::MAX,
        w >= 1,
    ensures
        field::octal_value(header::octal_digits(v, w).push(0)) is Some,
        v < eights(w) ==> field::octal_value(header::octal_digits(v, w).push(0)) == Some(v as u64),
{
    let ds = header::octal_digits(v, w);
    let f = ds.push(0);
    lemma_octal_spell(v, w);
    assert forall|j: int| 0 <= j < w implies f[j] != 0 && f[j] != 32 by {
        assert(f[j] == ds[j]);
    }
    assert(f[0] == ds[0]);
    lemma_octal_ends(f, 0, w as int);
    assert(f.take(w as int) =~= ds);
    let cs = text::ascii(ds);
    assert(48 <= ds[0] < 56);
    assert(48 <= ds[w - 1] < 56);
    lemma_trim_keeps(cs);
}

/// A path's name and prefix fit their fields.
pub(crate) proof fn lemma_name_fits(path: Seq<u8>)
    ensures
        field::name_and_prefix(path).0.len() <= 100,
        field::name_and_prefix(path).1.len() <= 155,
        path.len() <= 100 ==> field::name_and_prefix(path) == (path, Seq::<u8>::empty()),
{
    field::lemma_split_fits(path, 0);
    if path.len() > 100 {
        field::lemma_split_fits(path, path.len() - 100);
    }
}

/// What each number field of a header block holds.
pub(crate) proof fn lemma_number_fields(h: HeaderView, flag: u8)
    ensures
        ({
            let b = header::encoded(h, flag);
            let size = if flag == 48 || flag == 120 {
                h.size as nat
            } else {
                0
            };
            &&& b.len() == 512
            &&& b[156] == flag
            &&& b[257] == 117
            &&& b.subrange(100, 108) == header::octal_digits(h.mode as nat, 7).push(0)
            &&& b.subrange(108, 116) == header::octal_digits(header::clamped(h.uid), 7).push(0)
            &&& b.subrange(116, 124) == header::octal_digits(header::clamped(h.gid), 7).push(0)
            &&& b.subrange(124, 136) == header::octal_digits(size, 11).push(0)
            &&& b.subrange(136, 148) == header::octal_digits(h.mtime as nat, 11).push(0)
        }),
{
    let b = header::encoded(h, flag);
    let size = if flag == 48 || flag == 120 {
        h.size as nat
    } else {
        0
    };
    lemma_name_fits(text::utf8(h.path));
    lemma_octal_spell(h.mode as nat, 7);
    lemma_octal_spell(header::clamped(h.uid), 7);
    lemma_octal_spell(header::clamped(h.gid), 7);
    lemma_octal_spell(size, 11);
    lemma_octal_spell(h.mtime as nat, 11);
    lemma_octal_spell(h.major as nat, 7);
    lemma_octal_spell(h.minor as nat, 7);
    lemma_octal_spell(header::byte_sum(header::all_fields(h, flag)), 6);
    assert(b.subrange(100, 108) =~= header::octal_digits(h.mode as nat, 7).push(0));
    assert(b.subrange(108, 116) =~= header::octal_digits(header::clamped(h.uid), 7).push(0));
    assert(b.subrange(116, 124) =~= header::octal_digits(header::clamped(h.gid), 7).push(0));
    assert(b.subrange(124, 136) =~= header::octal_digits(size, 11).push(0));
    assert(b.subrange(136, 148) =~= header::octal_digits(h.mtime as nat, 11).push(0));
}

/// Each of the name, link, prefix and device fields of a header block holds
/// what belongs to it and nothing else, however long the others would be.
pub proof fn law_fields_stay_apart(h: HeaderView, flag: u8)
    ensures
        ({
            let b = header::encoded(h, flag);
            let (name, prefix) = field::name_and_prefix(text::utf8(h.path));
            let link = text::utf8(h.link);
            &&& b.subrange(0, 100) == name + writer::zeros((100 - name.len()) as nat)
            &&& link.len() <= 100 ==> b.subrange(157, 257) == link + writer::zeros(
                (100 - link.len()) as nat,
            )
            &&& link.len() > 100 ==> b.subrange(157, 257) == link.take(100)
            &&& b.subrange(265, 329) == writer::zeros(64)
            &&& b.subrange(345, 500) == prefix + writer::zeros((155 - prefix.len()) as nat)
            &&& b.subrange(329, 337) == header::octal_digits(h.major as nat, 7).push(0)
            &&& b.subrange(337, 345) == header::octal_digits(h.minor as nat, 7).push(0)
        }),
{
    let b = header::encoded(h, flag);
    let (name, prefix) = field::name_and_prefix(text::utf8(h.path));
    let link = text::utf8(h.link);
    let size = if flag == 48 || flag == 120 {
        h.size as nat
    } else {
        0
    };
    lemma_name_fits(text::utf8(h.path));
    lemma_octal_spell(h.mode as nat, 7);
    lemma_octal_spell(header::clamped(h.uid), 7);
    lemma_octal_spell(header::clamped(h.gid), 7);
    lemma_octal_spell(size, 11);
    lemma_octal_spell(h.mtime as nat, 11);
    lemma_octal_spell(h.major as nat, 7);
    lemma_octal_spell(h.minor as nat, 7);
    lemma_octal_spell(header::byte_sum(header::all_fields(h, flag)), 6);
    assert(b.subrange(0, 100) =~= name + writer::zeros((100 - name.len()) as nat));
    if link.len() <= 100 {
        assert(b.subrange(157, 257) =~= link + writer::zeros((100 - link.len()) as nat));
    } else {
        assert(b.subrange(157, 257) =~= link.take(100));
    }
    assert(b.subrange(265, 329) =~= writer::zeros(64));
    assert(b.subrange(345, 500) =~= prefix + writer::zeros((155 - prefix.len()) as nat));
    assert(b.subrange(329, 337) =~= header::octal_digits(h.major as nat, 7).push(0));
    assert(b.subrange(337, 345) =~= header::octal_digits(h.minor as nat, 7).push(0));
}

/// Whether text can stand in a NUL-padded field.
pub open spec fn no_nul(s: Seq<char>) -> bool {
    forall|i: int| 0 <= i < text::utf8(s).len() ==> text::utf8(s)[i] != 0
}

/// Text in a NUL-padded field is read back.
proof fn lemma_field_back(s: Seq<char>, n: nat)
    requires
        no_nul(s),
    ensures
        field::field_text(text::utf8(s) + writer::zeros(n)) == s,
{
    let b = text::utf8(s);
    let f = b + writer::zeros(n);
    assert forall|j: int| 0 <= j < b.len() implies f[j] != 0 by {
        assert(f[j] == b[j]);
    }
    lemma_found_at(f, 0, b.len() as int, 0);
    assert(f.take(b.len() as int) =~= b);
    lemma_text_back(s);
}

/// Text put together is its parts' bytes put together.
proof fn lemma_utf8_joins(a: Seq<char>, b: Seq<char>)
    ensures
        text::utf8(a + b) == text::utf8(a) + text::utf8(b),
    decreases a.len(),
{
    if a.len() == 0 {
        assert(a + b =~= b);
        assert(text::utf8(a) + text::utf8(b) =~= text::utf8(b));
    } else {
        lemma_utf8_joins(a.drop_first(), b);
        assert((a + b).drop_first() =~= a.drop_first() + b);
        assert((a + b)[0] == a[0]);
        let head = vstd::utf8::encode_scalar(a[0] as u32);
        assert(head + (text::utf8(a.drop_first()) + text::utf8(b)) =~= (head + text::utf8(
            a.drop_first(),
        )) + text::utf8(b));
    }
}

/// What the extended-attribute prefix is.
proof fn lemma_prefix()
    ensures
        "SCHILY.xattr."@.len() == 13,
        "SCHILY.xattr."@[0] == 'S',
        text::utf8("SCHILY.xattr."@).len() == 13,
        text::utf8("SCHILY.xattr."@)[0] == 83,
        is_key("SCHILY.xattr."@),
{
    reveal_strlit("SCHILY.xattr.");
    let s = "SCHILY.xattr."@;
    assert(vstd::utf8::is_ascii_chars(s));
    vstd::utf8::is_ascii_chars_encode_utf8(s);
    assert forall|i: int| 0 <= i < text::utf8(s).len() implies text::utf8(s)[i] != 61 by {
        assert(s[i] != '=');
    }
}

/// The keys of the records that stand for fixed-width fields.
pub open spec fn is_plain_key(k: Seq<char>) -> bool {
    k == "path"@ || k == "linkpath"@ || k == "uid"@ || k == "gid"@ || k == "size"@
}

/// None of those keys is an extended attribute's, and all sort behind those.
proof fn lemma_plain_keys(k: Seq<char>)
    requires
        is_plain_key(k),
    ensures
        k.len() > 0,
        k[0] != 'S',
        text::utf8(k).len() > 0,
        text::utf8(k)[0] > 83,
        is_key(k),
        !reader::opens_with(k, "SCHILY.xattr."@),
{
    reveal_strlit("path");
    reveal_strlit("linkpath");
    reveal_strlit("uid");
    reveal_strlit("gid");
    reveal_strlit("size");
    lemma_prefix();
    assert(vstd::utf8::is_ascii_chars(k));
    vstd::utf8::is_ascii_chars_encode_utf8(k);
    assert forall|i: int| 0 <= i < text::utf8(k).len() implies text::utf8(k)[i] != 61 by {
        assert(k[i] != '=');
    }
    if reader::opens_with(k, "SCHILY.xattr."@) {
        assert(k.take(13)[0] == 'S');
    }
}

/// The keys are different from each other and from those never written.
proof fn lemma_keys_differ()
    ensures
        "path"@ != "linkpath"@,
        "path"@ != "uid"@,
        "path"@ != "gid"@,
        "linkpath"@ != "uid"@,
        "linkpath"@ != "gid"@,
        "uid"@ != "gid"@,
        "size"@ != "path"@,
        "size"@ != "linkpath"@,
        "size"@ != "uid"@,
        "size"@ != "gid"@,
        !is_plain_key("mtime"@),
        "mtime"@[0] != 'S',
        "mtime"@.len() > 0,
{
    reveal_strlit("path");
    reveal_strlit("linkpath");
    reveal_strlit("uid");
    reveal_strlit("gid");
    reveal_strlit("size");
    reveal_strlit("mtime");
    assert("path"@[0] == 'p');
    assert("linkpath"@[0] == 'l');
    assert("uid"@[0] == 'u');
    assert("gid"@[0] == 'g');
    assert("size"@[0] == 's');
    assert("mtime"@[0] == 'm');
}

/// Putting under a plain key leaves plain keys only.
proof fn lemma_put_keys(records: Seq<(Seq<char>, Seq<u8>)>, key: Seq<char>, value: Seq<u8>)
    requires
        is_plain_key(key),
        forall|i: int| 0 <= i < records.len() ==> is_plain_key(#[trigger] records[i].0),
    ensures
        forall|i: int|
            0 <= i < pax::put(records, key, value).len() ==> is_plain_key(
                #[trigger] pax::put(records, key, value)[i].0,
            ),
    decreases records.len(),
{
    let new = pax::put(records, key, value);
    if records.len() > 0 && records[0].0 != key && !bytes::sorts_before(
        text::utf8(key),
        text::utf8(records[0].0),
    ) {
        lemma_put_keys(records.skip(1), key, value);
        let rest = pax::put(records.skip(1), key, value);
        assert(is_plain_key(records[0].0));
        assert forall|i: int| 0 <= i < new.len() implies is_plain_key(#[trigger] new[i].0) by {
            if i > 0 {
                assert(new[i] == rest[i - 1]);
            }
        }
    } else if records.len() > 0 && records[0].0 != key {
        assert forall|i: int| 0 <= i < new.len() implies is_plain_key(#[trigger] new[i].0) by {
            if i > 0 {
                assert(new[i] == records[i - 1]);
            }
        }
    }
}

/// A record added behind others is put after them.
proof fn lemma_put_all_if(
    records: Seq<(Seq<char>, Seq<u8>)>,
    needed: bool,
    key: Seq<char>,
    value: Seq<u8>,
)
    ensures
        put_all(records + writer::record_if(needed, key, value)) == (if needed {
            pax::put(put_all(records), key, value)
        } else {
            put_all(records)
        }),
{
    let more = records + writer::record_if(needed, key, value);
    if needed {
        assert(more.drop_last() =~= records);
        assert(more.last() == (key, value));
    } else {
        assert(more =~= records);
    }
}

/// The records that stand for fixed-width fields.
pub open spec fn fixed_records(h: HeaderView) -> Seq<(Seq<char>, Seq<u8>)> {
    writer::record_if(text::utf8(h.path).len() > 100, "path"@, text::utf8(h.path))
        + writer::record_if(text::utf8(h.link).len() > 100, "linkpath"@, text::utf8(h.link))
        + writer::record_if(h.uid > 0o7777777, "uid"@, writer::decimal_bytes(h.uid))
        + writer::record_if(h.gid > 0o7777777, "gid"@, writer::decimal_bytes(h.gid))
        + writer::record_if(
        writer::content_size(h) > 0o77777777777,
        "size"@,
        text::digits(writer::content_size(h), 10),
    )
}

/// A value that is recorded only when it is needed.
pub open spec fn some_if(needed: bool, value: Seq<u8>) -> Option<Seq<u8>> {
    if needed {
        Some(value)
    } else {
        None
    }
}

/// What is found among the records that stand for fixed-width fields.
#[verifier::spinoff_prover]
proof fn lemma_fixed_lookups(h: HeaderView)
    ensures
        ({
            let f = put_all(fixed_records(h));
            &&& forall|i: int| 0 <= i < f.len() ==> is_plain_key(#[trigger] f[i].0)
            &&& pax::lookup(f, "path"@) == some_if(
                text::utf8(h.path).len() > 100,
                text::utf8(h.path),
            )
            &&& pax::lookup(f, "linkpath"@) == some_if(
                text::utf8(h.link).len() > 100,
                text::utf8(h.link),
            )
            &&& pax::lookup(f, "uid"@) == some_if(h.uid > 0o7777777, writer::decimal_bytes(h.uid))
            &&& pax::lookup(f, "gid"@) == some_if(h.gid > 0o7777777, writer::decimal_bytes(h.gid))
            &&& pax::lookup(f, "size"@) == some_if(
                writer::content_size(h) > 0o77777777777,
                text::digits(writer::content_size(h), 10),
            )
            &&& pax::lookup(f, "mtime"@) is None
        }),
{
    lemma_keys_differ();
    let c1 = text::utf8(h.path).len() > 100;
    let c2 = text::utf8(h.link).len() > 100;
    let c3 = h.uid > 0o7777777;
    let c4 = h.gid > 0o7777777;
    let r0 = Seq::<(Seq<char>, Seq<u8>)>::empty();
    let r1 = r0 + writer::record_if(c1, "path"@, text::utf8(h.path));
    let r2 = r1 + writer::record_if(c2, "linkpath"@, text::utf8(h.link));
    let r3 = r2 + writer::record_if(c3, "uid"@, writer::decimal_bytes(h.uid));
    let r4 = r3 + writer::record_if(c4, "gid"@, writer::decimal_bytes(h.gid));
    let c5 = writer::content_size(h) > 0o77777777777;
    let size = text::digits(writer::content_size(h), 10);
    let r5 = r4 + writer::record_if(c5, "size"@, size);
    assert(r1 =~= writer::record_if(c1, "path"@, text::utf8(h.path)));
    assert(r5 == fixed_records(h));
    lemma_lookup_step(r0, c1, "path"@, text::utf8(h.path));
    lemma_lookup_step(r1, c2, "linkpath"@, text::utf8(h.link));
    lemma_lookup_step(r2, c3, "uid"@, writer::decimal_bytes(h.uid));
    lemma_lookup_step(r3, c4, "gid"@, writer::decimal_bytes(h.gid));
    lemma_lookup_step(r4, c5, "size"@, size);
    assert(put_all(r0) == r0);
}

/// One record more, and what it changes.
proof fn lemma_lookup_step(
    records: Seq<(Seq<char>, Seq<u8>)>,
    needed: bool,
    key: Seq<char>,
    value: Seq<u8>,
)
    requires
        is_plain_key(key),
        forall|i: int|
            0 <= i < put_all(records).len() ==> is_plain_key(#[trigger] put_all(records)[i].0),
    ensures
        ({
            let new = put_all(records + writer::record_if(needed, key, value));
            &&& forall|i: int| 0 <= i < new.len() ==> is_plain_key(#[trigger] new[i].0)
            &&& needed ==> pax::lookup(new, key) == Some(value)
            &&& !needed ==> new == put_all(records)
            &&& forall|k: Seq<char>|
                k != key ==> #[trigger] pax::lookup(new, k) == pax::lookup(put_all(records), k)
        }),
{
    lemma_put_all_if(records, needed, key, value);
    if needed {
        lemma_put_keys(put_all(records), key, value);
        law_put_is_found(put_all(records), key, value);
        assert forall|k: Seq<char>| k != key implies #[trigger] pax::lookup(
            pax::put(put_all(records), key, value),
            k,
        ) == pax::lookup(put_all(records), k) by {
            law_put_keeps_others(put_all(records), key, value, k);
        }
    }
}

/// A record that sorts in front of a run is put in front of it.
proof fn lemma_put_in_front(
    xs: Seq<(Seq<char>, Seq<u8>)>,
    f: Seq<(Seq<char>, Seq<u8>)>,
    key: Seq<char>,
    value: Seq<u8>,
)
    requires
        f.len() > 0 ==> f[0].0 != key && bytes::sorts_before(text::utf8(key), text::utf8(f[0].0)),
    ensures
        pax::put(xs + f, key, value) == pax::put(xs, key, value) + f,
    decreases xs.len(),
{
    let all = xs + f;
    if xs.len() == 0 {
        assert(all =~= f);
        if f.len() == 0 {
            assert(seq![(key, value)] + f =~= seq![(key, value)]);
        }
    } else {
        assert(all[0] == xs[0]);
        assert(all.skip(1) =~= xs.skip(1) + f);
        if xs[0].0 == key {
            assert(all.update(0, (key, value)) =~= xs.update(0, (key, value)) + f);
        } else if bytes::sorts_before(text::utf8(key), text::utf8(xs[0].0)) {
            assert(seq![(key, value)] + all =~= (seq![(key, value)] + xs) + f);
        } else {
            lemma_put_in_front(xs.skip(1), f, key, value);
            let rest = pax::put(xs.skip(1), key, value);
            assert(seq![xs[0]] + (rest + f) =~= (seq![xs[0]] + rest) + f);
        }
    }
}

/// No name twice.
pub open spec fn distinct_names(xattrs: Seq<(Seq<char>, Seq<u8>)>) -> bool {
    forall|i: int, j: int|
        0 <= i < j < xattrs.len() ==> (#[trigger] xattrs[i]).0 != (#[trigger] xattrs[j]).0
}

/// Extended attributes as records.
pub open spec fn xattr_records(xattrs: Seq<(Seq<char>, Seq<u8>)>) -> Seq<(Seq<char>, Seq<u8>)> {
    xattrs.map_values(|x: (Seq<char>, Seq<u8>)| writer::as_record(x))
}

/// Whether every record is an extended attribute's.
pub open spec fn all_xattrs(records: Seq<(Seq<char>, Seq<u8>)>) -> bool {
    forall|i: int|
        0 <= i < records.len() ==> reader::opens_with(
            (#[trigger] records[i]).0,
            "SCHILY.xattr."@,
        )
}

/// The extended attributes that records stand for.
pub open spec fn stripped(records: Seq<(Seq<char>, Seq<u8>)>) -> Seq<(Seq<char>, Seq<u8>)> {
    records.map_values(
        |r: (Seq<char>, Seq<u8>)| (r.0.skip("SCHILY.xattr."@.len() as int), r.1),
    )
}

/// An extended attribute put among others is one more of them.
proof fn lemma_put_adds(xs: Seq<(Seq<char>, Seq<u8>)>, name: Seq<char>, value: Seq<u8>)
    requires
        all_xattrs(xs),
        forall|i: int| 0 <= i < xs.len() ==> (#[trigger] xs[i]).0 != "SCHILY.xattr."@ + name,
    ensures
        ({
            let new = pax::put(xs, "SCHILY.xattr."@ + name, value);
            &&& all_xattrs(new)
            &&& stripped(new).to_multiset() == stripped(xs).to_multiset().insert((name, value))
        }),
    decreases xs.len(),
{
    broadcast use vstd::seq_lib::group_to_multiset_ensures;

    let p = "SCHILY.xattr."@;
    let key = p + name;
    let new = pax::put(xs, key, value);
    let one = seq![(key, value)];
    lemma_prefix();
    assert(key.take(p.len() as int) =~= p);
    assert(key.skip(p.len() as int) =~= name);
    assert(stripped(one) =~= Seq::empty().push((name, value)));
    if xs.len() == 0 {
        assert(stripped(xs) =~= Seq::empty());
    } else if bytes::sorts_before(text::utf8(key), text::utf8(xs[0].0)) {
        assert(xs[0].0 != key);
        assert(new == one + xs);
        assert(stripped(new) =~= stripped(one) + stripped(xs));
        vstd::seq_lib::lemma_multiset_commutative(stripped(one), stripped(xs));
        assert(stripped(new).to_multiset() =~= stripped(xs).to_multiset().insert((name, value)));
        assert forall|i: int| 0 <= i < new.len() implies reader::opens_with(
            (#[trigger] new[i]).0,
            p,
        ) by {
            if i > 0 {
                assert(new[i] == xs[i - 1]);
            }
        }
    } else {
        assert(xs[0].0 != key);
        let rest = xs.skip(1);
        assert forall|i: int| 0 <= i < rest.len() implies (#[trigger] rest[i]).0 != key
            && reader::opens_with(rest[i].0, p) by {
            assert(rest[i] == xs[i + 1]);
        }
        lemma_put_adds(rest, name, value);
        let more = pax::put(rest, key, value);
        let head = seq![xs[0]];
        assert(new == head + more);
        assert(stripped(new) =~= stripped(head) + stripped(more));
        assert(stripped(xs) =~= stripped(head) + stripped(rest));
        vstd::seq_lib::lemma_multiset_commutative(stripped(head), stripped(more));
        vstd::seq_lib::lemma_multiset_commutative(stripped(head), stripped(rest));
        assert(stripped(new).to_multiset() =~= stripped(xs).to_multiset().insert((name, value)));
        assert forall|i: int| 0 <= i < new.len() implies reader::opens_with(
            (#[trigger] new[i]).0,
            p,
        ) by {
            if i > 0 {
                assert(new[i] == more[i - 1]);
            } else {
                assert(new[i] == xs[0]);
            }
        }
    }
}

/// Extended attributes, put behind the other records, come to stand in front
/// of them, each of them once.
proof fn lemma_put_all_xattrs(
    fixed: Seq<(Seq<char>, Seq<u8>)>,
    xattrs: Seq<(Seq<char>, Seq<u8>)>,
    n: int,
) -> (xs: Seq<(Seq<char>, Seq<u8>)>)
    requires
        0 <= n <= xattrs.len(),
        distinct_names(xattrs),
        forall|i: int|
            0 <= i < put_all(fixed).len() ==> is_plain_key(#[trigger] put_all(fixed)[i].0),
    ensures
        put_all(fixed + xattr_records(xattrs).take(n)) == xs + put_all(fixed),
        all_xattrs(xs),
        stripped(xs).to_multiset() == xattrs.take(n).to_multiset(),
    decreases n,
{
    broadcast use vstd::seq_lib::group_to_multiset_ensures;

    let recs = xattr_records(xattrs);
    let f = put_all(fixed);
    if n == 0 {
        let xs = Seq::<(Seq<char>, Seq<u8>)>::empty();
        assert(fixed + recs.take(0) =~= fixed);
        assert(xs + f =~= f);
        assert(stripped(xs) =~= xattrs.take(0));
        xs
    } else {
        let xs = lemma_put_all_xattrs(fixed, xattrs, n - 1);
        let all = fixed + recs.take(n);
        assert(all.drop_last() =~= fixed + recs.take(n - 1));
        assert(all.last() == recs[n - 1]);
        let (name, value) = xattrs[n - 1];
        let p = "SCHILY.xattr."@;
        let key = p + name;
        assert(recs[n - 1] == (key, value));
        lemma_prefix();
        lemma_utf8_joins(p, name);
        assert forall|i: int| 0 <= i < xs.len() implies (#[trigger] xs[i]).0 != key by {
            if xs[i].0 == key {
                assert(key.skip(p.len() as int) =~= name);
                let x = stripped(xs)[i];
                assert(stripped(xs).contains(x));
                assert(stripped(xs).to_multiset().count(x) > 0);
                assert(xattrs.take(n - 1).to_multiset().count(x) > 0);
                assert(xattrs.take(n - 1).contains(x));
                let k = choose|k: int|
                    0 <= k < xattrs.take(n - 1).len() && #[trigger] xattrs.take(n - 1)[k] == x;
                assert(xattrs[k] == x);
                assert(xattrs[k].0 == xattrs[n - 1].0);
            }
        }
        if f.len() > 0 {
            assert(is_plain_key(f[0].0));
            lemma_plain_keys(f[0].0);
            assert(text::utf8(key)[0] == 83);
            assert(key[0] == 'S');
        }
        lemma_put_in_front(xs, f, key, value);
        lemma_put_adds(xs, name, value);
        assert(xattrs.take(n) =~= xattrs.take(n - 1).push((name, value)));
        pax::put(xs, key, value)
    }
}

/// Keys of extended attributes are no plain keys.
proof fn lemma_lookup_past_xattrs(
    xs: Seq<(Seq<char>, Seq<u8>)>,
    f: Seq<(Seq<char>, Seq<u8>)>,
    key: Seq<char>,
)
    requires
        all_xattrs(xs),
        key.len() > 0,
        key[0] != 'S',
    ensures
        pax::lookup(xs + f, key) == pax::lookup(f, key),
    decreases xs.len(),
{
    if xs.len() == 0 {
        assert(xs + f =~= f);
    } else {
        lemma_prefix();
        assert((xs + f)[0] == xs[0]);
        assert(reader::opens_with(xs[0].0, "SCHILY.xattr."@));
        assert(xs[0].0.take(13)[0] == 'S');
        let rest = xs.skip(1);
        assert forall|i: int| 0 <= i < rest.len() implies reader::opens_with(
            (#[trigger] rest[i]).0,
            "SCHILY.xattr."@,
        ) by {
            assert(rest[i] == xs[i + 1]);
        }
        lemma_lookup_past_xattrs(rest, f, key);
        assert((xs + f).skip(1) =~= rest + f);
    }
}

/// The extended attributes among records are those that some of them stand
/// for.
proof fn lemma_xattrs_found(xs: Seq<(Seq<char>, Seq<u8>)>, f: Seq<(Seq<char>, Seq<u8>)>)
    requires
        all_xattrs(xs),
        forall|i: int| 0 <= i < f.len() ==> is_plain_key(#[trigger] f[i].0),
    ensures
        reader::xattrs_in(xs + f) == stripped(xs),
    decreases xs.len() + f.len(),
{
    let all = xs + f;
    if f.len() > 0 {
        assert(all.drop_last() =~= xs + f.drop_last());
        assert forall|i: int| 0 <= i < f.drop_last().len() implies is_plain_key(
            #[trigger] f.drop_last()[i].0,
        ) by {
            assert(f.drop_last()[i] == f[i]);
        }
        assert(is_plain_key(f[f.len() - 1].0));
        lemma_plain_keys(f.last().0);
        lemma_xattrs_found(xs, f.drop_last());
    } else if xs.len() > 0 {
        let init = xs.drop_last();
        assert forall|i: int| 0 <= i < init.len() implies reader::opens_with(
            (#[trigger] init[i]).0,
            "SCHILY.xattr."@,
        ) by {
            assert(init[i] == xs[i]);
        }
        lemma_xattrs_found(init, f);
        assert(all.drop_last() =~= init + f);
        assert(all.last() == xs[xs.len() - 1]);
        assert(reader::opens_with(xs[xs.len() - 1].0, "SCHILY.xattr."@));
        assert(stripped(init).push(stripped(xs).last()) =~= stripped(xs));
    } else {
        assert(all =~= Seq::empty());
        assert(stripped(xs) =~= Seq::empty());
    }
}

/// Whether a kind of entry is a device node.
pub open spec fn is_device(kind: EntryKind) -> bool {
    kind == EntryKind::CharDevice || kind == EntryKind::BlockDevice
}

/// The entries an archive carries faithfully: paths in the one way they are
/// written, numbers within their fields, extended attributes with no name
/// twice. Contents too long for their field are counted in a record, which is
/// read to double precision.
pub open spec fn faithful(h: HeaderView, data: Seq<u8>) -> bool {
    &&& field::is_normal(h.path)
    &&& text::utf8(h.path).len() <= 100 ==> no_nul(h.path)
    &&& text::utf8(h.link).len() <= 100 ==> no_nul(h.link)
    &&& h.mode <= 0o7777
    &&& is_device(h.kind) ==> h.major <= 0o7777777 && h.minor <= 0o7777777
    &&& h.kind == EntryKind::File ==> {
        &&& data.len() <= u64::MAX
        &&& data.len() > 0o77777777777 ==> decimal::saturated(data.len(), 0, 0) == data.len()
    }
    &&& distinct_names(h.xattrs)
    &&& forall|i: int| 0 <= i < h.xattrs.len() ==> is_key(#[trigger] h.xattrs[i].0)
    &&& pax::built(writer::needed_records(writer::sized(h, data))).len() <= 0o77777777777
    &&& pax::built(writer::needed_records(writer::sized(h, data))).len() <= usize::MAX
}

/// Whether a header read back describes the entry that was written: equal in
/// everything, but that only a file has a size, and extended attributes have no
/// order. Device numbers that do not fit their fields are lost, which no device
/// node has.
pub open spec fn same_entry(a: HeaderView, b: HeaderView) -> bool {
    &&& a.path == b.path
    &&& a.kind == b.kind
    &&& a.mode == b.mode
    &&& a.uid == b.uid
    &&& a.gid == b.gid
    &&& a.mtime == b.mtime
    &&& a.size == writer::content_size(b)
    &&& a.link == b.link
    &&& a.xattrs.to_multiset() == b.xattrs.to_multiset()
    &&& is_device(a.kind) || b.major <= 0o7777777 ==> a.major == b.major
    &&& is_device(a.kind) || b.minor <= 0o7777777 ==> a.minor == b.minor
}

proof fn lemma_needed_parts(h: HeaderView)
    ensures
        writer::needed_records(h) == fixed_records(h) + xattr_records(h.xattrs),
{
    assert(writer::needed_records(h) =~= fixed_records(h) + xattr_records(h.xattrs));
}

proof fn lemma_eights()
    ensures
        eights(6) == 0o1000000,
        eights(7) == 0o10000000,
        eights(11) == 0o100000000000,
{
    reveal_with_fuel(eights, 12);
}

/// What an entry's records hold once they are read back.
proof fn lemma_records_back(h: HeaderView)
    requires
        distinct_names(h.xattrs),
    ensures
        ({
            let p = put_all(writer::needed_records(h));
            let none = Seq::<(Seq<char>, Seq<u8>)>::empty();
            &&& (reader::xattrs_in(p) + reader::xattrs_in(none)).to_multiset()
                == h.xattrs.to_multiset()
            &&& reader::recorded(p, none, "path"@) == some_if(
                text::utf8(h.path).len() > 100,
                text::utf8(h.path),
            )
            &&& reader::recorded(p, none, "linkpath"@) == some_if(
                text::utf8(h.link).len() > 100,
                text::utf8(h.link),
            )
            &&& reader::recorded(p, none, "uid"@) == some_if(
                h.uid > 0o7777777,
                writer::decimal_bytes(h.uid),
            )
            &&& reader::recorded(p, none, "gid"@) == some_if(
                h.gid > 0o7777777,
                writer::decimal_bytes(h.gid),
            )
            &&& reader::recorded(p, none, "size"@) == some_if(
                writer::content_size(h) > 0o77777777777,
                text::digits(writer::content_size(h), 10),
            )
            &&& reader::recorded(p, none, "mtime"@) is None
        }),
{
    let fixed = fixed_records(h);
    let recs = xattr_records(h.xattrs);
    let f = put_all(fixed);
    lemma_needed_parts(h);
    lemma_fixed_lookups(h);
    let xs = lemma_put_all_xattrs(fixed, h.xattrs, h.xattrs.len() as int);
    assert(recs.take(recs.len() as int) =~= recs);
    assert(h.xattrs.take(h.xattrs.len() as int) =~= h.xattrs);
    assert(put_all(writer::needed_records(h)) == xs + f);
    lemma_xattrs_found(xs, f);
    lemma_keys_differ();
    lemma_plain_keys("path"@);
    lemma_plain_keys("linkpath"@);
    lemma_plain_keys("uid"@);
    lemma_plain_keys("gid"@);
    lemma_plain_keys("size"@);
    lemma_lookup_past_xattrs(xs, f, "path"@);
    lemma_lookup_past_xattrs(xs, f, "linkpath"@);
    lemma_lookup_past_xattrs(xs, f, "uid"@);
    lemma_lookup_past_xattrs(xs, f, "gid"@);
    lemma_lookup_past_xattrs(xs, f, "size"@);
    lemma_lookup_past_xattrs(xs, f, "mtime"@);
    assert(stripped(xs) + Seq::<(Seq<char>, Seq<u8>)>::empty() =~= stripped(xs));
}

/// A number of ownership, in its field or in its record.
proof fn lemma_owner_back(id: u32, key: Seq<char>, p: Seq<(Seq<char>, Seq<u8>)>)
    requires
        reader::recorded(p, Seq::empty(), key) == some_if(
            id > 0o7777777,
            writer::decimal_bytes(id),
        ),
    ensures
        field::octal_value(header::octal_digits(header::clamped(id), 7).push(0)) is Some,
        reader::low32(
            reader::recorded_number(
                p,
                Seq::empty(),
                key,
                reader::octal_or_zero(header::octal_digits(header::clamped(id), 7).push(0)),
            ),
        ) == id,
{
    lemma_eights();
    lemma_octal_back(header::clamped(id), 7);
    if id > 0o7777777 {
        lemma_decimal_read(id as nat);
        law_lengths_are_exact(id as nat);
    }
}

/// The length of an entry's contents, in its field or in its record.
proof fn lemma_size_back(h: HeaderView, p: Seq<(Seq<char>, Seq<u8>)>)
    requires
        reader::recorded(p, Seq::empty(), "size"@) == some_if(
            writer::content_size(h) > 0o77777777777,
            text::digits(writer::content_size(h), 10),
        ),
        writer::content_size(h) > 0o77777777777 ==> decimal::saturated(
            writer::content_size(h),
            0,
            0,
        ) == writer::content_size(h),
    ensures
        ({
            let n = writer::content_size(h);
            let f = header::octal_digits(n, 11).push(0);
            &&& field::octal_value(f) is Some
            &&& reader::recorded_number(p, Seq::empty(), "size"@, reader::octal_or_zero(f)) == n
        }),
{
    let n = writer::content_size(h);
    lemma_eights();
    lemma_octal_back(n, 11);
    lemma_decimal_read(n);
}

/// A header block is read back as the entry it was laid out from.
#[verifier::spinoff_prover]
#[verifier::rlimit(40)]
proof fn lemma_block_back(h: HeaderView, data: Seq<u8>, rest: Seq<u8>) -> (back: HeaderView)
    requires
        faithful(h, data),
    ensures
        ({
            let hs = writer::sized(h, data);
            &&& same_entry(back, hs)
            &&& back.size == writer::content_size(hs)
            &&& reader::scan(
                header::encoded(hs, h.kind.flag()) + rest,
                Carry { pax: put_all(writer::needed_records(hs)), ..Carry::none() },
                0,
                Seq::empty(),
            ) == Step::Entry(
                back,
                ReaderView {
                    rest,
                    left: back.size as nat,
                    pad: field::padding(back.size as nat),
                    done: false,
                    global: Seq::empty(),
                },
            )
        }),
{
    let hs = writer::sized(h, data);
    let flag = h.kind.flag();
    let b = header::encoded(hs, flag);
    let p = put_all(writer::needed_records(hs));
    let none = Seq::<(Seq<char>, Seq<u8>)>::empty();
    let carry = Carry { pax: p, ..Carry::none() };
    lemma_number_fields(hs, flag);
    law_fields_stay_apart(hs, flag);
    lemma_records_back(hs);
    lemma_eights();
    lemma_name_fits(text::utf8(h.path));
    let all = b + rest;
    assert(all.take(512) =~= b);
    assert(all.skip(512) =~= rest);
    assert(!reader::all_zero(b)) by {
        assert(b[257] == 117);
    }
    let size: nat = writer::content_size(hs);
    let raw = reader::octal_or_zero(header::octal_digits(size, 11).push(0));
    lemma_size_back(hs, p);
    lemma_octal_back(hs.mode as nat, 7);
    lemma_octal_back(hs.mtime as nat, 11);
    lemma_owner_back(hs.uid, "uid"@, p);
    lemma_owner_back(hs.gid, "gid"@, p);
    assert(reader::kind_of(flag) == Some(h.kind));
    assert(reader::bad_field(b) is None);
    let back = reader::entry_header(b, h.kind, raw, carry, none);
    assert(back.path == h.path) by {
        if text::utf8(h.path).len() > 100 {
            lemma_text_back(h.path);
        } else {
            lemma_field_back(h.path, (100 - text::utf8(h.path).len()) as nat);
            assert(text::utf8(Seq::<char>::empty()) =~= Seq::<u8>::empty());
            lemma_field_back(Seq::empty(), 155);
            assert(Seq::<u8>::empty() + writer::zeros(155) =~= writer::zeros(155));
        }
    }
    assert(back.link == h.link) by {
        if text::utf8(h.link).len() > 100 {
            lemma_text_back(h.link);
        } else {
            lemma_field_back(h.link, (100 - text::utf8(h.link).len()) as nat);
        }
    }
    lemma_octal_back(hs.major as nat, 7);
    lemma_octal_back(hs.minor as nat, 7);
    back
}

/// A PAX header block, whatever else it holds, hands its records on.
proof fn lemma_extension_read(
    first: Seq<u8>,
    records: Seq<(Seq<char>, Seq<u8>)>,
    p: Seq<(Seq<char>, Seq<u8>)>,
    tail: Seq<u8>,
)
    requires
        first.len() == 512,
        first[156] == 120,
        first[257] == 117,
        pax::built(records).len() <= u64::MAX,
        field::octal_value(first.subrange(124, 136)) == Some(pax::built(records).len() as u64),
        pax::parsed(pax::built(records)) == Some(p),
    ensures
        ({
            let body = pax::built(records);
            reader::scan(
                first + (body + writer::zeros(field::padding(body.len())) + tail),
                Carry::none(),
                0,
                Seq::empty(),
            ) == reader::scan(
                tail,
                Carry { pax: p, ..Carry::none() },
                0,
                Seq::empty(),
            )
        }),
{
    let body = pax::built(records);
    let pad = field::padding(body.len());
    let after = body + writer::zeros(pad) + tail;
    let all = first + after;
    assert(all.take(512) =~= first);
    assert(all.skip(512) =~= after);
    assert(!reader::all_zero(first)) by {
        assert(first[257] == 117);
    }
    assert(after.take(body.len() as int) =~= body);
    assert(after.skip((body.len() + pad) as int) =~= tail);
    assert(reader::kind_of(120) is None);
}

/// The block of a PAX header tells how long its body is.
proof fn lemma_extension_block(h: HeaderView, size: nat)
    requires
        size <= 0o77777777777,
    ensures
        ({
            let hx = HeaderView {
                size: size as u64,
                mtime: h.mtime,
                ..HeaderView::plain(
                    "PaxHeaders/"@ + field::last_component(h.path),
                    EntryKind::File,
                    0o644,
                )
            };
            let first = header::encoded(hx, 120);
            &&& first.len() == 512
            &&& first[156] == 120
            &&& first[257] == 117
            &&& field::octal_value(first.subrange(124, 136)) == Some(size as u64)
        }),
{
    let hx = HeaderView {
        size: size as u64,
        mtime: h.mtime,
        ..HeaderView::plain(
            "PaxHeaders/"@ + field::last_component(h.path),
            EntryKind::File,
            0o644,
        )
    };
    lemma_number_fields(hx, 120);
    lemma_eights();
    lemma_octal_back(size, 11);
}

/// What is written ahead of an entry's contents is read back as the entry.
proof fn lemma_opening_back(h: HeaderView, data: Seq<u8>, rest: Seq<u8>) -> (back: HeaderView)
    requires
        faithful(h, data),
    ensures
        ({
            let hs = writer::sized(h, data);
            &&& same_entry(back, hs)
            &&& back.size == writer::content_size(hs)
            &&& reader::scan(writer::opening(hs) + rest, Carry::none(), 0, Seq::empty())
                == Step::Entry(
                back,
                ReaderView {
                    rest,
                    left: back.size as nat,
                    pad: field::padding(back.size as nat),
                    done: false,
                    global: Seq::empty(),
                },
            )
        }),
{
    let hs = writer::sized(h, data);
    let records = writer::needed_records(hs);
    let block = header::encoded(hs, h.kind.flag());
    let back = lemma_block_back(h, data, rest);
    if records.len() == 0 {
        assert(writer::opening(hs) =~= block);
        assert(put_all(records) =~= Seq::empty());
    } else {
        assert forall|i: int| 0 <= i < records.len() implies is_key(#[trigger] records[i].0) by {
            lemma_keys_are_keys(hs, i);
        }
        lemma_opening_read(hs, rest);
    }
    back
}

/// An entry that needs records is read as its block, the records known.
proof fn lemma_opening_read(h: HeaderView, rest: Seq<u8>)
    requires
        writer::needed_records(h).len() > 0,
        pax::built(writer::needed_records(h)).len() <= 0o77777777777,
        pax::built(writer::needed_records(h)).len() <= usize::MAX,
        forall|i: int|
            0 <= i < writer::needed_records(h).len() ==> is_key(
                #[trigger] writer::needed_records(h)[i].0,
            ),
    ensures
        reader::scan(writer::opening(h) + rest, Carry::none(), 0, Seq::empty()) == reader::scan(
            header::encoded(h, h.kind.flag()) + rest,
            Carry { pax: put_all(writer::needed_records(h)), ..Carry::none() },
            0,
            Seq::empty(),
        ),
{
    let records = writer::needed_records(h);
    let tail = header::encoded(h, h.kind.flag()) + rest;
    let first = writer::extension(h, records).take(512);
    law_pax_round_trip(records);
    lemma_extension_shape(h, records);
    lemma_extension_read(first, records, put_all(records), tail);
    lemma_opening_shape(h, rest);
}

/// What is written ahead of an entry's contents, in its parts.
proof fn lemma_opening_shape(h: HeaderView, rest: Seq<u8>)
    requires
        writer::needed_records(h).len() > 0,
        pax::built(writer::needed_records(h)).len() <= 0o77777777777,
    ensures
        ({
            let records = writer::needed_records(h);
            let body = pax::built(records);
            let first = writer::extension(h, records).take(512);
            let tail = header::encoded(h, h.kind.flag()) + rest;
            writer::opening(h) + rest == first + (body + writer::zeros(
                field::padding(body.len()),
            ) + tail)
        }),
{
    let records = writer::needed_records(h);
    let body = pax::built(records);
    let ext = writer::extension(h, records);
    let first = ext.take(512);
    let block = header::encoded(h, h.kind.flag());
    let middle = body + writer::zeros(field::padding(body.len()));
    lemma_extension_shape(h, records);
    lemma_regroup(first, middle, block, rest);
    assert(writer::opening(h) == ext + block);
}

proof fn lemma_regroup(a: Seq<u8>, b: Seq<u8>, c: Seq<u8>, d: Seq<u8>)
    ensures
        (a + b) + c + d == a + (b + (c + d)),
{
    assert((a + b) + c + d =~= a + (b + (c + d)));
}

/// A PAX header is its block, its body and its padding.
proof fn lemma_extension_shape(h: HeaderView, records: Seq<(Seq<char>, Seq<u8>)>)
    requires
        pax::built(records).len() <= 0o77777777777,
    ensures
        ({
            let ext = writer::extension(h, records);
            let body = pax::built(records);
            &&& ext.len() >= 512
            &&& ext.take(512).len() == 512
            &&& ext.take(512)[156] == 120
            &&& ext.take(512)[257] == 117
            &&& field::octal_value(ext.take(512).subrange(124, 136)) == Some(body.len() as u64)
            &&& ext == ext.take(512) + (body + writer::zeros(field::padding(body.len())))
        }),
{
    let body = pax::built(records);
    lemma_extension_block(h, body.len());
    let ext = writer::extension(h, records);
    let hx = HeaderView {
        size: body.len() as u64,
        mtime: h.mtime,
        ..HeaderView::plain(
            "PaxHeaders/"@ + field::last_component(h.path),
            EntryKind::File,
            0o644,
        )
    };
    let first = header::encoded(hx, 120);
    assert(ext.take(512) =~= first);
    assert(ext =~= first + (body + writer::zeros(field::padding(body.len()))));
}

/// Every record an entry needs has a key that can be read back.
proof fn lemma_keys_are_keys(h: HeaderView, i: int)
    requires
        0 <= i < writer::needed_records(h).len(),
        forall|j: int| 0 <= j < h.xattrs.len() ==> is_key(#[trigger] h.xattrs[j].0),
    ensures
        is_key(writer::needed_records(h)[i].0),
{
    lemma_needed_parts(h);
    let fixed = fixed_records(h);
    if i < fixed.len() {
        let k = fixed[i].0;
        assert(is_plain_key(k));
        lemma_plain_keys(k);
    } else {
        let x = h.xattrs[i - fixed.len()];
        assert(is_key(h.xattrs[i - fixed.len()].0));
        let p = "SCHILY.xattr."@;
        lemma_prefix();
        lemma_utf8_joins(p, x.0);
        assert(writer::needed_records(h)[i].0 == p + x.0);
    }
}

/// One entry in an archive: what is written ahead of its contents, the
/// contents, and the padding behind them.
pub open spec fn chunk(h: HeaderView, data: Seq<u8>) -> Seq<u8> {
    writer::opening(writer::sized(h, data)) + (writer::contents(h, data) + writer::zeros(
        field::padding(writer::contents(h, data).len()),
    ))
}

/// A whole archive: its entries, and the end-of-archive marker.
pub open spec fn archive(entries: Seq<(HeaderView, Seq<u8>)>) -> Seq<u8>
    decreases entries.len(),
{
    if entries.len() == 0 {
        writer::zeros(1024)
    } else {
        chunk(entries[0].0, entries[0].1) + archive(entries.skip(1))
    }
}

/// A writer after every entry has been appended.
pub open spec fn appended_all(at: WriterView, entries: Seq<(HeaderView, Seq<u8>)>) -> WriterView
    decreases entries.len(),
{
    if entries.len() == 0 {
        at
    } else {
        appended_all(writer::appended(at, entries[0].0, entries[0].1), entries.skip(1))
    }
}

/// Appending entries and closing the archive writes exactly that archive
/// behind whatever had been written before.
pub proof fn law_writer_writes_the_archive(
    at: WriterView,
    entries: Seq<(HeaderView, Seq<u8>)>,
)
    requires
        at.left == 0,
    ensures
        ({
            let end = appended_all(at, entries);
            &&& end.left == 0
            &&& end.written + writer::zeros(end.pad) + writer::zeros(1024) == at.written
                + writer::zeros(at.pad) + archive(entries)
        }),
    decreases entries.len(),
{
    if entries.len() > 0 {
        let (h, data) = entries[0];
        let next = writer::appended(at, h, data);
        law_writer_writes_the_archive(next, entries.skip(1));
        let a = at.written + writer::zeros(at.pad);
        let b = writer::opening(writer::sized(h, data));
        let c = writer::contents(h, data);
        let d = writer::zeros(field::padding(c.len()));
        let e = archive(entries.skip(1));
        assert(a + b + c + d + e =~= a + ((b + (c + d)) + e));
    }
}

/// The end-of-archive marker ends the archive, and nothing behind it is
/// touched.
proof fn lemma_marker_ends(global: Seq<(Seq<char>, Seq<u8>)>, tail: Seq<u8>)
    ensures
        reader::scan(writer::zeros(1024) + tail, Carry::none(), 0, global) == Step::End(
            ReaderView { rest: tail, left: 0, pad: 0, done: true, global },
        ),
{
    let z = writer::zeros(1024) + tail;
    let y = writer::zeros(512) + tail;
    assert(reader::all_zero(z.take(512)));
    assert(z.skip(512) =~= y);
    assert(reader::all_zero(y.take(512)));
    assert(y.skip(512) =~= tail);
    assert(reader::scan(y, Carry::none(), 1, global) == Step::End(
        ReaderView { rest: tail, left: 0, pad: 0, done: true, global },
    ));
}

/// A reader at the padding in front of an archive that something follows.
pub open spec fn before_archive(
    pad: nat,
    entries: Seq<(HeaderView, Seq<u8>)>,
    tail: Seq<u8>,
) -> ReaderView {
    ReaderView {
        rest: writer::zeros(pad) + (archive(entries) + tail),
        left: 0,
        pad,
        done: false,
        global: Seq::empty(),
    }
}

/// A reader at the end of an archive that something follows.
pub open spec fn behind_archive(tail: Seq<u8>) -> ReaderView {
    ReaderView { rest: tail, left: 0, pad: 0, done: true, global: Seq::empty() }
}

/// Reading on after an entry whose contents are all there.
proof fn lemma_entries_step(
    at: ReaderView,
    first: HeaderView,
    then: ReaderView,
    more: Seq<(HeaderView, Seq<u8>)>,
    end: ReaderView,
)
    requires
        reader::advance(at) == Step::Entry(first, then),
        then.left <= then.rest.len(),
        reader::entries_from(
            ReaderView { rest: then.rest.skip(then.left as int), left: 0, ..then },
        ) == Ok::<_, Fault>(more),
        reader::end_from(
            ReaderView { rest: then.rest.skip(then.left as int), left: 0, ..then },
        ) == Some(end),
    ensures
        reader::entries_from(at) == Ok::<_, Fault>(
            seq![(first, then.rest.take(then.left as int))] + more,
        ),
        reader::end_from(at) == Some(end),
{
}

/// The first entry of an archive is read, and what follows is left.
proof fn lemma_first_entry(
    pad: nat,
    entries: Seq<(HeaderView, Seq<u8>)>,
    tail: Seq<u8>,
) -> (first: HeaderView)
    requires
        entries.len() > 0,
        faithful(entries[0].0, entries[0].1),
    ensures
        ({
            let (h, data) = entries[0];
            let c = writer::contents(h, data);
            let p = field::padding(c.len());
            &&& same_entry(first, writer::sized(h, data))
            &&& first.size == c.len()
            &&& reader::advance(before_archive(pad, entries, tail)) == Step::Entry(
                first,
                ReaderView {
                    rest: c + (writer::zeros(p) + (archive(entries.skip(1)) + tail)),
                    left: c.len(),
                    pad: p,
                    done: false,
                    global: Seq::empty(),
                },
            )
        }),
{
    let at = before_archive(pad, entries, tail);
    let (h, data) = entries[0];
    let c = writer::contents(h, data);
    let p = field::padding(c.len());
    let more = archive(entries.skip(1));
    let rest = c + (writer::zeros(p) + (more + tail));
    let open = writer::opening(writer::sized(h, data));
    assert(at.rest.skip(pad as int) == open + rest) by {
        assert(at.rest.skip(pad as int) =~= archive(entries) + tail);
        lemma_regroup_tail(open, c, writer::zeros(p), more, tail);
    }
    assert(reader::cut_short(at) is None);
    lemma_opening_back(h, data, rest)
}

proof fn lemma_regroup_tail(a: Seq<u8>, b: Seq<u8>, c: Seq<u8>, d: Seq<u8>, e: Seq<u8>)
    ensures
        ((a + (b + c)) + d) + e == a + (b + (c + (d + e))),
{
    assert(((a + (b + c)) + d) + e =~= a + (b + (c + (d + e))));
}

#[verifier::spinoff_prover]
#[verifier::rlimit(40)]
proof fn lemma_archive_back(
    pad: nat,
    entries: Seq<(HeaderView, Seq<u8>)>,
    tail: Seq<u8>,
) -> (back: Seq<(HeaderView, Seq<u8>)>)
    requires
        forall|i: int|
            0 <= i < entries.len() ==> faithful((#[trigger] entries[i]).0, entries[i].1),
    ensures
        reader::entries_from(before_archive(pad, entries, tail)) == Ok::<_, Fault>(back),
        reader::end_from(before_archive(pad, entries, tail)) == Some(behind_archive(tail)),
        back.len() == entries.len(),
        forall|i: int|
            0 <= i < entries.len() ==> {
                &&& same_entry(
                    (#[trigger] back[i]).0,
                    writer::sized(entries[i].0, entries[i].1),
                )
                &&& back[i].1 == writer::contents(entries[i].0, entries[i].1)
            },
    decreases entries.len(),
{
    let at = before_archive(pad, entries, tail);
    if entries.len() == 0 {
        assert(at.rest.skip(pad as int) =~= writer::zeros(1024) + tail);
        lemma_marker_ends(Seq::empty(), tail);
        Seq::empty()
    } else {
        let (h, data) = entries[0];
        assert(faithful(entries[0].0, entries[0].1));
        let first = lemma_first_entry(pad, entries, tail);
        let c = writer::contents(h, data);
        let p = field::padding(c.len());
        let others = entries.skip(1);
        let behind = writer::zeros(p) + (archive(others) + tail);
        let then = ReaderView {
            rest: c + behind,
            left: c.len(),
            pad: p,
            done: false,
            global: Seq::empty(),
        };
        assert(then.rest.take(c.len() as int) =~= c);
        assert(then.rest.skip(c.len() as int) =~= behind);
        assert forall|i: int| 0 <= i < others.len() implies faithful(
            (#[trigger] others[i]).0,
            others[i].1,
        ) by {
            assert(others[i] == entries[i + 1]);
        }
        let more = lemma_archive_back(p, others, tail);
        lemma_entries_step(at, first, then, more, behind_archive(tail));
        let back = seq![(first, c)] + more;
        assert forall|i: int| 0 <= i < entries.len() implies {
            &&& same_entry((#[trigger] back[i]).0, writer::sized(entries[i].0, entries[i].1))
            &&& back[i].1 == writer::contents(entries[i].0, entries[i].1)
        } by {
            if i > 0 {
                assert(back[i] == more[i - 1]);
                assert(others[i - 1] == entries[i]);
            }
        }
        back
    }
}

/// What is read from an archive is what was written to it: every entry, in
/// order, with its path, kind, permissions, ownership, time, link target,
/// device numbers and extended attributes, and the same contents. Reading
/// stops right behind the archive, so that whatever follows it on the stream
/// is what the stream then has left.
pub proof fn law_round_trip(entries: Seq<(HeaderView, Seq<u8>)>, tail: Seq<u8>)
    requires
        forall|i: int|
            0 <= i < entries.len() ==> faithful((#[trigger] entries[i]).0, entries[i].1),
    ensures
        ({
            let at = reader::fresh(archive(entries) + tail);
            &&& reader::entries_from(at) matches Ok(back)
            &&& back.len() == entries.len()
            &&& forall|i: int|
                0 <= i < entries.len() ==> {
                    &&& same_entry(
                        (#[trigger] back[i]).0,
                        writer::sized(entries[i].0, entries[i].1),
                    )
                    &&& back[i].1 == writer::contents(entries[i].0, entries[i].1)
                }
        }),
        reader::end_from(reader::fresh(archive(entries) + tail)) == Some(behind_archive(tail)),
{
    let back = lemma_archive_back(0, entries, tail);
    assert(writer::zeros(0) + (archive(entries) + tail) =~= archive(entries) + tail);
}

/// The entries that can be stepped over in an archive: contents too long for
/// their field are counted in a record, which is read to double precision, and
/// records themselves fit the field that counts them.
pub open spec fn countable(h: HeaderView, data: Seq<u8>) -> bool {
    &&& h.kind == EntryKind::File ==> {
        &&& data.len() <= u64::MAX
        &&& data.len() > 0o77777777777 ==> decimal::saturated(data.len(), 0, 0) == data.len()
    }
    &&& pax::built(writer::needed_records(writer::sized(h, data))).len() <= 0o77777777777
    &&& pax::built(writer::needed_records(writer::sized(h, data))).len() <= usize::MAX
}

/// What a record is read as: its key ends at the first `=`.
pub open spec fn as_read(r: (Seq<char>, Seq<u8>)) -> (Seq<char>, Seq<u8>) {
    let k = text::utf8(r.0);
    let at = field::find_byte(k, 0, 61);
    if at < k.len() {
        (vstd::utf8::decode_utf8(k.take(at)), k.skip(at + 1) + seq![61u8] + r.1)
    } else {
        r
    }
}

/// A byte is found where it stands first, or at the end.
proof fn lemma_find_byte(s: Seq<u8>, i: int, b: u8)
    requires
        0 <= i <= s.len(),
    ensures
        i <= field::find_byte(s, i, b) <= s.len(),
        field::find_byte(s, i, b) < s.len() ==> s[field::find_byte(s, i, b)] == b,
        forall|j: int| i <= j < field::find_byte(s, i, b) ==> s[j] != b,
    decreases s.len() - i,
{
    if i < s.len() && s[i] != b {
        lemma_find_byte(s, i + 1, b);
    }
}

/// A record is laid out as what it is read as would be.
proof fn lemma_as_read(r: (Seq<char>, Seq<u8>))
    ensures
        is_key(as_read(r).0),
        is_key(r.0) ==> as_read(r) == r,
        pax::record(text::utf8(as_read(r).0), as_read(r).1) == pax::record(text::utf8(r.0), r.1),
        text::utf8(r.0).len() > 0 && text::utf8(r.0)[0] != 61 ==> text::utf8(as_read(r).0).len() > 0
            && text::utf8(as_read(r).0)[0] == text::utf8(r.0)[0],
{
    let k = text::utf8(r.0);
    let at = field::find_byte(k, 0, 61);
    lemma_find_byte(k, 0, 61);
    if at < k.len() {
        vstd::utf8::encode_utf8_valid_utf8(r.0);
        vstd::utf8::is_char_boundary_iff_not_is_continuation_byte(k, at);
        vstd::utf8::valid_utf8_split(k, at);
        assert(k.subrange(0, at) =~= k.take(at));
        vstd::utf8::decode_utf8_encode_utf8(k.take(at));
        let (key, value) = as_read(r);
        assert(text::utf8(key) == k.take(at));
        assert(text::utf8(key).len() + value.len() == k.len() + r.1.len());
        let n = text::digits(pax::declared(k.len() + r.1.len() + 3), 10);
        assert(n + seq![32u8] + k.take(at) + seq![61u8] + value + seq![10u8] =~= n + seq![32u8] + k
            + seq![61u8] + r.1 + seq![10u8]);
    }
}

/// Records are laid out as what they are read as would be.
proof fn lemma_built_as_read(records: Seq<(Seq<char>, Seq<u8>)>)
    ensures
        pax::built(records.map_values(|r: (Seq<char>, Seq<u8>)| as_read(r))) == pax::built(records),
    decreases records.len(),
{
    let read = records.map_values(|r: (Seq<char>, Seq<u8>)| as_read(r));
    if records.len() > 0 {
        lemma_built_as_read(records.drop_last());
        lemma_as_read(records.last());
        assert(read.drop_last() =~= records.drop_last().map_values(
            |r: (Seq<char>, Seq<u8>)| as_read(r),
        ));
    }
}

/// Records under other keys leave what stands under a key alone.
proof fn lemma_lookup_before(
    records: Seq<(Seq<char>, Seq<u8>)>,
    more: Seq<(Seq<char>, Seq<u8>)>,
    key: Seq<char>,
)
    requires
        forall|i: int| 0 <= i < more.len() ==> (#[trigger] more[i]).0 != key,
    ensures
        pax::lookup(put_all(records + more), key) == pax::lookup(put_all(records), key),
    decreases more.len(),
{
    let all = records + more;
    if more.len() == 0 {
        assert(all =~= records);
    } else {
        let front = more.drop_last();
        assert forall|i: int| 0 <= i < front.len() implies (#[trigger] front[i]).0 != key by {
            assert(front[i] == more[i]);
        }
        lemma_lookup_before(records, front, key);
        assert(all.drop_last() =~= records + front);
        assert(all.last() == more[more.len() - 1]);
        law_put_keeps_others(put_all(records + front), more.last().0, more.last().1, key);
    }
}

/// The records of an entry are read as something, and give its length where it
/// is among them.
proof fn lemma_records_read(h: HeaderView) -> (p: Seq<(Seq<char>, Seq<u8>)>)
    requires
        pax::built(writer::needed_records(h)).len() <= usize::MAX,
    ensures
        pax::parsed(pax::built(writer::needed_records(h))) == Some(p),
        writer::needed_records(h).len() == 0 ==> p.len() == 0,
        reader::recorded(p, Seq::empty(), "size"@) == some_if(
            writer::content_size(h) > 0o77777777777,
            text::digits(writer::content_size(h), 10),
        ),
{
    let records = writer::needed_records(h);
    let read = records.map_values(|r: (Seq<char>, Seq<u8>)| as_read(r));
    let fixed = fixed_records(h);
    let n = fixed.len() as int;
    let p = put_all(read);
    lemma_needed_parts(h);
    lemma_fixed_lookups(h);
    lemma_built_as_read(records);
    assert forall|i: int| 0 <= i < read.len() implies is_key(#[trigger] read[i].0) by {
        lemma_as_read(records[i]);
    }
    law_pax_round_trip(read);
    let more = read.skip(n);
    assert(read =~= fixed + more) by {
        assert forall|i: int| 0 <= i < n implies #[trigger] read[i] == fixed[i] by {
            assert(records[i] == fixed[i]);
            assert(is_plain_key(fixed[i].0));
            lemma_plain_keys(fixed[i].0);
            lemma_as_read(records[i]);
        }
    }
    lemma_plain_keys("size"@);
    lemma_prefix();
    assert forall|i: int| 0 <= i < more.len() implies (#[trigger] more[i]).0 != "size"@ by {
        let r = records[n + i];
        assert(r == writer::as_record(h.xattrs[i]));
        lemma_utf8_joins("SCHILY.xattr."@, h.xattrs[i].0);
        assert(text::utf8(r.0)[0] == 83);
        lemma_as_read(r);
        assert(more[i] == as_read(r));
    }
    lemma_lookup_before(fixed, more, "size"@);
    if records.len() == 0 {
        assert(read =~= Seq::empty());
    }
    p
}

/// The header block of any entry is read as an entry of that kind and length.
proof fn lemma_block_read(h: HeaderView, p: Seq<(Seq<char>, Seq<u8>)>, rest: Seq<u8>) -> (back:
    HeaderView)
    requires
        reader::recorded(p, Seq::empty(), "size"@) == some_if(
            writer::content_size(h) > 0o77777777777,
            text::digits(writer::content_size(h), 10),
        ),
        writer::content_size(h) > 0o77777777777 ==> decimal::saturated(
            writer::content_size(h),
            0,
            0,
        ) == writer::content_size(h),
    ensures
        back.kind == h.kind,
        back.size == writer::content_size(h),
        reader::scan(
            header::encoded(h, h.kind.flag()) + rest,
            Carry { pax: p, ..Carry::none() },
            0,
            Seq::empty(),
        ) == Step::Entry(
            back,
            ReaderView {
                rest,
                left: back.size as nat,
                pad: field::padding(back.size as nat),
                done: false,
                global: Seq::empty(),
            },
        ),
{
    let flag = h.kind.flag();
    let b = header::encoded(h, flag);
    let none = Seq::<(Seq<char>, Seq<u8>)>::empty();
    let carry = Carry { pax: p, ..Carry::none() };
    lemma_number_fields(h, flag);
    lemma_eights();
    let all = b + rest;
    assert(all.take(512) =~= b);
    assert(all.skip(512) =~= rest);
    assert(!reader::all_zero(b)) by {
        assert(b[257] == 117);
    }
    let raw = reader::octal_or_zero(header::octal_digits(writer::content_size(h), 11).push(0));
    lemma_size_back(h, p);
    lemma_octal_back(h.mode as nat, 7);
    lemma_octal_back(h.mtime as nat, 11);
    lemma_octal_back(header::clamped(h.uid), 7);
    lemma_octal_back(header::clamped(h.gid), 7);
    assert(reader::kind_of(flag) == Some(h.kind));
    assert(reader::bad_field(b) is None);
    reader::entry_header(b, h.kind, raw, carry, none)
}

/// What is written ahead of the contents of any entry is read as one entry of
/// that kind and length.
proof fn lemma_opening_counted(h: HeaderView, data: Seq<u8>, rest: Seq<u8>) -> (back: HeaderView)
    requires
        countable(h, data),
    ensures
        back.kind == h.kind,
        back.size == writer::contents(h, data).len(),
        reader::scan(
            writer::opening(writer::sized(h, data)) + rest,
            Carry::none(),
            0,
            Seq::empty(),
        ) == Step::Entry(
            back,
            ReaderView {
                rest,
                left: back.size as nat,
                pad: field::padding(back.size as nat),
                done: false,
                global: Seq::empty(),
            },
        ),
{
    let hs = writer::sized(h, data);
    let records = writer::needed_records(hs);
    let p = lemma_records_read(hs);
    let tail = header::encoded(hs, h.kind.flag()) + rest;
    let back = lemma_block_read(hs, p, rest);
    if records.len() == 0 {
        assert(writer::opening(hs) =~= header::encoded(hs, h.kind.flag()));
        assert(p =~= Seq::empty());
    } else {
        lemma_extension_shape(hs, records);
        lemma_extension_read(writer::extension(hs, records).take(512), records, p, tail);
        lemma_opening_shape(hs, rest);
    }
    back
}

#[verifier::spinoff_prover]
#[verifier::rlimit(40)]
proof fn lemma_archive_counted(
    pad: nat,
    entries: Seq<(HeaderView, Seq<u8>)>,
    tail: Seq<u8>,
) -> (back: Seq<(HeaderView, Seq<u8>)>)
    requires
        forall|i: int|
            0 <= i < entries.len() ==> countable((#[trigger] entries[i]).0, entries[i].1),
    ensures
        reader::entries_from(before_archive(pad, entries, tail)) == Ok::<_, Fault>(back),
        reader::end_from(before_archive(pad, entries, tail)) == Some(behind_archive(tail)),
        back.len() == entries.len(),
        forall|i: int|
            0 <= i < entries.len() ==> (#[trigger] back[i]).0.kind == entries[i].0.kind
                && back[i].1 == writer::contents(entries[i].0, entries[i].1),
    decreases entries.len(),
{
    let at = before_archive(pad, entries, tail);
    if entries.len() == 0 {
        assert(at.rest.skip(pad as int) =~= writer::zeros(1024) + tail);
        lemma_marker_ends(Seq::empty(), tail);
        Seq::empty()
    } else {
        let (h, data) = entries[0];
        let c = writer::contents(h, data);
        let p = field::padding(c.len());
        let others = entries.skip(1);
        let behind = writer::zeros(p) + (archive(others) + tail);
        let open = writer::opening(writer::sized(h, data));
        assert(countable(entries[0].0, entries[0].1));
        assert(at.rest.skip(pad as int) == open + (c + behind)) by {
            assert(at.rest.skip(pad as int) =~= archive(entries) + tail);
            lemma_regroup_tail(open, c, writer::zeros(p), archive(others), tail);
        }
        assert(reader::cut_short(at) is None);
        let first = lemma_opening_counted(h, data, c + behind);
        let then = ReaderView {
            rest: c + behind,
            left: c.len(),
            pad: p,
            done: false,
            global: Seq::empty(),
        };
        assert(then.rest.take(c.len() as int) =~= c);
        assert(then.rest.skip(c.len() as int) =~= behind);
        assert forall|i: int| 0 <= i < others.len() implies countable(
            (#[trigger] others[i]).0,
            others[i].1,
        ) by {
            assert(others[i] == entries[i + 1]);
        }
        let more = lemma_archive_counted(p, others, tail);
        lemma_entries_step(at, first, then, more, behind_archive(tail));
        let back = seq![(first, c)] + more;
        assert forall|i: int| 0 <= i < entries.len() implies (#[trigger] back[i]).0.kind
            == entries[i].0.kind && back[i].1 == writer::contents(
            entries[i].0,
            entries[i].1,
        ) by {
            if i > 0 {
                assert(back[i] == more[i - 1]);
                assert(others[i - 1] == entries[i]);
            }
        }
        back
    }
}

/// Whatever entries an archive holds, reading it gives as many, each of its
/// kind and with its contents, and stops right behind the archive: what follows
/// it on the stream is what the stream then has left.
pub proof fn law_reading_ends_behind_the_archive(
    entries: Seq<(HeaderView, Seq<u8>)>,
    tail: Seq<u8>,
)
    requires
        forall|i: int|
            0 <= i < entries.len() ==> countable((#[trigger] entries[i]).0, entries[i].1),
    ensures
        ({
            let at = reader::fresh(archive(entries) + tail);
            &&& reader::entries_from(at) matches Ok(back)
            &&& back.len() == entries.len()
            &&& forall|i: int|
                0 <= i < entries.len() ==> (#[trigger] back[i]).0.kind == entries[i].0.kind
                    && back[i].1 == writer::contents(entries[i].0, entries[i].1)
        }),
        reader::end_from(reader::fresh(archive(entries) + tail)) == Some(behind_archive(tail)),
{
    let back = lemma_archive_counted(0, entries, tail);
    assert(writer::zeros(0) + (archive(entries) + tail) =~= archive(entries) + tail);
}

/// What is read depends on the bytes a stream holds alone, and not on what
/// kind of stream it is or on how much of them it hands over at a time.
pub proof fn law_streams_read_alike<S: Source, T: Source>(a: Reader<S>, b: Reader<T>)
    requires
        a@.rest == b@.rest,
        a@.left == b@.left,
        a@.pad == b@.pad,
        a@.done == b@.done,
        a@.global == b@.global,
    ensures
        reader::advance(a@) == reader::advance(b@),
        reader::entries_from(a@) == reader::entries_from(b@),
        reader::end_from(a@) == reader::end_from(b@),
{
    assert(a@ =~= b@);
}

/// An entry's contents and its padding fill whole blocks.
pub proof fn law_padding_fills_blocks(size: nat)
    ensures
        (size + field::padding(size)) % 512 == 0,
        field::padding(size) < 512,
{
}

} // verus!
