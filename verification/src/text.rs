//! Numbers as text, and text as bytes.

use vstd::prelude::*;

verus! {

/// `std::string::String::push`: the character goes on the end.
pub assume_specification[ String::push ](s: &mut String, c: char)
    ensures
        final(s)@ == old(s)@.push(c),
;

/// Text as UTF-8.
#[verifier::inline]
pub open spec fn utf8(s: Seq<char>) -> Seq<u8> {
    vstd::utf8::encode_utf8(s)
}

/// What `String::from_utf8_lossy` makes of bytes that are not valid UTF-8.
pub uninterp spec fn utf8_repaired(bytes: Seq<u8>) -> Seq<char>;

/// Bytes read as text: decoded where they are valid UTF-8, repaired where
/// they are not.
pub open spec fn lossy_text(bytes: Seq<u8>) -> Seq<char> {
    if vstd::utf8::valid_utf8(bytes) {
        vstd::utf8::decode_utf8(bytes)
    } else {
        utf8_repaired(bytes)
    }
}

/// `String::from_utf8_lossy`. Valid UTF-8 is decoded as it stands; how
/// malformed input is repaired is left to the name `utf8_repaired`.
#[verifier::external_body]
pub(crate) fn lossy(bytes: &[u8]) -> (text: String)
    ensures
        text@ == (if vstd::utf8::valid_utf8(bytes@) {
            vstd::utf8::decode_utf8(bytes@)
        } else {
            utf8_repaired(bytes@)
        }),
{
    String::from_utf8_lossy(bytes).into_owned()
}

/// A number written out in `base`, most significant digit first, with no
/// leading zeros (zero itself is one digit).
pub open spec fn digits(n: nat, base: nat) -> Seq<u8>
    decreases n,
    when 2 <= base <= 10
{
    if n < base {
        seq![(48 + n) as u8]
    } else {
        proof {
            vstd::arithmetic::div_mod::lemma_div_decreases(n as int, base as int);
        }
        digits(n / base, base).push((48 + n % base) as u8)
    }
}

/// ASCII bytes as characters.
pub open spec fn ascii(bytes: Seq<u8>) -> Seq<char> {
    Seq::new(bytes.len(), |i: int| bytes[i] as char)
}

/// The digits of `n`.
pub fn digits_of(n: u128, base: u128) -> (out: Vec<u8>)
    requires
        2 <= base <= 10,
    ensures
        out@ == digits(n as nat, base as nat),
    decreases n,
{
    if n < base {
        vec![48 + n as u8]
    } else {
        proof {
            vstd::arithmetic::div_mod::lemma_div_decreases(n as int, base as int);
        }
        let mut out = digits_of(n / base, base);
        out.push(48 + (n % base) as u8);
        out
    }
}

/// Append `n` in decimal.
pub fn push_decimal(text: &mut String, n: u64)
    ensures
        final(text)@ == old(text)@ + ascii(digits(n as nat, 10)),
{
    let ds = digits_of(n as u128, 10);
    let mut i: usize = 0;
    while i < ds.len()
        invariant
            i <= ds.len(),
            text@ == old(text)@ + ascii(ds@.take(i as int)),
        decreases ds.len() - i,
    {
        text.push(ds[i] as char);
        i += 1;
        proof {
            assert(ascii(ds@.take(i as int)) =~= ascii(ds@.take(i - 1)).push(ds@[i - 1] as char));
        }
    }
    assert(ds@.take(i as int) =~= ds@);
}

/// Characters that count as white space around a number.
pub open spec fn is_white(c: char) -> bool {
    let n = c as int;
    ||| 9 <= n <= 13
    ||| n == 32
    ||| n == 0x85
    ||| n == 0xa0
    ||| n == 0x1680
    ||| 0x2000 <= n <= 0x200a
    ||| n == 0x2028
    ||| n == 0x2029
    ||| n == 0x202f
    ||| n == 0x205f
    ||| n == 0x3000
}

/// Text without the white space it opens with.
pub open spec fn trim_start(s: Seq<char>) -> Seq<char>
    decreases s.len(),
{
    if s.len() > 0 && is_white(s[0]) {
        trim_start(s.skip(1))
    } else {
        s
    }
}

/// Text without the white space it closes with.
pub open spec fn trim_end(s: Seq<char>) -> Seq<char>
    decreases s.len(),
{
    if s.len() > 0 && is_white(s.last()) {
        trim_end(s.drop_last())
    } else {
        s
    }
}

/// Text without the white space around it.
pub open spec fn trim(s: Seq<char>) -> Seq<char> {
    trim_end(trim_start(s))
}

fn white(c: char) -> (r: bool)
    ensures
        r == is_white(c),
{
    let n: u32 = c as u32;
    (9 <= n && n <= 13) || n == 32 || n == 0x85 || n == 0xa0 || n == 0x1680 || (0x2000 <= n && n
        <= 0x200a) || n == 0x2028 || n == 0x2029 || n == 0x202f || n == 0x205f || n == 0x3000
}

/// The part of `s` that trimming keeps.
pub fn trimmed(s: &[char]) -> (r: &[char])
    ensures
        r@ == trim(s@),
{
    let mut lo: usize = 0;
    assert(s@.skip(0) =~= s@);
    while lo < s.len() && white(s[lo])
        invariant
            lo <= s.len(),
            trim_start(s@) == trim_start(s@.skip(lo as int)),
        decreases s.len() - lo,
    {
        assert(s@.skip(lo as int).skip(1) =~= s@.skip(lo + 1));
        lo += 1;
    }
    let mut hi: usize = s.len();
    assert(s@.subrange(lo as int, hi as int) =~= s@.skip(lo as int));
    while hi > lo && white(s[hi - 1])
        invariant
            lo <= hi <= s.len(),
            trim(s@) == trim_end(s@.subrange(lo as int, hi as int)),
        decreases hi,
    {
        assert(s@.subrange(lo as int, hi as int).drop_last() =~= s@.subrange(
            lo as int,
            hi - 1,
        ));
        hi -= 1;
    }
    vstd::slice::slice_subrange(s, lo, hi)
}

/// Whether every character is a digit of `base`.
pub open spec fn all_digits(s: Seq<char>, base: nat) -> bool {
    forall|i: int| 0 <= i < s.len() ==> 48 <= ((#[trigger] s[i]) as int) < 48 + base
}

/// The number that digits spell, most significant first.
pub open spec fn digits_value(s: Seq<char>, base: nat) -> nat
    decreases s.len(),
{
    if s.len() == 0 {
        0
    } else {
        digits_value(s.drop_last(), base) * base + ((s.last() as int) - 48) as nat
    }
}

/// A whole number in `base`: an optional `+`, then one digit or more.
pub open spec fn whole_number(s: Seq<char>, base: nat) -> Option<nat> {
    let body = if s.len() > 0 && s[0] == '+' {
        s.skip(1)
    } else {
        s
    };
    if body.len() > 0 && all_digits(body, base) {
        Some(digits_value(body, base))
    } else {
        None
    }
}

/// Read a whole number no larger than `max`.
pub fn parse_whole(s: &[char], base: u64, max: u64) -> (r: Option<u64>)
    requires
        2 <= base <= 10,
    ensures
        r == (match whole_number(s@, base as nat) {
            Some(n) => if n <= max {
                Some(n as u64)
            } else {
                None
            },
            None => None,
        }),
{
    let body = if s.len() > 0 && s[0] == '+' {
        vstd::slice::slice_subrange(s, 1, s.len())
    } else {
        s
    };
    assert(s@.len() > 0 && s@[0] == '+' ==> body@ =~= s@.skip(1));
    if body.len() == 0 {
        return None;
    }
    let mut value: u64 = 0;
    let mut fits: bool = true;
    let mut i: usize = 0;
    assert(body@.take(0) =~= Seq::<char>::empty());
    while i < body.len()
        invariant
            i <= body.len(),
            2 <= base <= 10,
            all_digits(body@.take(i as int), base as nat),
            fits ==> value == digits_value(body@.take(i as int), base as nat) && value <= max,
            !fits ==> digits_value(body@.take(i as int), base as nat) > max,
            whole_number(s@, base as nat) == (if all_digits(body@, base as nat) {
                Some(digits_value(body@, base as nat))
            } else {
                None
            }),
        decreases body.len() - i,
    {
        let ch: char = body[i];
        let c: u32 = ch as u32;
        proof {
            vstd::utf8::char_u32_cast(ch, c);
        }
        let ghost before = body@.take(i as int);
        let ghost after = body@.take(i + 1);
        proof {
            assert(after.drop_last() =~= before);
            assert(after.last() == body@[i as int]);
        }
        if c < 48 || c >= 48 + base as u32 {
            assert(!all_digits(body@, base as nat)) by {
                assert(body@[i as int] as int == c);
            }
            return None;
        }
        let d: u64 = (c - 48) as u64;
        proof {
            assert(all_digits(after, base as nat)) by {
                assert forall|j: int| 0 <= j < after.len() implies 48 <= ((#[trigger] after[j]) as int) < 48 + base by {
                    if j < i {
                        assert(before[j] == after[j]);
                    }
                }
            }
            let v = digits_value(before, base as nat);
            assert(v * base >= v) by (nonlinear_arith)
                requires
                    v >= 0,
                    base >= 2,
            ;
        }
        if fits {
            assert(value * base <= 0xffff_ffff_ffff_ffff * 10) by (nonlinear_arith)
                requires
                    value <= 0xffff_ffff_ffff_ffff,
                    base <= 10,
            ;
            let wide: u128 = value as u128 * base as u128 + d as u128;
            if wide > max as u128 {
                fits = false;
            } else {
                value = wide as u64;
            }
        }
        i += 1;
    }
    assert(body@.take(i as int) =~= body@);
    if fits {
        Some(value)
    } else {
        None
    }
}

/// The characters of `text`.
pub fn chars_of(text: &str) -> (out: Vec<char>)
    ensures
        out@ == text@,
{
    let mut out: Vec<char> = Vec::new();
    for c in it: text.chars()
        invariant
            out@ == it.seq().take(it.index() as int),
            it.seq() == text@,
    {
        out.push(c);
        assert(it.seq().take(it.index() + 1) =~= it.seq().take(it.index() as int).push(c));
    }
    assert(text@.take(text@.len() as int) =~= text@);
    out
}

/// Bytes as the characters with the same numbers.
pub fn latin1(bytes: &[u8]) -> (out: Vec<char>)
    ensures
        out@ == ascii(bytes@),
{
    let mut out: Vec<char> = Vec::new();
    let mut i: usize = 0;
    while i < bytes.len()
        invariant
            i <= bytes.len(),
            out@ == ascii(bytes@.take(i as int)),
        decreases bytes.len() - i,
    {
        out.push(bytes[i] as char);
        i += 1;
        assert(ascii(bytes@.take(i as int)) =~= ascii(bytes@.take(i - 1)).push(
            bytes@[i - 1] as char,
        ));
    }
    assert(bytes@.take(i as int) =~= bytes@);
    out
}

/// Append characters.
pub fn push_chars(text: &mut String, chars: &[char])
    ensures
        final(text)@ == old(text)@ + chars@,
{
    let mut i: usize = 0;
    while i < chars.len()
        invariant
            i <= chars.len(),
            text@ == old(text)@ + chars@.take(i as int),
        decreases chars.len() - i,
    {
        text.push(chars[i]);
        i += 1;
        assert(chars@.take(i as int) =~= chars@.take(i - 1).push(chars@[i - 1]));
    }
    assert(chars@.take(i as int) =~= chars@);
}

/// Characters as text.
pub fn string_of(chars: &[char]) -> (text: String)
    ensures
        text@ == chars@,
{
    let mut text: String = String::new();
    push_chars(&mut text, chars);
    assert(text@ =~= chars@);
    text
}

/// Text as UTF-8.
pub fn bytes_of(text: &str) -> (out: Vec<u8>)
    ensures
        out@ == utf8(text@),
{
    crate::bytes::copy(text.as_bytes())
}

/// Whether two texts are the same.
pub fn same_text(a: &str, b: &str) -> (r: bool)
    ensures
        r == (a@ == b@),
{
    let r: bool = crate::bytes::same(a.as_bytes(), b.as_bytes());
    proof {
        vstd::utf8::encode_utf8_decode_utf8(a@);
        vstd::utf8::encode_utf8_decode_utf8(b@);
    }
    r
}

/// Anything that can be had as an owned text.
pub trait Text: Sized {
    /// The characters it holds.
    spec fn chars(&self) -> Seq<char>;

    /// The owned text.
    fn into_text(self) -> (s: String)
        ensures
            s@ == self.chars(),
    ;
}

impl Text for &str {
    open spec fn chars(&self) -> Seq<char> {
        self@
    }

    fn into_text(self) -> (s: String) {
        self.to_owned()
    }
}

impl Text for String {
    open spec fn chars(&self) -> Seq<char> {
        self@
    }

    fn into_text(self) -> (s: String) {
        self
    }
}

} // verus!
