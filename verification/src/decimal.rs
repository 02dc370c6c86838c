//! Decimal numbers as archives write them — whole, fractional or scientific —
//! taken to double precision and cut down to whole units.

use vstd::arithmetic::power2::pow2;
use vstd::prelude::*;

use crate::text;

verus! {

/// Ten to the power `n`.
pub open spec fn tens(n: nat) -> nat
    decreases n,
{
    if n == 0 {
        1
    } else {
        10 * tens((n - 1) as nat)
    }
}

/// Where the highest one bit of `q` stands.
pub open spec fn top_bit(q: nat) -> nat
    decreases q,
{
    if q <= 1 {
        0
    } else {
        1 + top_bit(q / 2)
    }
}

/// `num / den` to the nearest whole number, a tie going to the even one.
pub open spec fn half_even(num: nat, den: nat) -> nat {
    let m = num / den;
    let r = num % den;
    if 2 * r > den || (2 * r == den && m % 2 == 1) {
        m + 1
    } else {
        m
    }
}

/// `q + f / 10^n` rounded to 53 significant bits, then cut to a whole number.
pub open spec fn nearest(q: nat, f: nat, n: nat) -> nat {
    if q < pow2(53) {
        let s = pow2(if q == 0 {
            53
        } else {
            (52 - top_bit(q)) as nat
        });
        half_even((q * tens(n) + f) * s, tens(n)) / s
    } else {
        let s = pow2((top_bit(q) - 52) as nat);
        half_even(q * tens(n) + f, tens(n) * s) * s
    }
}

/// The same, as far as 64 bits can hold it.
pub open spec fn saturated(q: nat, f: nat, n: nat) -> u64 {
    if q > u64::MAX || nearest(q, f, n) > u64::MAX {
        u64::MAX
    } else {
        nearest(q, f, n) as u64
    }
}

/// `n` zeros.
pub open spec fn zeros(n: nat) -> Seq<char> {
    Seq::new(n, |i: int| '0')
}

/// The digits before a decimal point standing after `p` of them.
pub open spec fn whole_part(ds: Seq<char>, p: int) -> Seq<char> {
    if p <= 0 {
        Seq::empty()
    } else if p <= ds.len() {
        ds.take(p)
    } else {
        ds + zeros((p - ds.len()) as nat)
    }
}

/// The digits after a decimal point standing after `p` of them.
pub open spec fn frac_part(ds: Seq<char>, p: int) -> Seq<char> {
    if p < 0 {
        zeros((-p) as nat) + ds
    } else if p <= ds.len() {
        ds.skip(p)
    } else {
        Seq::empty()
    }
}

/// Digits with a decimal point standing after `p` of them, in whole units.
pub open spec fn placed(ds: Seq<char>, p: int) -> u64 {
    saturated(
        text::digits_value(whole_part(ds, p), 10),
        text::digits_value(frac_part(ds, p), 10),
        frac_part(ds, p).len(),
    )
}

/// The first place from `i` on that holds `a` or `b`, or the end.
pub open spec fn first_of(s: Seq<char>, i: int, a: char, b: char) -> int
    decreases s.len() - i,
{
    if i >= s.len() || s[i] == a || s[i] == b {
        i
    } else {
        first_of(s, i + 1, a, b)
    }
}

/// An optional sign, and what follows it.
pub open spec fn unsigned(s: Seq<char>) -> Seq<char> {
    if s.len() > 0 && (s[0] == '-' || s[0] == '+') {
        s.skip(1)
    } else {
        s
    }
}

/// Whether a minus stands in front.
pub open spec fn negative(s: Seq<char>) -> bool {
    s.len() > 0 && s[0] == '-'
}

/// A letter without its case.
pub open spec fn lower(c: char) -> char {
    if 'A' <= c <= 'Z' {
        ((c as int) + 32) as char
    } else {
        c
    }
}

/// Whether `s` is `word`, in either case.
pub open spec fn same_word(s: Seq<char>, word: Seq<char>) -> bool {
    s.len() == word.len() && forall|i: int| 0 <= i < s.len() ==> #[trigger] lower(s[i]) == word[i]
}

/// The power of ten behind an `e`, where there is one.
pub open spec fn exponent(s: Seq<char>) -> Option<int> {
    let x = unsigned(s);
    if x.len() > 0 && text::all_digits(x, 10) {
        let n = text::digits_value(x, 10) as int;
        Some(if negative(s) {
            -n
        } else {
            n
        })
    } else {
        None
    }
}

/// The digits of a mantissa, its point taken out.
pub open spec fn mantissa_digits(mant: Seq<char>) -> Seq<char> {
    let point = first_of(mant, 0, '.', '.');
    mant.take(point) + if point < mant.len() {
        mant.skip(point + 1)
    } else {
        Seq::empty()
    }
}

/// Digits, with an optional point among them and an optional power of ten
/// behind: the digits, and where the point stands in the end.
pub open spec fn scientific(s: Seq<char>) -> Option<(Seq<char>, int)> {
    let e = first_of(s, 0, 'e', 'E');
    let ds = mantissa_digits(s.take(e));
    let point = first_of(s.take(e), 0, '.', '.');
    let exp = if e < s.len() {
        exponent(s.skip(e + 1))
    } else {
        Some(0)
    };
    if ds.len() > 0 && text::all_digits(ds, 10) && exp is Some {
        Some((ds, point + exp->0))
    } else {
        None
    }
}

/// A decimal number in whole units, cut off at the ends of 64 bits: nothing
/// below zero, nothing for what is no number.
pub open spec fn number(s: Seq<char>) -> Option<u64> {
    let body = unsigned(s);
    if same_word(body, seq!['i', 'n', 'f']) || same_word(
        body,
        seq!['i', 'n', 'f', 'i', 'n', 'i', 't', 'y'],
    ) {
        Some(if negative(s) {
            0
        } else {
            u64::MAX
        })
    } else if same_word(body, seq!['n', 'a', 'n']) {
        Some(0)
    } else {
        match scientific(body) {
            Some((ds, p)) => Some(
                if negative(s) {
                    0
                } else {
                    placed(ds, p)
                },
            ),
            None => None,
        }
    }
}

proof fn lemma_tens_positive(n: nat)
    ensures
        tens(n) >= 1,
    decreases n,
{
    if n > 0 {
        lemma_tens_positive((n - 1) as nat);
    }
}

/// Digits spell less than ten to their count.
pub proof fn lemma_value_bound(s: Seq<char>)
    requires
        text::all_digits(s, 10),
    ensures
        text::digits_value(s, 10) < tens(s.len()),
    decreases s.len(),
{
    if s.len() > 0 {
        let init = s.drop_last();
        assert(text::all_digits(init, 10)) by {
            assert forall|i: int| 0 <= i < init.len() implies 48 <= ((#[trigger] init[i]) as int) < 58 by {
                assert(init[i] == s[i]);
                assert(48 <= (s[i] as int) < 58);
            }
        }
        lemma_value_bound(init);
        assert(48 <= (s[s.len() - 1] as int) < 58);
    }
}

/// The first digit counts for ten to the number of those after it.
proof fn lemma_value_head(s: Seq<char>)
    requires
        s.len() > 0,
        s[0] as int >= 48,
    ensures
        text::digits_value(s, 10) == ((s[0] as int) - 48) * tens((s.len() - 1) as nat)
            + text::digits_value(s.skip(1), 10),
    decreases s.len(),
{
    if s.len() == 1 {
        assert(s.drop_last() =~= Seq::<char>::empty());
        assert(s.skip(1) =~= Seq::<char>::empty());
        assert(text::digits_value(Seq::<char>::empty(), 10) == 0);
        assert(tens(0) == 1);
        let d = (s[0] as int) - 48;
        assert(d * tens(0) == d) by (nonlinear_arith)
            requires
                tens(0) == 1,
        ;
    } else {
        let init = s.drop_last();
        lemma_value_head(init);
        assert(s.skip(1).drop_last() =~= init.skip(1));
        assert(s.skip(1).last() == s.last());
        assert(tens((s.len() - 1) as nat) == 10 * tens((init.len() - 1) as nat));
        assert(init[0] == s[0]);
        let d = (s[0] as int) - 48;
        let t = tens((init.len() - 1) as nat);
        assert((d * t) * 10 == d * (10 * t)) by (nonlinear_arith);
    }
}

/// Zeros in front spell nothing.
proof fn lemma_zeros_value(s: Seq<char>, k: int)
    requires
        0 <= k <= s.len(),
        forall|i: int| 0 <= i < k ==> s[i] == '0',
    ensures
        text::digits_value(s.take(k), 10) == 0,
    decreases k,
{
    if k > 0 {
        lemma_zeros_value(s, k - 1);
        assert(s.take(k).drop_last() =~= s.take(k - 1));
        assert(s.take(k).last() == s[k - 1]);
    }
}

/// Zeros make no difference in front of other digits.
proof fn lemma_leading_zero(s: Seq<char>)
    requires
        s.len() > 0,
        s[0] == '0',
        text::all_digits(s, 10),
    ensures
        10 * text::digits_value(s, 10) < tens(s.len()),
{
    lemma_value_head(s);
    let rest = s.skip(1);
    assert(text::all_digits(rest, 10)) by {
        assert forall|i: int| 0 <= i < rest.len() implies 48 <= ((#[trigger] rest[i]) as int) < 58 by {
            assert(rest[i] == s[i + 1]);
            assert(48 <= (s[i + 1] as int) < 58);
        }
    }
    lemma_value_bound(rest);
    assert(0 * tens((s.len() - 1) as nat) == 0);
}

/// A nonzero digit with `k` more behind it makes at least ten to the `k`.
proof fn lemma_value_large(s: Seq<char>, lead: int)
    requires
        0 <= lead < s.len(),
        text::all_digits(s, 10),
        s[lead] != '0',
    ensures
        text::digits_value(s, 10) >= tens((s.len() - 1 - lead) as nat),
    decreases s.len(),
{
    if s.len() - 1 == lead {
        assert(48 <= (s[lead] as int));
        assert(s.last() == s[lead]);
        let v = text::digits_value(s.drop_last(), 10);
        assert(v * 10 >= 0);
    } else {
        let init = s.drop_last();
        assert(text::all_digits(init, 10)) by {
            assert forall|i: int| 0 <= i < init.len() implies 48 <= ((#[trigger] init[i]) as int) < 58 by {
                assert(init[i] == s[i]);
                assert(48 <= (s[i] as int) < 58);
            }
        }
        lemma_value_large(init, lead);
        assert(48 <= (s[s.len() - 1] as int));
    }
}

/// Twice a fraction's digits; `true` when it spills over the point.
fn double(frac: &mut Vec<char>) -> (carry: bool)
    requires
        text::all_digits(old(frac)@, 10),
    ensures
        final(frac)@.len() == old(frac)@.len(),
        text::all_digits(final(frac)@, 10),
        2 * text::digits_value(old(frac)@, 10) == (if carry {
            tens(old(frac)@.len())
        } else {
            0
        }) + text::digits_value(final(frac)@, 10),
{
    let n: usize = frac.len();
    let mut i: usize = n;
    let mut carry: bool = false;
    assert(frac@.skip(n as int) =~= Seq::<char>::empty());
    while i > 0
        invariant
            i <= n,
            n == old(frac)@.len(),
            frac@.len() == n,
            text::all_digits(old(frac)@, 10),
            text::all_digits(frac@, 10),
            forall|j: int| 0 <= j < i ==> frac@[j] == old(frac)@[j],
            2 * text::digits_value(old(frac)@.skip(i as int), 10) == (if carry {
                tens((n - i) as nat)
            } else {
                0
            }) + text::digits_value(frac@.skip(i as int), 10),
        decreases i,
    {
        let ghost before = frac@;
        let ghost was = carry;
        i -= 1;
        let ch: char = frac[i];
        let c: u32 = ch as u32;
        proof {
            vstd::utf8::char_u32_cast(ch, c);
            assert(48 <= (before[i as int] as int) < 58);
        }
        let d: u8 = 2 * (c - 48) as u8 + if carry {
            1
        } else {
            0
        };
        carry = d >= 10;
        let now: char = (48 + d % 10) as char;
        frac.set(i, now);
        proof {
            let o = old(frac)@.skip(i as int);
            let f = frac@.skip(i as int);
            assert(o.skip(1) =~= old(frac)@.skip(i + 1));
            assert(f.skip(1) =~= before.skip(i + 1));
            assert(o[0] == before[i as int]);
            lemma_value_head(o);
            lemma_value_head(f);
            let t = tens((n - i - 1) as nat);
            assert(tens((n - i) as nat) == 10 * t);
            let a = (o[0] as int) - 48;
            let b = (f[0] as int) - 48;
            let w: int = if was {
                1
            } else {
                0
            };
            let k: int = if carry {
                1
            } else {
                0
            };
            assert(2 * a + w == 10 * k + b);
            assert(2 * (a * t) + w * t == (10 * k + b) * t) by (nonlinear_arith)
                requires
                    2 * a + w == 10 * k + b,
            ;
            assert((10 * k + b) * t == k * (10 * t) + b * t) by (nonlinear_arith);
            assert(w * t == if was {
                t
            } else {
                0
            }) by (nonlinear_arith)
                requires
                    w == (if was {
                        1int
                    } else {
                        0int
                    }),
            ;
            assert(k * (10 * t) == if carry {
                10 * t
            } else {
                0
            }) by (nonlinear_arith)
                requires
                    k == (if carry {
                        1int
                    } else {
                        0int
                    }),
            ;
        }
    }
    assert(frac@.skip(0) =~= frac@);
    assert(old(frac)@.skip(0) =~= old(frac)@);
    carry
}

/// Whether every digit is zero.
fn is_zero(frac: &Vec<char>) -> (r: bool)
    requires
        text::all_digits(frac@, 10),
    ensures
        r == (text::digits_value(frac@, 10) == 0),
{
    let mut i: usize = 0;
    while i < frac.len()
        invariant
            i <= frac.len(),
            text::all_digits(frac@, 10),
            forall|j: int| 0 <= j < i ==> frac@[j] == '0',
        decreases frac.len() - i,
    {
        if frac[i] != '0' {
            proof {
                lemma_value_large(frac@, i as int);
                lemma_tens_positive((frac@.len() - 1 - i) as nat);
            }
            return false;
        }
        i += 1;
    }
    proof {
        lemma_zeros_value(frac@, frac@.len() as int);
        assert(frac@.take(frac@.len() as int) =~= frac@);
    }
    true
}

/// `top_bit`, by counting halvings.
fn top_bit_of(q: u64) -> (k: u32)
    requires
        q >= 1,
    ensures
        k == top_bit(q as nat),
        k < 64,
        pow2(k as nat) <= q < pow2(k as nat + 1),
{
    let mut x: u64 = q;
    let mut k: u32 = 0;
    proof {
        vstd::arithmetic::power2::lemma2_to64();
        vstd::arithmetic::power2::lemma2_to64_rest();
        assert(q * pow2(0) == q) by (nonlinear_arith)
            requires
                pow2(0) == 1,
        ;
        assert(q < (q + 1) * pow2(0)) by (nonlinear_arith)
            requires
                pow2(0) == 1,
        ;
    }
    while x > 1
        invariant
            x >= 1,
            q >= 1,
            top_bit(q as nat) == k + top_bit(x as nat),
            x * pow2(k as nat) <= q < (x + 1) * pow2(k as nat),
            k < 64,
            q <= u64::MAX,
        decreases x,
    {
        let ghost was = x;
        x = x / 2;
        proof {
            vstd::arithmetic::power2::lemma_pow2_unfold((k + 1) as nat);
            let p = pow2(k as nat);
            assert(x * (2 * p) <= was * p) by (nonlinear_arith)
                requires
                    2 * x <= was,
                    p >= 0,
            ;
            assert((was + 1) * p <= (x + 1) * (2 * p)) by (nonlinear_arith)
                requires
                    was <= 2 * x + 1,
                    p >= 0,
            ;
            if k >= 63 {
                vstd::arithmetic::power2::lemma2_to64_rest();
                vstd::arithmetic::power2::lemma2_to64();
                assert(was * p >= 2 * pow2(63)) by (nonlinear_arith)
                    requires
                        was >= 2,
                        p == pow2(63),
                ;
            }
        }
        k += 1;
    }
    proof {
        assert(1 * pow2(k as nat) == pow2(k as nat));
        vstd::arithmetic::power2::lemma_pow2_unfold((k + 1) as nat);
    }
    k
}

/// Below 53 bits the fraction decides only whether it rounds up to a whole.
fn nearest_small(q: u64, frac: Vec<char>) -> (r: u64)
    requires
        text::all_digits(frac@, 10),
        q < 0x20_0000_0000_0000,
    ensures
        r == nearest(q as nat, text::digits_value(frac@, 10), frac@.len()),
{
    let mut frac = frac;
    let ghost n = frac@.len();
    let ghost f = text::digits_value(frac@, 10);
    let ghost den = tens(n);
    proof {
        vstd::arithmetic::power2::lemma2_to64();
        vstd::arithmetic::power2::lemma2_to64_rest();
        lemma_tens_positive(n);
        lemma_value_bound(frac@);
    }
    let t: u32 = if q == 0 {
        53
    } else {
        let k: u32 = top_bit_of(q);
        proof {
            if k >= 53 {
                vstd::arithmetic::power2::lemma_pow2_strictly_increases(53, (k + 1) as nat);
                if k > 53 {
                    vstd::arithmetic::power2::lemma_pow2_strictly_increases(53, k as nat);
                }
            }
            vstd::arithmetic::power2::lemma_pow2_adds((k + 1) as nat, (52 - k) as nat);
            let p = pow2((52 - k) as nat);
            assert((q + 1) * p <= pow2(k as nat + 1) * p) by (nonlinear_arith)
                requires
                    q + 1 <= pow2(k as nat + 1),
                    p >= 0,
            ;
        }
        52 - k
    };
    let ghost s = pow2(t as nat);
    assert((q + 1) * s <= pow2(53));
    let mut m: u64 = q;
    let mut i: u32 = 0;
    proof {
        assert((q * den + f) * pow2(0) == q * den + f) by (nonlinear_arith)
            requires
                pow2(0) == 1,
        ;
        assert((q + 1) * pow2(0) == q + 1) by (nonlinear_arith)
            requires
                pow2(0) == 1,
        ;
    }
    while i < t
        invariant
            i <= t,
            t <= 53,
            text::all_digits(frac@, 10),
            frac@.len() == n,
            den == tens(n),
            m * den + text::digits_value(frac@, 10) == (q * den + f) * pow2(i as nat),
            m + 1 <= (q + 1) * pow2(i as nat),
            (q + 1) * pow2(t as nat) <= 0x20_0000_0000_0000,
        decreases t - i,
    {
        let ghost was = m;
        let ghost v = text::digits_value(frac@, 10);
        proof {
            vstd::arithmetic::power2::lemma_pow2_unfold((i + 1) as nat);
            vstd::arithmetic::power2::lemma_pow2_strictly_increases(i as nat, t as nat);
            let a = pow2(i as nat);
            let b = pow2(t as nat);
            assert((q + 1) * a <= (q + 1) * b) by (nonlinear_arith)
                requires
                    a <= b,
                    q + 1 >= 0,
            ;
        }
        let carry: bool = double(&mut frac);
        m = 2 * m + if carry {
            1
        } else {
            0
        };
        proof {
            let w = text::digits_value(frac@, 10);
            let c: int = if carry {
                1
            } else {
                0
            };
            assert(c * den == if carry {
                den as int
            } else {
                0
            }) by (nonlinear_arith)
                requires
                    c == (if carry {
                        1int
                    } else {
                        0int
                    }),
            ;
            assert((2 * was + c) * den + w == 2 * (was * den + v)) by (nonlinear_arith)
                requires
                    2 * v == c * den + w,
            ;
            let p = pow2(i as nat);
            assert(2 * ((q * den + f) * p) == (q * den + f) * (2 * p)) by (nonlinear_arith);
            assert(2 * ((q + 1) * p) == (q + 1) * (2 * p)) by (nonlinear_arith);
        }
        i += 1;
    }
    let ghost r = text::digits_value(frac@, 10);
    proof {
        lemma_value_bound(frac@);
        let num = ((q * den + f) * s) as nat;
        assert(num == m * den + r);
        vstd::arithmetic::div_mod::lemma_fundamental_div_mod_converse(
            num as int,
            den as int,
            m as int,
            r as int,
        );
    }
    let carry: bool = double(&mut frac);
    let tie: bool = is_zero(&frac);
    proof {
        lemma_value_bound(frac@);
    }
    let up: bool = carry && (!tie || m % 2 == 1);
    let rounded: u64 = if up {
        m + 1
    } else {
        m
    };
    assert(rounded == half_even(((q * den + f) * s) as nat, den));
    let mut out: u64 = rounded;
    let mut j: u32 = 0;
    proof {
        assert(rounded as int / 1 == rounded);
    }
    while j < t
        invariant
            j <= t,
            out == rounded as nat / pow2(j as nat),
        decreases t - j,
    {
        proof {
            vstd::arithmetic::power2::lemma_pow2_unfold((j + 1) as nat);
            vstd::arithmetic::power2::lemma_pow2_pos(j as nat);
            vstd::arithmetic::div_mod::lemma_div_denominator(
                rounded as int,
                pow2(j as nat) as int,
                2,
            );
            assert(pow2(j as nat) * 2 == pow2((j + 1) as nat));
        }
        out = out / 2;
        j += 1;
    }
    out
}

/// From 53 bits up the last bits of the whole part are rounded off.
fn nearest_large(q: u64, frac: &Vec<char>) -> (r: u64)
    requires
        text::all_digits(frac@, 10),
        q >= 0x20_0000_0000_0000,
    ensures
        r == saturated(q as nat, text::digits_value(frac@, 10), frac@.len()),
{
    let ghost n = frac@.len();
    let ghost f = text::digits_value(frac@, 10);
    let ghost den = tens(n);
    proof {
        vstd::arithmetic::power2::lemma2_to64();
        vstd::arithmetic::power2::lemma2_to64_rest();
        lemma_tens_positive(n);
        lemma_value_bound(frac@);
    }
    let k: u32 = top_bit_of(q);
    proof {
        if k < 53 {
            if k + 1 < 53 {
                vstd::arithmetic::power2::lemma_pow2_strictly_increases((k + 1) as nat, 53);
            }
        }
    }
    let e: u32 = k - 52;
    let mut s: u64 = 1;
    let mut i: u32 = 0;
    while i < e
        invariant
            i <= e,
            e <= 11,
            s == pow2(i as nat),
            s <= 2048,
        decreases e - i,
    {
        proof {
            vstd::arithmetic::power2::lemma_pow2_unfold((i + 1) as nat);
            vstd::arithmetic::power2::lemma2_to64();
            if i + 1 < 11 {
                vstd::arithmetic::power2::lemma_pow2_strictly_increases((i + 1) as nat, 11);
            }
        }
        s = s * 2;
        i += 1;
    }
    proof {
        vstd::arithmetic::power2::lemma_pow2_unfold(e as nat);
        vstd::arithmetic::power2::lemma_pow2_pos((e - 1) as nat);
    }
    let m: u64 = q / s;
    let rem: u64 = q % s;
    let exact: bool = is_zero(frac);
    let up: bool = 2 * rem > s || (2 * rem == s && (!exact || m % 2 == 1));
    proof {
        let big = (den * s) as nat;
        let num = (q * den + f) as nat;
        let r = (rem * den + f) as nat;
        assert(q == m * s + rem) by {
            vstd::arithmetic::div_mod::lemma_fundamental_div_mod(q as int, s as int);
            assert(s * (q as int / s as int) == m * s) by (nonlinear_arith)
                requires
                    m == q as int / s as int,
            ;
        }
        assert(num == m * big + r) by (nonlinear_arith)
            requires
                q == m * s + rem,
                big == den * s,
                num == q * den + f,
                r == rem * den + f,
        ;
        assert(r < big) by (nonlinear_arith)
            requires
                rem + 1 <= s,
                f < den,
                r == rem * den + f,
                big == den * s,
        ;
        vstd::arithmetic::div_mod::lemma_fundamental_div_mod_converse(
            num as int,
            big as int,
            m as int,
            r as int,
        );
        if 2 * rem > s {
            assert(2 * r > big) by (nonlinear_arith)
                requires
                    2 * rem >= s + 1,
                    den >= 1,
                    r == rem * den + f,
                    big == den * s,
            ;
        } else if 2 * rem == s {
            assert(2 * r == big + 2 * f) by (nonlinear_arith)
                requires
                    2 * rem == s,
                    r == rem * den + f,
                    big == den * s,
            ;
        } else {
            assert(s == 2 * pow2((e - 1) as nat));
            assert(2 * r < big) by (nonlinear_arith)
                requires
                    2 * rem + 2 <= s,
                    f < den,
                    r == rem * den + f,
                    big == den * s,
            ;
        }
        assert((m + if up {
            1int
        } else {
            0
        }) == half_even(num, big));
    }
    let next: u128 = m as u128 + if up {
        1
    } else {
        0
    };
    assert(next * s <= 0x1_0000_0000_0000_0000 * 2048) by (nonlinear_arith)
        requires
            next <= 0x1_0000_0000_0000_0000,
            s <= 2048,
    ;
    let wide: u128 = next * s as u128;
    if wide > u64::MAX as u128 {
        u64::MAX
    } else {
        wide as u64
    }
}

/// Where the first digit that is not zero stands, if there is one.
fn first_nonzero(ds: &Vec<char>) -> (lead: usize)
    ensures
        lead <= ds@.len(),
        forall|i: int| 0 <= i < lead ==> ds@[i] == '0',
        lead < ds@.len() ==> ds@[lead as int] != '0',
{
    let mut lead: usize = 0;
    while lead < ds.len() && ds[lead] == '0'
        invariant
            lead <= ds@.len(),
            forall|i: int| 0 <= i < lead ==> ds@[i] == '0',
        decreases ds.len() - lead,
    {
        lead += 1;
    }
    lead
}

/// Nothing but zeros is nothing, wherever the point stands.
proof fn lemma_placed_zero(ds: Seq<char>, p: int)
    requires
        forall|i: int| 0 <= i < ds.len() ==> ds[i] == '0',
    ensures
        placed(ds, p) == 0,
{
    let w = whole_part(ds, p);
    let f = frac_part(ds, p);
    lemma_zeros_value(w, w.len() as int);
    lemma_zeros_value(f, f.len() as int);
    assert(w.take(w.len() as int) =~= w);
    assert(f.take(f.len() as int) =~= f);
    vstd::arithmetic::power2::lemma2_to64();
    vstd::arithmetic::power2::lemma2_to64_rest();
    lemma_nearest_tiny(0, f.len());
}

/// Less than a tenth rounds to nothing.
proof fn lemma_nearest_tiny(f: nat, n: nat)
    requires
        10 * f < tens(n) || f == 0,
    ensures
        nearest(0, f, n) == 0,
{
    vstd::arithmetic::power2::lemma2_to64();
    vstd::arithmetic::power2::lemma2_to64_rest();
    lemma_tens_positive(n);
    let den = tens(n);
    let s = pow2(53);
    let num = (0 * den + f) * s;
    assert(0 * den == 0);
    let m = num / den;
    vstd::arithmetic::div_mod::lemma_fundamental_div_mod(num as int, den as int);
    vstd::arithmetic::div_mod::lemma_mod_bound(num as int, den as int);
    assert(m < 0x10_0000_0000_0000) by (nonlinear_arith)
        requires
            num == f * s,
            den * m <= num,
            10 * f < den || f == 0,
            den >= 1,
            s == 0x20_0000_0000_0000,
            f >= 0,
    ;
    let h = half_even(num, den);
    assert(h < s);
    vstd::arithmetic::div_mod::lemma_basic_div(h as int, s as int);
}

/// A point far in front of the first digit leaves less than a tenth.
proof fn lemma_placed_tiny(ds: Seq<char>, p: int, lead: int)
    requires
        text::all_digits(ds, 10),
        0 <= lead <= ds.len(),
        forall|i: int| 0 <= i < lead ==> ds[i] == '0',
        p < lead,
    ensures
        placed(ds, p) == 0,
{
    let w = whole_part(ds, p);
    let f = frac_part(ds, p);
    lemma_zeros_value(w, w.len() as int);
    assert(w.take(w.len() as int) =~= w);
    assert(f[0] == '0');
    assert(text::all_digits(f, 10));
    lemma_leading_zero(f);
    lemma_nearest_tiny(text::digits_value(f, 10), f.len());
}

proof fn lemma_tens_grow(a: nat, b: nat)
    requires
        a <= b,
    ensures
        tens(a) <= tens(b),
    decreases b,
{
    if a < b {
        lemma_tens_grow(a, (b - 1) as nat);
    }
}

/// A point far behind the first digit makes more than 64 bits can hold.
proof fn lemma_placed_huge(ds: Seq<char>, p: int, lead: int)
    requires
        text::all_digits(ds, 10),
        0 <= lead < ds.len(),
        ds[lead] != '0',
        p - lead > 20,
    ensures
        placed(ds, p) == u64::MAX,
{
    let w = whole_part(ds, p);
    assert(text::all_digits(w, 10));
    assert(w[lead] == ds[lead]);
    lemma_value_large(w, lead);
    lemma_tens_grow(20, (w.len() - 1 - lead) as nat);
    assert(tens(20) == 100_000_000_000_000_000_000) by {
        reveal_with_fuel(tens, 21);
    }
}

/// `placed`, for a point `extra` digits behind the first that counts.
fn placed_near(ds: &Vec<char>, lead: usize, extra: usize) -> (r: u64)
    requires
        text::all_digits(ds@, 10),
        lead < ds@.len(),
        forall|i: int| 0 <= i < lead ==> ds@[i] == '0',
        extra <= 20,
    ensures
        r == placed(ds@, lead + extra),
{
    let ghost p = lead + extra;
    let ghost w = whole_part(ds@, p);
    assert(w.len() == p);
    let mut q: u128 = 0;
    let mut k: usize = 0;
    proof {
        lemma_zeros_value(w, lead as int);
        assert(tens(20) == 100_000_000_000_000_000_000) by {
            reveal_with_fuel(tens, 21);
        }
    }
    while k < extra
        invariant
            k <= extra <= 20,
            lead < ds@.len(),
            p == lead + extra,
            w == whole_part(ds@, p),
            w.len() == p,
            text::all_digits(ds@, 10),
            q == text::digits_value(w.take(lead + k), 10),
            q < tens(k as nat),
            tens(20) == 100_000_000_000_000_000_000,
        decreases extra - k,
    {
        let ch: char = if k < ds.len() - lead {
            ds[lead + k]
        } else {
            '0'
        };
        let c: u32 = ch as u32;
        proof {
            vstd::utf8::char_u32_cast(ch, c);
            assert(w[lead + k] == ch);
            assert(48 <= (ch as int) < 58);
            assert(w.take(lead + k + 1).drop_last() =~= w.take(lead + k));
            lemma_tens_grow(k as nat, 20);
        }
        q = q * 10 + (c - 48) as u128;
        k += 1;
    }
    assert(w.take(p) =~= w);
    let mut frac: Vec<char> = Vec::new();
    if extra < ds.len() - lead {
        let mut i: usize = lead + extra;
        while i < ds.len()
            invariant
                p <= i <= ds@.len(),
                0 <= p,
                frac@ == ds@.subrange(p, i as int),
            decreases ds.len() - i,
        {
            frac.push(ds[i]);
            i += 1;
            assert(ds@.subrange(p, i as int) =~= ds@.subrange(p, i - 1).push(ds@[i - 1]));
        }
    }
    assert(frac@ =~= frac_part(ds@, p));
    assert(text::all_digits(frac@, 10));
    proof {
        vstd::arithmetic::power2::lemma2_to64();
        vstd::arithmetic::power2::lemma2_to64_rest();
    }
    if q > u64::MAX as u128 {
        u64::MAX
    } else if q < 0x20_0000_0000_0000 {
        nearest_small(q as u64, frac)
    } else {
        nearest_large(q as u64, &frac)
    }
}

/// An exponent's digits, as far as 100 bits can hold them.
fn exponent_size(x: &[char]) -> (r: Option<u128>)
    ensures
        r == (if x@.len() > 0 && text::all_digits(x@, 10) {
            let n = text::digits_value(x@, 10);
            Some(
                if n < 0x10_0000_0000_0000_0000_0000_0000 {
                    n as u128
                } else {
                    0x10_0000_0000_0000_0000_0000_0000
                },
            )
        } else {
            None
        }),
{
    if x.len() == 0 {
        return None;
    }
    let mut n: u128 = 0;
    let mut i: usize = 0;
    while i < x.len()
        invariant
            i <= x.len(),
            text::all_digits(x@.take(i as int), 10),
            n <= 0x10_0000_0000_0000_0000_0000_0000,
            n < 0x10_0000_0000_0000_0000_0000_0000 ==> n == text::digits_value(
                x@.take(i as int),
                10,
            ),
            n == 0x10_0000_0000_0000_0000_0000_0000 ==> text::digits_value(x@.take(i as int), 10)
                >= n,
        decreases x.len() - i,
    {
        let ch: char = x[i];
        let c: u32 = ch as u32;
        let ghost before = x@.take(i as int);
        let ghost after = x@.take(i + 1);
        proof {
            vstd::utf8::char_u32_cast(ch, c);
            assert(after.drop_last() =~= before);
            assert(after.last() == ch);
        }
        if c < 48 || c > 57 {
            assert(!text::all_digits(x@, 10)) by {
                assert(x@[i as int] as int == c);
            }
            return None;
        }
        assert(text::all_digits(after, 10)) by {
            assert forall|j: int| 0 <= j < after.len() implies 48 <= ((
            #[trigger] after[j]) as int) < 58 by {
                if j < i {
                    assert(before[j] == after[j]);
                }
            }
        }
        if n < 0x10_0000_0000_0000_0000_0000_0000 {
            n = n * 10 + (c - 48) as u128;
            if n > 0x10_0000_0000_0000_0000_0000_0000 {
                n = 0x10_0000_0000_0000_0000_0000_0000;
            }
        }
        i += 1;
    }
    assert(x@.take(i as int) =~= x@);
    Some(n)
}

/// `first_of`, by looking.
fn find_either(s: &[char], a: char, b: char) -> (i: usize)
    ensures
        i == first_of(s@, 0, a, b),
        i <= s@.len(),
{
    let mut i: usize = 0;
    while i < s.len() && s[i] != a && s[i] != b
        invariant
            i <= s@.len(),
            first_of(s@, 0, a, b) == first_of(s@, i as int, a, b),
        decreases s.len() - i,
    {
        i += 1;
    }
    i
}

/// `same_word`, letter by letter.
fn is_word(s: &[char], word: &Vec<char>) -> (r: bool)
    ensures
        r == same_word(s@, word@),
{
    if s.len() != word.len() {
        return false;
    }
    let mut i: usize = 0;
    while i < s.len()
        invariant
            i <= s@.len(),
            s@.len() == word@.len(),
            forall|j: int| 0 <= j < i ==> #[trigger] lower(s@[j]) == word@[j],
        decreases s.len() - i,
    {
        let c: char = s[i];
        let l: char = if 'A' <= c && c <= 'Z' {
            (c as u8 + 32) as char
        } else {
            c
        };
        assert(l == lower(c));
        if l != word[i] {
            assert(lower(s@[i as int]) != word@[i as int]);
            return false;
        }
        i += 1;
    }
    true
}

/// Whether a character is a decimal digit.
fn is_digit(ch: char) -> (r: bool)
    ensures
        r == (48 <= (ch as int) < 58),
{
    let c: u32 = ch as u32;
    proof {
        vstd::utf8::char_u32_cast(ch, c);
    }
    48 <= c && c < 58
}

/// Take the point out of a mantissa: its digits, and where the point stood.
fn mantissa(mant: &[char]) -> (r: Option<(Vec<char>, usize)>)
    ensures
        match r {
            Some((ds, point)) => {
                &&& ds@ == mantissa_digits(mant@)
                &&& point == first_of(mant@, 0, '.', '.')
                &&& ds@.len() > 0
                &&& text::all_digits(ds@, 10)
            },
            None => mantissa_digits(mant@).len() == 0 || !text::all_digits(
                mantissa_digits(mant@),
                10,
            ),
        },
{
    let point: usize = find_either(mant, '.', '.');
    let ghost all = mantissa_digits(mant@);
    let mut ds: Vec<char> = Vec::new();
    let mut i: usize = 0;
    while i < mant.len()
        invariant
            i <= mant@.len(),
            point <= mant@.len(),
            point == first_of(mant@, 0, '.', '.'),
            all == mantissa_digits(mant@),
            ds@ == all.take(if i <= point {
                i as int
            } else {
                i - 1
            }),
            text::all_digits(ds@, 10),
        decreases mant.len() - i,
    {
        if i != point {
            let ch: char = mant[i];
            let ghost at = ds@.len() as int;
            assert(all[at] == ch);
            if !is_digit(ch) {
                assert(!text::all_digits(all, 10));
                return None;
            }
            ds.push(ch);
            assert(all.take(at + 1) =~= ds@);
        }
        i += 1;
    }
    assert(ds@ =~= all);
    if ds.len() == 0 {
        return None;
    }
    Some((ds, point))
}

/// `placed`, for a point moved by a power of ten.
fn place(ds: &Vec<char>, point: usize, back: bool, size: u128, Ghost(n): Ghost<nat>) -> (r: u64)
    requires
        text::all_digits(ds@, 10),
        size == (if n < 0x10_0000_0000_0000_0000_0000_0000 {
            n
        } else {
            0x10_0000_0000_0000_0000_0000_0000
        }),
    ensures
        r == placed(
            ds@,
            if back {
                point - n
            } else {
                point + n
            },
        ),
{
    let ghost p: int = if back {
        point - n
    } else {
        point + n
    };
    let lead: usize = first_nonzero(ds);
    if lead == ds.len() {
        proof {
            lemma_placed_zero(ds@, p);
        }
        return 0;
    }
    let gain: u128 = if back {
        0
    } else {
        size
    };
    let loss: u128 = if back {
        size
    } else {
        0
    };
    if point as u128 + gain < lead as u128 + loss {
        proof {
            lemma_placed_tiny(ds@, p, lead as int);
        }
        return 0;
    }
    let behind: u128 = point as u128 + gain - loss - lead as u128;
    if behind > 20 {
        proof {
            lemma_placed_huge(ds@, p, lead as int);
        }
        return u64::MAX;
    }
    placed_near(ds, lead, behind as usize)
}

/// Read digits with an optional point and an optional power of ten.
fn parse_scientific(body: &[char]) -> (r: Option<u64>)
    ensures
        r == (match scientific(body@) {
            Some((ds, p)) => Some(placed(ds, p)),
            None => None,
        }),
{
    let e: usize = find_either(body, 'e', 'E');
    let mant: &[char] = vstd::slice::slice_subrange(body, 0, e);
    assert(mant@ =~= body@.take(e as int));
    let (ds, point) = match mantissa(mant) {
        Some(parts) => parts,
        None => {
            return None;
        },
    };
    if e == body.len() {
        return Some(place(&ds, point, false, 0, Ghost(0)));
    }
    let tail: &[char] = vstd::slice::slice_subrange(body, e + 1, body.len());
    assert(tail@ =~= body@.skip(e + 1));
    let back: bool = tail.len() > 0 && tail[0] == '-';
    let x: &[char] = if tail.len() > 0 && (tail[0] == '-' || tail[0] == '+') {
        vstd::slice::slice_subrange(tail, 1, tail.len())
    } else {
        tail
    };
    assert(x@ =~= unsigned(tail@));
    match exponent_size(x) {
        Some(size) => Some(place(&ds, point, back, size, Ghost(text::digits_value(x@, 10)))),
        None => None,
    }
}

/// Read a decimal number.
pub fn parse(s: &[char]) -> (r: Option<u64>)
    ensures
        r == number(s@),
{
    let neg: bool = s.len() > 0 && s[0] == '-';
    let body: &[char] = if s.len() > 0 && (s[0] == '-' || s[0] == '+') {
        vstd::slice::slice_subrange(s, 1, s.len())
    } else {
        s
    };
    assert(body@ =~= unsigned(s@));
    let inf: Vec<char> = vec!['i', 'n', 'f'];
    let infinity: Vec<char> = vec!['i', 'n', 'f', 'i', 'n', 'i', 't', 'y'];
    let nan: Vec<char> = vec!['n', 'a', 'n'];
    assert(inf@ =~= seq!['i', 'n', 'f']);
    assert(infinity@ =~= seq!['i', 'n', 'f', 'i', 'n', 'i', 't', 'y']);
    assert(nan@ =~= seq!['n', 'a', 'n']);
    if is_word(body, &inf) || is_word(body, &infinity) {
        return Some(
            if neg {
                0
            } else {
                u64::MAX
            },
        );
    }
    if is_word(body, &nan) {
        return Some(0);
    }
    match parse_scientific(body) {
        Some(n) => Some(
            if neg {
                0
            } else {
                n
            },
        ),
        None => None,
    }
}

proof fn lemma_top_bit_below(q: nat, k: nat)
    requires
        q < pow2(k + 1),
    ensures
        top_bit(q) <= k,
    decreases k,
{
    if q > 1 {
        vstd::arithmetic::power2::lemma_pow2_unfold(k + 1);
        if k == 0 {
            assert(pow2(0) == 1) by {
                vstd::arithmetic::power2::lemma2_to64();
            }
        } else {
            lemma_top_bit_below(q / 2, (k - 1) as nat);
        }
    }
}

/// A fraction is cut off: a number below 2^32 stays what it is with a fraction
/// behind it, unless the fraction is nearer to one than double precision tells.
pub proof fn law_fractions_are_cut_off(q: nat, f: nat, n: nat)
    requires
        q < 0x1_0000_0000,
        f < tens(n),
        (tens(n) - f) * 4194304 > tens(n),
    ensures
        saturated(q, f, n) == q,
{
    let t = tens(n);
    let e: nat = if q == 0 {
        53
    } else {
        (52 - top_bit(q)) as nat
    };
    vstd::arithmetic::power2::lemma2_to64();
    vstd::arithmetic::power2::lemma2_to64_rest();
    lemma_top_bit_below(q, 31);
    let s = pow2(e);
    if e > 21 {
        vstd::arithmetic::power2::lemma_pow2_strictly_increases(21, e);
    }
    assert(s >= 2097152);
    let num = (q * t + f) * s;
    let m = num / t;
    let r = num % t;
    vstd::arithmetic::div_mod::lemma_fundamental_div_mod(num as int, t as int);
    vstd::arithmetic::div_mod::lemma_mod_bound(num as int, t as int);
    assert(num == t * (q * s) + f * s) by (nonlinear_arith)
        requires
            num == (q * t + f) * s,
    ;
    assert(f * s >= 0 && (t - f) * s >= 0) by (nonlinear_arith)
        requires
            f < t,
    ;
    assert(m >= q * s) by (nonlinear_arith)
        requires
            num == t * m + r,
            0 <= r < t,
            num >= t * (q * s),
    ;
    assert(f * s == t * s - (t - f) * s) by (nonlinear_arith)
        requires
            f < t,
    ;
    assert(t * ((q + 1) * s) == t * (q * s) + t * s) by (nonlinear_arith);
    assert((t - f) * s * 2 >= (t - f) * 4194304) by (nonlinear_arith)
        requires
            s >= 2097152,
            f < t,
    ;
    assert(m < (q + 1) * s) by (nonlinear_arith)
        requires
            num == t * m + r,
            0 <= r < t,
            num <= t * ((q + 1) * s) - (t - f) * s,
            (t - f) * s * 2 > t,
            t > 0,
    ;
    let up = half_even(num, t);
    assert(up < (q + 1) * s) by {
        if up != m {
            assert(2 * r >= t);
            if m + 1 >= (q + 1) * s {
                assert(m + 1 == (q + 1) * s);
                assert(t * (m + 1) == t * m + t) by (nonlinear_arith);
                assert(r == t - (t - f) * s);
            }
        }
    }
    assert((q + 1) * s == q * s + s) by (nonlinear_arith);
    assert(q * s == s * q) by (nonlinear_arith);
    vstd::arithmetic::div_mod::lemma_fundamental_div_mod_converse(
        up as int,
        s as int,
        q as int,
        up - q * s,
    );
    assert(nearest(q, f, n) == q);
}

proof fn lemma_first_at(s: Seq<char>, i: int, k: int, a: char, b: char)
    requires
        0 <= i <= k <= s.len(),
        k < s.len() ==> s[k] == a || s[k] == b,
        forall|j: int| i <= j < k ==> (#[trigger] s[j]) != a && s[j] != b,
    ensures
        first_of(s, i, a, b) == k,
    decreases k - i,
{
    if i < k {
        assert(s[i] != a && s[i] != b);
        lemma_first_at(s, i + 1, k, a, b);
    }
}

/// Digits, a point and digits are read as the number they spell, to double
/// precision and cut down to a whole one; with a sign for less than nothing in
/// front they are read as nothing.
pub proof fn law_numbers_with_a_point_are_read(whole: Seq<char>, part: Seq<char>)
    requires
        whole.len() > 0,
        text::all_digits(whole, 10),
        text::all_digits(part, 10),
    ensures
        number(whole.push('.') + part) == Some(
            saturated(
                text::digits_value(whole, 10),
                text::digits_value(part, 10),
                part.len(),
            ),
        ),
        number(seq!['-'] + (whole.push('.') + part)) == Some(0u64),
{
    let s = whole.push('.') + part;
    let n = whole.len() as int;
    assert(48 <= (whole[0] as int) < 58);
    assert(s[0] == whole[0]);
    assert(lower(s[0]) == s[0]);
    assert(seq!['i', 'n', 'f'][0] == 'i');
    assert(seq!['i', 'n', 'f', 'i', 'n', 'i', 't', 'y'][0] == 'i');
    assert(seq!['n', 'a', 'n'][0] == 'n');
    assert forall|j: int| 0 <= j < s.len() implies (#[trigger] s[j]) != 'e' && s[j] != 'E' by {
        if j < n {
            assert(48 <= (whole[j] as int) < 58);
        } else if j > n {
            assert(48 <= (part[j - n - 1] as int) < 58);
        }
    }
    lemma_first_at(s, 0, s.len() as int, 'e', 'E');
    assert(s.take(s.len() as int) =~= s);
    assert forall|j: int| 0 <= j < n implies (#[trigger] s[j]) != '.' by {
        assert(48 <= (whole[j] as int) < 58);
    }
    lemma_first_at(s, 0, n, '.', '.');
    let ds = mantissa_digits(s);
    assert(s.take(n) =~= whole);
    assert(s.skip(n + 1) =~= part);
    assert(ds =~= whole + part);
    assert forall|i: int| 0 <= i < ds.len() implies 48 <= ((#[trigger] ds[i]) as int) < 48
        + 10 by {
        if i < n {
            assert(48 <= (whole[i] as int) < 58);
        } else {
            assert(48 <= (part[i - n] as int) < 58);
        }
    }
    assert(scientific(s) == Some((ds, n)));
    assert(whole_part(ds, n) =~= whole);
    assert(frac_part(ds, n) =~= part);
    let neg = seq!['-'] + s;
    assert(neg.skip(1) =~= s);
    assert(unsigned(neg) == s);
    assert(unsigned(s) == s);
}

} // verus!
