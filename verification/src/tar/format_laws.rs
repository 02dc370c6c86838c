//! The bytes of an archive: what a header block holds where, and what is read
//! from a stream that opens with given blocks.

use vstd::prelude::*;

use crate::bytes;
use crate::decimal;
use crate::tar::field;
use crate::tar::header::{self, EntryKind, HeaderView};
use crate::tar::laws;
use crate::tar::pax;
use crate::tar::reader::{self, Carry, Fault, ReaderView, Step};
use crate::tar::writer::{self, WriterView};
use crate::text;

verus! {

/// The number that `n` octal digits at byte `at` spell.
pub open spec fn spelled(b: Seq<u8>, at: int, n: nat) -> int
    decreases n,
{
    if n == 0 {
        0
    } else {
        spelled(b, at, (n - 1) as nat) * 8 + (b[at + n - 1] - 48)
    }
}

/// Whether `n` octal digits at byte `at`, with a NUL behind them, spell `v`.
pub open spec fn spells(b: Seq<u8>, at: int, n: nat, v: int) -> bool {
    &&& forall|i: int| at <= i < at + n ==> 48 <= #[trigger] b[i] <= 55
    &&& b[at + n] == 0
    &&& spelled(b, at, n) == v
}

/// The sum of the bytes from `from` up to `to`.
pub open spec fn summed(b: Seq<u8>, from: int, to: int) -> int
    decreases to - from,
{
    if from >= to {
        0
    } else {
        summed(b, from, to - 1) + b[to - 1]
    }
}

/// Octal digits spell the number they are of, as far as they go.
proof fn lemma_digits_spelled(b: Seq<u8>, at: int, v: nat, w: nat)
    requires
        0 <= at,
        at + w <= b.len(),
        forall|i: int| 0 <= i < w ==> #[trigger] b[at + i] == header::octal_digits(v, w)[i],
    ensures
        spelled(b, at, w) == v % laws::eights(w),
    decreases w,
{
    if w > 0 {
        let init = header::octal_digits(v / 8, (w - 1) as nat);
        laws::lemma_octal_spell(v / 8, (w - 1) as nat);
        laws::lemma_octal_spell(v, w);
        assert forall|i: int| 0 <= i < w - 1 implies #[trigger] b[at + i] == init[i] by {
            assert(b[at + i] == header::octal_digits(v, w)[i]);
        }
        lemma_digits_spelled(b, at, v / 8, (w - 1) as nat);
        let e = laws::eights((w - 1) as nat);
        lemma_eights_positive((w - 1) as nat);
        vstd::arithmetic::div_mod::lemma_mod_breakdown(v as int, 8, e as int);
        assert(b[at + (w - 1)] == header::octal_digits(v, w)[w - 1]);
        assert(header::octal_digits(v, w)[w - 1] == (48 + v % 8) as u8);
    }
}

proof fn lemma_eights_positive(n: nat)
    ensures
        laws::eights(n) > 0,
    decreases n,
{
    if n > 0 {
        lemma_eights_positive((n - 1) as nat);
    }
}

proof fn lemma_eights_values()
    ensures
        laws::eights(6) == 262144,
        laws::eights(7) == 2097152,
        laws::eights(11) == 8589934592,
{
    reveal_with_fuel(laws::eights, 12);
}

/// A field that holds digits and a NUL spells what the digits are of.
proof fn lemma_field_spells(b: Seq<u8>, at: int, v: nat, w: nat)
    requires
        0 <= at,
        at + w + 1 <= b.len(),
        b.subrange(at, at + w + 1) == header::octal_digits(v, w).push(0),
    ensures
        spells(b, at, w, (v % laws::eights(w)) as int),
{
    let f = b.subrange(at, at + w + 1);
    laws::lemma_octal_spell(v, w);
    assert forall|i: int| 0 <= i < w implies #[trigger] b[at + i] == header::octal_digits(
        v,
        w,
    )[i] by {
        assert(f[i] == b[at + i]);
    }
    assert forall|i: int| at <= i < at + w implies 48 <= #[trigger] b[i] <= 55 by {
        assert(b[at + (i - at)] == header::octal_digits(v, w)[i - at]);
    }
    assert(f[w as int] == b[at + w]);
    lemma_digits_spelled(b, at, v, w);
}

/// A header block is 512 bytes. The permission bits, the owner and group — no
/// more than fits — the size of what carries contents and the time are octal
/// digits in their fields; the type flag stands at byte 156, "ustar", a NUL and
/// "00" behind the link target, and the device numbers behind the names of
/// owner and group, which are left empty.
pub proof fn law_header_blocks_are_laid_out(h: HeaderView, flag: u8)
    ensures
        ({
            let b = header::encoded(h, flag);
            &&& b.len() == 512
            &&& spells(b, 100, 7, h.mode as int)
            &&& spells(
                b,
                108,
                7,
                if h.uid <= 2097151 {
                    h.uid as int
                } else {
                    2097151
                },
            )
            &&& spells(
                b,
                116,
                7,
                if h.gid <= 2097151 {
                    h.gid as int
                } else {
                    2097151
                },
            )
            &&& flag == 48 || flag == 120 ==> spells(b, 124, 11, h.size as int % 8589934592)
            &&& flag != 48 && flag != 120 ==> spells(b, 124, 11, 0)
            &&& spells(b, 136, 11, h.mtime as int)
            &&& b[156] == flag
            &&& b[257] == 117
            &&& b[258] == 115
            &&& b[259] == 116
            &&& b[260] == 97
            &&& b[261] == 114
            &&& b[262] == 0
            &&& b[263] == 48
            &&& b[264] == 48
            &&& forall|i: int| 265 <= i < 329 || 500 <= i < 512 ==> #[trigger] b[i] == 0
            &&& spells(b, 329, 7, h.major as int % 2097152)
            &&& spells(b, 337, 7, h.minor as int % 2097152)
        }),
{
    let b = header::encoded(h, flag);
    let size = if flag == 48 || flag == 120 {
        h.size as nat
    } else {
        0
    };
    laws::lemma_number_fields(h, flag);
    laws::law_fields_stay_apart(h, flag);
    lemma_eights_values();
    lemma_field_spells(b, 100, h.mode as nat, 7);
    lemma_field_spells(b, 108, header::clamped(h.uid), 7);
    lemma_field_spells(b, 116, header::clamped(h.gid), 7);
    lemma_field_spells(b, 124, size, 11);
    lemma_field_spells(b, 136, h.mtime as nat, 11);
    lemma_field_spells(b, 329, h.major as nat, 7);
    lemma_field_spells(b, 337, h.minor as nat, 7);
    laws::lemma_name_fits(text::utf8(h.path));
    laws::lemma_octal_spell(h.mode as nat, 7);
    laws::lemma_octal_spell(header::clamped(h.uid), 7);
    laws::lemma_octal_spell(header::clamped(h.gid), 7);
    laws::lemma_octal_spell(size, 11);
    laws::lemma_octal_spell(h.mtime as nat, 11);
    laws::lemma_octal_spell(h.major as nat, 7);
    laws::lemma_octal_spell(h.minor as nat, 7);
    laws::lemma_octal_spell(header::byte_sum(header::all_fields(h, flag)), 6);
    assert forall|i: int| 265 <= i < 329 || 500 <= i < 512 implies #[trigger] b[i] == 0 by {}
}

/// Whether a field of `n` bytes at byte `at` holds `s` and zeroes behind it.
pub open spec fn holds(b: Seq<u8>, at: int, n: int, s: Seq<u8>) -> bool {
    &&& s.len() <= n
    &&& forall|i: int| 0 <= i < s.len() ==> b[at + i] == #[trigger] s[i]
    &&& forall|i: int| at + s.len() <= i < at + n ==> #[trigger] b[i] == 0
}

/// A path of at most 100 bytes stands in the name field as it is. A longer one
/// that has a separator with at most 155 bytes in front and at most 100 behind
/// stands in two fields, the prefix and the name, split at the first such
/// separator. A link target stands in its field, cut to 100 bytes.
pub proof fn law_names_stand_in_their_fields(h: HeaderView, flag: u8)
    ensures
        ({
            let b = header::encoded(h, flag);
            let path = text::utf8(h.path);
            let link = text::utf8(h.link);
            &&& path.len() <= 100 ==> holds(b, 0, 100, path) && holds(b, 345, 155, Seq::empty())
            &&& forall|i: int|
                #![trigger path[i]]
                path.len() > 100 && 0 <= i < path.len() && splits_at(path, i) && (forall|j: int|
                    0 <= j < i ==> !#[trigger] splits_at(path, j)) ==> holds(
                    b,
                    345,
                    155,
                    path.take(i),
                ) && holds(b, 0, 100, path.skip(i + 1))
            &&& link.len() <= 100 ==> holds(b, 157, 100, link)
            &&& link.len() > 100 ==> holds(b, 157, 100, link.take(100))
        }),
{
    let b = header::encoded(h, flag);
    let path = text::utf8(h.path);
    let link = text::utf8(h.link);
    let (name, prefix) = field::name_and_prefix(path);
    laws::law_fields_stay_apart(h, flag);
    laws::lemma_name_fits(path);
    lemma_holds(b, 0, 100, name);
    lemma_holds(b, 345, 155, prefix);
    if link.len() <= 100 {
        lemma_holds(b, 157, 100, link);
    } else {
        let l = link.take(100);
        assert(b.subrange(157, 257) =~= l + Seq::new(0, |i: int| 0u8));
        lemma_holds(b, 157, 100, l);
    }
    assert forall|i: int|
        #![trigger path[i]]
        path.len() > 100 && 0 <= i < path.len() && splits_at(path, i) && (forall|j: int|
            0 <= j < i ==> !#[trigger] splits_at(path, j)) implies holds(b, 345, 155, path.take(i))
        && holds(b, 0, 100, path.skip(i + 1)) by {
        lemma_split_at(path, 0, i);
    }
}

/// Whether a path splits at a separator into a prefix of at most 155 bytes and
/// a name of at most 100.
pub open spec fn splits_at(path: Seq<u8>, i: int) -> bool {
    path[i] == 47 && i <= 155 && path.len() - i - 1 <= 100
}

proof fn lemma_split_at(path: Seq<u8>, from: int, i: int)
    requires
        0 <= from <= i < path.len(),
        splits_at(path, i),
        forall|j: int| from <= j < i ==> !#[trigger] splits_at(path, j),
    ensures
        field::split_point(path, from) == i,
    decreases i - from,
{
    if from < i {
        assert(!splits_at(path, from));
        lemma_split_at(path, from + 1, i);
    }
}

proof fn lemma_holds(b: Seq<u8>, at: int, n: int, s: Seq<u8>)
    requires
        0 <= at,
        s.len() <= n,
        at + n <= b.len(),
        b.subrange(at, at + n) == s + Seq::new((n - s.len()) as nat, |i: int| 0u8),
    ensures
        holds(b, at, n, s),
{
    let f = b.subrange(at, at + n);
    assert forall|i: int| 0 <= i < s.len() implies b[at + i] == #[trigger] s[i] by {
        assert(f[i] == b[at + i]);
    }
    assert forall|i: int| at + s.len() <= i < at + n implies #[trigger] b[i] == 0 by {
        assert(f[i - at] == b[i]);
    }
}

/// The sum up to a byte is the sum of what stands in front of it.
proof fn lemma_summed(s: Seq<u8>, n: int)
    requires
        0 <= n <= s.len(),
    ensures
        summed(s, 0, n) == header::byte_sum(s.take(n)),
        0 <= summed(s, 0, n) <= 255 * n,
    decreases n,
{
    if n > 0 {
        lemma_summed(s, n - 1);
        assert(s.take(n).drop_last() =~= s.take(n - 1));
    }
}

/// Sums of neighbouring stretches add up.
proof fn lemma_summed_splits(s: Seq<u8>, from: int, mid: int, to: int)
    requires
        from <= mid <= to,
    ensures
        summed(s, from, to) == summed(s, from, mid) + summed(s, mid, to),
    decreases to - mid,
{
    if mid < to {
        lemma_summed_splits(s, from, mid, to - 1);
    }
}

/// Stretches of the same bytes have the same sum.
proof fn lemma_summed_same(a: Seq<u8>, b: Seq<u8>, from: int, to: int)
    requires
        forall|i: int| from <= i < to ==> a[i] == b[i],
    ensures
        summed(a, from, to) == summed(b, from, to),
    decreases to - from,
{
    if from < to {
        lemma_summed_same(a, b, from, to - 1);
    }
}

/// The checksum of a header block: the six octal digits at byte 148 spell the
/// sum of all bytes of the block, the eight of the checksum's own field taken
/// for spaces. A NUL and a space stand behind the digits.
pub proof fn law_checksum_counts_its_own_field_as_spaces(h: HeaderView, flag: u8)
    ensures
        ({
            let b = header::encoded(h, flag);
            &&& forall|i: int| 148 <= i < 154 ==> 48 <= #[trigger] b[i] <= 55
            &&& 32768 * (b[148] - 48) + 4096 * (b[149] - 48) + 512 * (b[150] - 48) + 64 * (b[151]
                - 48) + 8 * (b[152] - 48) + (b[153] - 48) == summed(b, 0, 148) + 8 * 32 + summed(
                b,
                156,
                512,
            )
            &&& b[154] == 0
            &&& b[155] == 32
        }),
{
    let a = header::all_fields(h, flag);
    let b = header::encoded(h, flag);
    let sum = header::byte_sum(a);
    laws::lemma_octal_spell(sum, 6);
    let ds = header::octal_digits(sum, 6);
    assert forall|i: int| 0 <= i < 6 implies #[trigger] b[148 + i] == ds[i] by {}
    assert forall|i: int| 148 <= i < 154 implies 48 <= #[trigger] b[i] <= 55 by {
        assert(b[148 + (i - 148)] == ds[i - 148]);
    }
    lemma_digits_spelled(b, 148, sum, 6);
    lemma_eights_values();
    assert(a.take(512) =~= a);
    lemma_summed(a, 512);
    lemma_summed_splits(a, 0, 148, 512);
    lemma_summed_splits(a, 148, 156, 512);
    lemma_summed_same(a, b, 0, 148);
    lemma_summed_same(a, b, 156, 512);
    assert forall|i: int| 148 <= i < 156 implies #[trigger] a[i] == 32 by {}
    reveal_with_fuel(summed, 9);
    assert(summed(a, 148, 156) == 8 * 32);
    reveal_with_fuel(spelled, 7);
    assert(spelled(b, 148, 6) == sum);
}

/// Whether the first NUL of `s` stands at byte `k`, or there is none and `k` is
/// the end.
pub open spec fn nul_at(s: Seq<u8>, k: int) -> bool {
    &&& 0 <= k <= s.len()
    &&& forall|i: int| 0 <= i < k ==> #[trigger] s[i] != 0
    &&& k < s.len() ==> s[k] == 0
}

/// Whether these are a header block of the given type, what it says its body
/// is, and what fills the body's last block.
pub open spec fn announces(block: Seq<u8>, body: Seq<u8>, filling: Seq<u8>, flag: u8) -> bool {
    &&& block.len() == 512
    &&& block[156] == flag
    &&& body.len() <= u64::MAX
    &&& field::octal_value(block.subrange(124, 136)) == Some(body.len() as u64)
    &&& filling.len() < 512
    &&& (body.len() + filling.len()) % 512 == 0
}

/// Whether a block is the header of an entry whose numbers can be read.
pub open spec fn is_entry(block: Seq<u8>) -> bool {
    &&& block.len() == 512
    &&& block[156] == 0 || 48 <= block[156] <= 55
    &&& exists|i: int| 0 <= i < 512 && #[trigger] block[i] != 0
    &&& field::octal_value(block.subrange(100, 108)) is Some
    &&& field::octal_value(block.subrange(108, 116)) is Some
    &&& field::octal_value(block.subrange(116, 124)) is Some
    &&& field::octal_value(block.subrange(124, 136)) is Some
    &&& field::octal_value(block.subrange(136, 148)) is Some
}

/// Whether a header has the kind that a block's type flag says.
pub open spec fn is_of_kind(block: Seq<u8>, h: HeaderView) -> bool {
    &&& block[156] == 0 || block[156] == 48 || block[156] == 55 ==> h.kind == EntryKind::File
    &&& block[156] == 49 ==> h.kind == EntryKind::HardLink
    &&& block[156] == 50 ==> h.kind == EntryKind::Symlink
    &&& block[156] == 51 ==> h.kind == EntryKind::CharDevice
    &&& block[156] == 52 ==> h.kind == EntryKind::BlockDevice
    &&& block[156] == 53 ==> h.kind == EntryKind::Directory
    &&& block[156] == 54 ==> h.kind == EntryKind::Fifo
}

/// Whether a header has the permission bits, device numbers and kind that a
/// block's own fields give.
pub open spec fn has_fixed_fields(block: Seq<u8>, h: HeaderView) -> bool {
    let major = field::octal_value(block.subrange(329, 337));
    let minor = field::octal_value(block.subrange(337, 345));
    &&& is_of_kind(block, h)
    &&& h.mode == field::octal_value(block.subrange(100, 108))->0 % 4096
    &&& h.major == (if major is Some {
        major->0 % 4294967296
    } else {
        0
    })
    &&& h.minor == (if minor is Some {
        minor->0 % 4294967296
    } else {
        0
    })
}

/// Whether a header has everything but path and link target from a block's own
/// fields.
pub open spec fn has_own_fields(block: Seq<u8>, h: HeaderView) -> bool {
    &&& has_fixed_fields(block, h)
    &&& h.uid == field::octal_value(block.subrange(108, 116))->0 % 4294967296
    &&& h.gid == field::octal_value(block.subrange(116, 124))->0 % 4294967296
    &&& h.mtime == field::octal_value(block.subrange(136, 148))->0 % 4294967296
    &&& h.size == (if h.kind == EntryKind::File {
        field::octal_value(block.subrange(124, 136))->0
    } else {
        0
    })
    &&& h.xattrs == Seq::<(Seq<char>, Seq<u8>)>::empty()
}

/// Where a reader stands at the start of a stream, with these records applying
/// to every entry.
pub open spec fn at_start(stream: Seq<u8>, global: Seq<(Seq<char>, Seq<u8>)>) -> ReaderView {
    ReaderView { rest: stream, left: 0, pad: 0, done: false, global }
}

/// Where a reader stands behind the header of `h`, with `rest` still to come:
/// the contents, and what fills their last block, are ahead.
pub open spec fn behind_header(then: ReaderView, h: HeaderView, rest: Seq<u8>) -> bool {
    &&& then.rest == rest
    &&& then.left == h.size
    &&& then.pad < 512
    &&& (then.left + then.pad) % 512 == 0
    &&& !then.done
}

/// A path out of a prefix and a name.
pub open spec fn joined(prefix: Seq<char>, name: Seq<char>) -> Seq<char> {
    if prefix.len() == 0 {
        name
    } else {
        prefix.push('/') + name
    }
}

proof fn lemma_text_to_nul(s: Seq<u8>, k: int)
    requires
        nul_at(s, k),
    ensures
        field::field_text(s) == text::lossy_text(s.take(k)),
{
    laws::lemma_found_at(s, 0, k, 0);
}

proof fn lemma_header_path(block: Seq<u8>, name_end: int, prefix_end: int)
    requires
        block.len() == 512,
        nul_at(block.subrange(0, 100), name_end),
        nul_at(block.subrange(345, 500), prefix_end),
    ensures
        reader::header_path(block) == joined(
            text::lossy_text(block.subrange(345, 500).take(prefix_end)),
            text::lossy_text(block.subrange(0, 100).take(name_end)),
        ),
{
    lemma_text_to_nul(block.subrange(0, 100), name_end);
    lemma_text_to_nul(block.subrange(345, 500), prefix_end);
    reveal_strlit("/");
    let prefix = text::lossy_text(block.subrange(345, 500).take(prefix_end));
    let name = text::lossy_text(block.subrange(0, 100).take(name_end));
    assert(prefix + "/"@ + name =~= prefix.push('/') + name);
}

/// What reading comes to from here, given what was announced.
#[verifier::opaque]
pub open spec fn outcome(
    stream: Seq<u8>,
    carry: Carry,
    global: Seq<(Seq<char>, Seq<u8>)>,
) -> Step {
    reader::scan(stream, carry, 0, global)
}

proof fn lemma_started(stream: Seq<u8>, global: Seq<(Seq<char>, Seq<u8>)>)
    ensures
        reader::advance(at_start(stream, global)) == outcome(stream, Carry::none(), global),
{
    reveal(outcome);
    assert(stream.skip(0) =~= stream);
}

/// The text of a block of type `L`, up to its first NUL, is the name announced to
/// what comes behind it, in place of any announced before; whatever else was
/// announced stays.
#[verifier::spinoff_prover]
pub proof fn law_names_are_announced(
    block: Seq<u8>,
    body: Seq<u8>,
    filling: Seq<u8>,
    next: Seq<u8>,
    carry: Carry,
    global: Seq<(Seq<char>, Seq<u8>)>,
    end: int,
)
    requires
        announces(block, body, filling, 76),
        nul_at(body, end),
    ensures
        outcome(block + body + filling + next, carry, global) == outcome(
            next,
            Carry { name: Some(text::lossy_text(body.take(end))), ..carry },
            global,
        ),
{
    reveal(outcome);
    lemma_stream_parts(block, body, filling, next);
    lemma_text_to_nul(body, end);
    assert(block[156] != 0);
}

/// The text of a block of type `K`, up to its first NUL, is the link target
/// announced to what comes behind it, in place of any announced before; whatever
/// else was announced stays.
#[verifier::spinoff_prover]
pub proof fn law_links_are_announced(
    block: Seq<u8>,
    body: Seq<u8>,
    filling: Seq<u8>,
    next: Seq<u8>,
    carry: Carry,
    global: Seq<(Seq<char>, Seq<u8>)>,
    end: int,
)
    requires
        announces(block, body, filling, 75),
        nul_at(body, end),
    ensures
        outcome(block + body + filling + next, carry, global) == outcome(
            next,
            Carry { link: Some(text::lossy_text(body.take(end))), ..carry },
            global,
        ),
{
    reveal(outcome);
    lemma_stream_parts(block, body, filling, next);
    lemma_text_to_nul(body, end);
    assert(block[156] != 0);
}

/// The parts of a stream that opens with a header block and its body.
proof fn lemma_stream_parts(block: Seq<u8>, body: Seq<u8>, filling: Seq<u8>, next: Seq<u8>)
    requires
        announces(block, body, filling, block[156]),
    ensures
        ({
            let rest = block + body + filling + next;
            let after = rest.skip(512);
            &&& rest.len() == 512 + body.len() + filling.len() + next.len()
            &&& rest.take(512) == block
            &&& after.len() == body.len() + filling.len() + next.len()
            &&& after.take(body.len() as int) == body
            &&& after.skip((body.len() + filling.len()) as int) == next
            &&& field::padding(body.len()) == filling.len()
        }),
{
    let rest = block + body + filling + next;
    let after = rest.skip(512);
    assert(rest.take(512) =~= block);
    assert(after.take(body.len() as int) =~= body);
    assert(after.skip((body.len() + filling.len()) as int) =~= next);
}

/// An entry's header is read, and the reader stands behind it.
#[verifier::spinoff_prover]
#[verifier::rlimit(40)]
proof fn lemma_entry_read(
    block: Seq<u8>,
    rest: Seq<u8>,
    carry: Carry,
    global: Seq<(Seq<char>, Seq<u8>)>,
)
    requires
        is_entry(block),
    ensures
        ({
            let kind = reader::kind_of(block[156])->0;
            let size = field::octal_value(block.subrange(124, 136))->0;
            let h = reader::entry_header(block, kind, size, carry, global);
            &&& outcome(block + rest, carry, global) matches Step::Entry(got, then)
            &&& got == h
            &&& behind_header(then, h, rest)
            &&& then.global == global
            &&& has_fixed_fields(block, h)
        }),
{
    reveal(outcome);
    let all = block + rest;
    assert(all.take(512) =~= block);
    assert(all.skip(512) =~= rest);
    let i = choose|i: int| 0 <= i < 512 && #[trigger] block[i] != 0;
    assert(block[i] != 0);
    assert(!reader::all_zero(block));
}

/// What the records of neither the entry nor the archive say.
proof fn lemma_no_records(key: Seq<char>)
    ensures
        reader::recorded(Seq::empty(), Seq::empty(), key) is None,
        reader::xattrs_in(Seq::empty()) == Seq::<(Seq<char>, Seq<u8>)>::empty(),
{
}

/// What a header is when no records say anything: the path and link target
/// announced, or its own.
#[verifier::spinoff_prover]
proof fn lemma_unrecorded(block: Seq<u8>, carry: Carry)
    requires
        is_entry(block),
        carry.pax == Seq::<(Seq<char>, Seq<u8>)>::empty(),
    ensures
        ({
            let kind = reader::kind_of(block[156])->0;
            let size = field::octal_value(block.subrange(124, 136))->0;
            let h = reader::entry_header(block, kind, size, carry, Seq::empty());
            &&& has_own_fields(block, h)
            &&& h.path == field::normal(
                match carry.name {
                    Some(name) => name,
                    None => reader::header_path(block),
                },
            )
            &&& h.link == (match carry.link {
                Some(link) => link,
                None => field::field_text(block.subrange(157, 257)),
            })
        }),
{
    lemma_no_records("path"@);
    lemma_no_records("linkpath"@);
    lemma_no_records("uid"@);
    lemma_no_records("gid"@);
    lemma_no_records("mtime"@);
    lemma_no_records("size"@);
}

/// An entry that nothing was announced of has its path and link target, and
/// everything else, from the fields of its own header block; what follows on
/// the stream is its contents.
pub proof fn law_plain_entries_are_what_their_fields_say(
    entry: Seq<u8>,
    rest: Seq<u8>,
    name_end: int,
    prefix_end: int,
    link_end: int,
)
    requires
        is_entry(entry),
        nul_at(entry.subrange(0, 100), name_end),
        nul_at(entry.subrange(345, 500), prefix_end),
        nul_at(entry.subrange(157, 257), link_end),
    ensures
        ({
            &&& reader::advance(at_start(entry + rest, Seq::empty())) matches Step::Entry(h, then)
            &&& h.path == field::normal(
                joined(
                    text::lossy_text(entry.subrange(345, 500).take(prefix_end)),
                    text::lossy_text(entry.subrange(0, 100).take(name_end)),
                ),
            )
            &&& h.link == text::lossy_text(entry.subrange(157, 257).take(link_end))
            &&& has_own_fields(entry, h)
            &&& behind_header(then, h, rest)
            &&& then.global == Seq::<(Seq<char>, Seq<u8>)>::empty()
        }),
{
    lemma_started(entry + rest, Seq::empty());
    lemma_entry_read(entry, rest, Carry::none(), Seq::empty());
    lemma_unrecorded(entry, Carry::none());
    lemma_header_path(entry, name_end, prefix_end);
    lemma_text_to_nul(entry.subrange(157, 257), link_end);
}

/// A header block of type `L` names the entry whose header comes next: its path
/// is the text of the block's body up to the first NUL, and all else of it —
/// the link target with it — is from its own fields.
pub proof fn law_long_names_name_the_next_entry(
    block: Seq<u8>,
    body: Seq<u8>,
    filling: Seq<u8>,
    entry: Seq<u8>,
    rest: Seq<u8>,
    body_end: int,
    link_end: int,
)
    requires
        announces(block, body, filling, 76),
        nul_at(body, body_end),
        is_entry(entry),
        nul_at(entry.subrange(157, 257), link_end),
    ensures
        ({
            &&& reader::advance(
                at_start(block + body + filling + (entry + rest), Seq::empty()),
            ) matches Step::Entry(h, then)
            &&& h.path == field::normal(text::lossy_text(body.take(body_end)))
            &&& h.link == text::lossy_text(entry.subrange(157, 257).take(link_end))
            &&& has_own_fields(entry, h)
            &&& behind_header(then, h, rest)
            &&& then.global == Seq::<(Seq<char>, Seq<u8>)>::empty()
        }),
{
    let none = Carry::none();
    let g = Seq::<(Seq<char>, Seq<u8>)>::empty();
    let carry = Carry { name: Some(text::lossy_text(body.take(body_end))), ..none };
    lemma_started(block + body + filling + (entry + rest), g);
    law_names_are_announced(block, body, filling, entry + rest, none, g, body_end);
    lemma_entry_read(entry, rest, carry, g);
    lemma_unrecorded(entry, carry);
    lemma_text_to_nul(entry.subrange(157, 257), link_end);
}

/// A header block of type `K` gives the link target of the entry whose header
/// comes next: it is the text of the block's body up to the first NUL, and all
/// else of the entry — the path with it — is from its own fields.
pub proof fn law_long_links_lead_the_next_entry(
    block: Seq<u8>,
    body: Seq<u8>,
    filling: Seq<u8>,
    entry: Seq<u8>,
    rest: Seq<u8>,
    body_end: int,
    name_end: int,
    prefix_end: int,
)
    requires
        announces(block, body, filling, 75),
        nul_at(body, body_end),
        is_entry(entry),
        nul_at(entry.subrange(0, 100), name_end),
        nul_at(entry.subrange(345, 500), prefix_end),
    ensures
        ({
            &&& reader::advance(
                at_start(block + body + filling + (entry + rest), Seq::empty()),
            ) matches Step::Entry(h, then)
            &&& h.link == text::lossy_text(body.take(body_end))
            &&& h.path == field::normal(
                joined(
                    text::lossy_text(entry.subrange(345, 500).take(prefix_end)),
                    text::lossy_text(entry.subrange(0, 100).take(name_end)),
                ),
            )
            &&& has_own_fields(entry, h)
            &&& behind_header(then, h, rest)
            &&& then.global == Seq::<(Seq<char>, Seq<u8>)>::empty()
        }),
{
    let none = Carry::none();
    let g = Seq::<(Seq<char>, Seq<u8>)>::empty();
    let carry = Carry { link: Some(text::lossy_text(body.take(body_end))), ..none };
    lemma_started(block + body + filling + (entry + rest), g);
    law_links_are_announced(block, body, filling, entry + rest, none, g, body_end);
    lemma_entry_read(entry, rest, carry, g);
    lemma_unrecorded(entry, carry);
    lemma_header_path(entry, name_end, prefix_end);
}

/// A block of type `L` and one of type `K` in front of the same entry both
/// count, whichever comes first.
pub proof fn law_long_names_and_links_go_together(
    name_block: Seq<u8>,
    name_body: Seq<u8>,
    name_filling: Seq<u8>,
    link_block: Seq<u8>,
    link_body: Seq<u8>,
    link_filling: Seq<u8>,
    entry: Seq<u8>,
    rest: Seq<u8>,
    name_end: int,
    link_end: int,
)
    requires
        announces(name_block, name_body, name_filling, 76),
        announces(link_block, link_body, link_filling, 75),
        nul_at(name_body, name_end),
        nul_at(link_body, link_end),
        is_entry(entry),
    ensures
        ({
            let named = name_block + name_body + name_filling;
            let led = link_block + link_body + link_filling;
            &&& reader::advance(
                at_start(named + (led + (entry + rest)), Seq::empty()),
            ) matches Step::Entry(h, then)
            &&& h.path == field::normal(text::lossy_text(name_body.take(name_end)))
            &&& h.link == text::lossy_text(link_body.take(link_end))
            &&& has_own_fields(entry, h)
            &&& behind_header(then, h, rest)
        }),
        ({
            let named = name_block + name_body + name_filling;
            let led = link_block + link_body + link_filling;
            &&& reader::advance(
                at_start(led + (named + (entry + rest)), Seq::empty()),
            ) matches Step::Entry(h, then)
            &&& h.path == field::normal(text::lossy_text(name_body.take(name_end)))
            &&& h.link == text::lossy_text(link_body.take(link_end))
            &&& has_own_fields(entry, h)
            &&& behind_header(then, h, rest)
        }),
{
    let named = name_block + name_body + name_filling;
    let led = link_block + link_body + link_filling;
    let last = entry + rest;
    let none = Carry::none();
    let g = Seq::<(Seq<char>, Seq<u8>)>::empty();
    let n = Carry { name: Some(text::lossy_text(name_body.take(name_end))), ..none };
    let l = Carry { link: Some(text::lossy_text(link_body.take(link_end))), ..none };
    let both = Carry { name: n.name, link: l.link, ..none };
    lemma_started(named + (led + last), g);
    law_names_are_announced(name_block, name_body, name_filling, led + last, none, g, name_end);
    law_links_are_announced(link_block, link_body, link_filling, last, n, g, link_end);
    lemma_started(led + (named + last), g);
    law_links_are_announced(link_block, link_body, link_filling, named + last, none, g, link_end);
    law_names_are_announced(name_block, name_body, name_filling, last, l, g, name_end);
    lemma_entry_read(entry, rest, both, g);
    lemma_unrecorded(entry, both);
}

/// The records of a block of type `x` are announced to what comes behind it, in
/// place of all announced before; whatever else was announced stays.
#[verifier::spinoff_prover]
pub proof fn law_records_are_announced(
    block: Seq<u8>,
    body: Seq<u8>,
    filling: Seq<u8>,
    next: Seq<u8>,
    carry: Carry,
    global: Seq<(Seq<char>, Seq<u8>)>,
    records: Seq<(Seq<char>, Seq<u8>)>,
)
    requires
        announces(block, body, filling, 120),
        pax::parsed(body) == Some(records),
    ensures
        outcome(block + body + filling + next, carry, global) == outcome(
            next,
            Carry { pax: records, ..carry },
            global,
        ),
{
    reveal(outcome);
    lemma_stream_parts(block, body, filling, next);
    assert(block[156] != 0);
}

/// What a number is that records may give: theirs, where it is one.
pub open spec fn number_or(
    records: Seq<(Seq<char>, Seq<u8>)>,
    global: Seq<(Seq<char>, Seq<u8>)>,
    key: Seq<char>,
    own: u64,
) -> int {
    let text = match pax::lookup(records, key) {
        Some(v) => Some(v),
        None => pax::lookup(global, key),
    };
    match text {
        Some(v) => match decimal::number(text::trim(text::lossy_text(v))) {
            Some(n) => n as int,
            None => own as int,
        },
        None => own as int,
    }
}

/// The records of a header block of type `x` describe the entry whose header
/// comes next: what they say of path, link target, owner, group, time and size
/// counts before what records for the whole archive say, and that before the
/// entry's own fields. The rest of the entry is from its own fields.
pub proof fn law_records_describe_the_next_entry(
    block: Seq<u8>,
    body: Seq<u8>,
    filling: Seq<u8>,
    entry: Seq<u8>,
    rest: Seq<u8>,
    records: Seq<(Seq<char>, Seq<u8>)>,
    global: Seq<(Seq<char>, Seq<u8>)>,
    name_end: int,
    prefix_end: int,
    link_end: int,
)
    requires
        announces(block, body, filling, 120),
        pax::parsed(body) == Some(records),
        is_entry(entry),
        nul_at(entry.subrange(0, 100), name_end),
        nul_at(entry.subrange(345, 500), prefix_end),
        nul_at(entry.subrange(157, 257), link_end),
    ensures
        ({
            let own_path = joined(
                text::lossy_text(entry.subrange(345, 500).take(prefix_end)),
                text::lossy_text(entry.subrange(0, 100).take(name_end)),
            );
            let own_link = text::lossy_text(entry.subrange(157, 257).take(link_end));
            let own = |from: int, to: int| field::octal_value(entry.subrange(from, to))->0;
            &&& reader::advance(
                at_start(block + body + filling + (entry + rest), global),
            ) matches Step::Entry(h, then)
            &&& h.path == field::normal(
                match (pax::lookup(records, "path"@), pax::lookup(global, "path"@)) {
                    (Some(v), _) => text::lossy_text(v),
                    (None, Some(v)) => text::lossy_text(v),
                    (None, None) => own_path,
                },
            )
            &&& h.link == (match (
                pax::lookup(records, "linkpath"@),
                pax::lookup(global, "linkpath"@),
            ) {
                (Some(v), _) => text::lossy_text(v),
                (None, Some(v)) => text::lossy_text(v),
                (None, None) => own_link,
            })
            &&& h.uid == number_or(records, global, "uid"@, own(108, 116)) % 4294967296
            &&& h.gid == number_or(records, global, "gid"@, own(116, 124)) % 4294967296
            &&& h.mtime == number_or(records, global, "mtime"@, own(136, 148)) % 4294967296
            &&& h.kind == EntryKind::File ==> h.size == number_or(
                records,
                global,
                "size"@,
                own(124, 136),
            )
            &&& h.kind != EntryKind::File ==> h.size == 0
            &&& forall|name: Seq<char>, value: Seq<u8>| #[trigger]
                h.xattrs.contains((name, value)) <==> records.contains(
                    ("SCHILY.xattr."@ + name, value),
                ) || global.contains(("SCHILY.xattr."@ + name, value))
            &&& h.xattrs == reader::xattrs_in(records) + reader::xattrs_in(global)
            &&& has_fixed_fields(entry, h)
            &&& behind_header(then, h, rest)
            &&& then.global == global
        }),
{
    let none = Carry::none();
    let carry = Carry { pax: records, ..none };
    lemma_started(block + body + filling + (entry + rest), global);
    law_records_are_announced(block, body, filling, entry + rest, none, global, records);
    lemma_entry_read(entry, rest, carry, global);
    lemma_header_path(entry, name_end, prefix_end);
    lemma_text_to_nul(entry.subrange(157, 257), link_end);
    let kind = reader::kind_of(entry[156])->0;
    let size = field::octal_value(entry.subrange(124, 136))->0;
    let h = reader::entry_header(entry, kind, size, carry, global);
    lemma_xattrs_among(records);
    lemma_xattrs_among(global);
    let a = reader::xattrs_in(records);
    let b = reader::xattrs_in(global);
    assert forall|name: Seq<char>, value: Seq<u8>| #[trigger]
        h.xattrs.contains((name, value)) <==> records.contains(
            ("SCHILY.xattr."@ + name, value),
        ) || global.contains(("SCHILY.xattr."@ + name, value)) by {
        lemma_contains_either(a, b, (name, value));
    }
}

/// What a list put together contains is what one of its parts does.
proof fn lemma_contains_either<A>(a: Seq<A>, b: Seq<A>, x: A)
    ensures
        (a + b).contains(x) <==> a.contains(x) || b.contains(x),
{
    if a.contains(x) {
        let i = choose|i: int| 0 <= i < a.len() && a[i] == x;
        assert((a + b)[i] == x);
    }
    if b.contains(x) {
        let i = choose|i: int| 0 <= i < b.len() && b[i] == x;
        assert((a + b)[a.len() + i] == x);
    }
}

/// The extended attributes among records are those whose key is the prefix and
/// a name.
proof fn lemma_xattrs_among(records: Seq<(Seq<char>, Seq<u8>)>)
    ensures
        forall|name: Seq<char>, value: Seq<u8>| #[trigger]
            reader::xattrs_in(records).contains((name, value)) <==> records.contains(
                ("SCHILY.xattr."@ + name, value),
            ),
    decreases records.len(),
{
    let prefix = "SCHILY.xattr."@;
    if records.len() > 0 {
        let front = records.drop_last();
        lemma_xattrs_among(front);
        let (key, value) = records.last();
        assert(records =~= front.push((key, value)));
        assert forall|n: Seq<char>, v: Seq<u8>| #[trigger]
            reader::xattrs_in(records).contains((n, v)) <==> records.contains((prefix + n, v)) by {
            let before = reader::xattrs_in(front);
            assert(before.contains((n, v)) <==> front.contains((prefix + n, v)));
            lemma_contains_either(front, seq![(key, value)], (prefix + n, v));
            assert(front + seq![(key, value)] =~= records);
            assert(seq![(key, value)].contains((prefix + n, v)) <==> (prefix + n, v) == (
                key,
                value,
            )) by {
                assert(seq![(key, value)][0] == (key, value));
            }
            assert((prefix + n).take(prefix.len() as int) =~= prefix);
            assert((prefix + n).skip(prefix.len() as int) =~= n);
            if reader::opens_with(key, prefix) {
                let name = key.skip(prefix.len() as int);
                assert(prefix + name =~= key);
                lemma_contains_either(before, seq![(name, value)], (n, v));
                assert(before + seq![(name, value)] =~= before.push((name, value)));
                assert(seq![(name, value)][0] == (name, value));
                assert(seq![(name, value)].contains((n, v)) <==> (n, v) == (name, value));
            }
        }
    } else {
        assert forall|n: Seq<char>, v: Seq<u8>| #[trigger]
            reader::xattrs_in(records).contains((n, v)) <==> records.contains((prefix + n, v)) by {}
    }
}

/// The records of a header block of type `g` hold for every entry from there
/// on, in place of those that held before.
#[verifier::spinoff_prover]
pub proof fn law_archive_records_hold_from_there_on(
    block: Seq<u8>,
    body: Seq<u8>,
    filling: Seq<u8>,
    rest: Seq<u8>,
    records: Seq<(Seq<char>, Seq<u8>)>,
    global: Seq<(Seq<char>, Seq<u8>)>,
)
    requires
        announces(block, body, filling, 103),
        pax::parsed(body) == Some(records),
    ensures
        reader::advance(at_start(block + body + filling + rest, global)) == reader::advance(
            at_start(rest, records),
        ),
{
    let all = block + body + filling + rest;
    lemma_stream_parts(block, body, filling, rest);
    assert(block[156] != 0);
    assert(all.skip(0) =~= all);
    assert(rest.skip(0) =~= rest);
}

/// An entry of a type that is not known is stepped over, with its contents and
/// with what was announced of it.
#[verifier::spinoff_prover]
pub proof fn law_unknown_entries_are_stepped_over(
    block: Seq<u8>,
    body: Seq<u8>,
    filling: Seq<u8>,
    rest: Seq<u8>,
    carry: Carry,
    global: Seq<(Seq<char>, Seq<u8>)>,
)
    requires
        announces(block, body, filling, block[156]),
        block[156] != 0,
        block[156] < 48 || block[156] > 55,
        block[156] != 76,
        block[156] != 75,
        block[156] != 120,
        block[156] != 103,
    ensures
        outcome(block + body + filling + rest, carry, global) == reader::advance(
            at_start(rest, global),
        ),
{
    reveal(outcome);
    lemma_stream_parts(block, body, filling, rest);
    assert(rest.skip(0) =~= rest);
}

/// Two blocks of zeroes end an archive, and nothing behind them is looked at. A
/// stream that simply stops ends it too; one that stops within a header block
/// is at fault.
#[verifier::spinoff_prover]
pub proof fn law_archives_end_with_two_empty_blocks(
    tail: Seq<u8>,
    part: Seq<u8>,
    global: Seq<(Seq<char>, Seq<u8>)>,
)
    requires
        0 < part.len() < 512,
    ensures
        ({
            &&& reader::advance(
                at_start(Seq::new(1024, |i: int| 0u8) + tail, global),
            ) matches Step::End(then)
            &&& then.rest == tail
            &&& then.done
        }),
        reader::advance(at_start(Seq::empty(), global)) matches Step::End(then) && then.done,
        ({
            &&& reader::advance(at_start(part, global)) matches Step::Fault(f, _)
            &&& f == Fault::MidHeader(part.len())
        }),
{
    let zeros = Seq::new(1024, |i: int| 0u8);
    let all = zeros + tail;
    assert(all.skip(0) =~= all);
    assert(part.skip(0) =~= part);
    assert(Seq::<u8>::empty().skip(0) =~= Seq::<u8>::empty());
    let second = all.skip(512);
    assert(reader::all_zero(all.take(512)));
    assert(reader::all_zero(second.take(512)));
    assert(second.skip(512) =~= tail);
    reveal_with_fuel(reader::scan, 3);
}

proof fn lemma_empty_block_scanned(all: Seq<u8>, global: Seq<(Seq<char>, Seq<u8>)>)
    requires
        all.len() >= 512,
        reader::all_zero(all.take(512)),
    ensures
        outcome(all, Carry::none(), global) == reader::scan(
            all.skip(512),
            Carry::none(),
            1,
            global,
        ),
{
    reveal(outcome);
}

/// How many empty blocks went before does not matter to a block that is not.
#[verifier::spinoff_prover]
#[verifier::rlimit(40)]
proof fn lemma_count_of_empty_blocks(next: Seq<u8>, global: Seq<(Seq<char>, Seq<u8>)>)
    requires
        next.len() >= 512,
        !reader::all_zero(next.take(512)),
    ensures
        reader::scan(next, Carry::none(), 1, global) == outcome(next, Carry::none(), global),
{
    reveal(outcome);
}

/// One block of zeroes is stepped over.
#[verifier::spinoff_prover]
pub proof fn law_one_empty_block_is_stepped_over(
    entry: Seq<u8>,
    rest: Seq<u8>,
    global: Seq<(Seq<char>, Seq<u8>)>,
)
    requires
        is_entry(entry),
    ensures
        ({
            let one = reader::advance(at_start(Seq::new(512, |i: int| 0u8) + (entry + rest), global));
            let other = reader::advance(at_start(entry + rest, global));
            one == other
        }),
{
    let zeros = Seq::new(512, |i: int| 0u8);
    let next = entry + rest;
    let all = zeros + next;
    assert(next.take(512) =~= entry);
    let i = choose|i: int| 0 <= i < 512 && #[trigger] entry[i] != 0;
    assert(!reader::all_zero(entry));
    lemma_started(all, global);
    lemma_started(next, global);
    assert(reader::all_zero(all.take(512)));
    assert(all.skip(512) =~= next);
    lemma_empty_block_scanned(all, global);
    lemma_count_of_empty_blocks(next, global);
}

/// An announcement whose body the stream does not hold is at fault, and the
/// fault says how many bytes are missing.
#[verifier::spinoff_prover]
pub proof fn law_cut_announcements_are_faults(
    block: Seq<u8>,
    part: Seq<u8>,
    size: u64,
    global: Seq<(Seq<char>, Seq<u8>)>,
)
    requires
        block.len() == 512,
        block[156] == 76 || block[156] == 75 || block[156] == 120 || block[156] == 103,
        field::octal_value(block.subrange(124, 136)) == Some(size),
        part.len() < size,
    ensures
        ({
            &&& reader::advance(at_start(block + part, global)) matches Step::Fault(f, _)
            &&& f == Fault::Truncated((size - part.len()) as nat)
        }),
{
    let all = block + part;
    assert(all.skip(0) =~= all);
    assert(all.take(512) =~= block);
    assert(all.skip(512) =~= part);
    assert(block[156] != 0);
}

/// A number field of octal digits, closed by a NUL or a space or by its end, is
/// read as the number they spell.
pub proof fn law_octal_fields_are_read(f: Seq<u8>, k: int)
    requires
        1 <= k <= f.len(),
        forall|i: int| 0 <= i < k ==> 48 <= #[trigger] f[i] <= 55,
        k < f.len() ==> f[k] == 0 || f[k] == 32,
        spelled(f, 0, k as nat) <= u64::MAX,
    ensures
        field::octal_value(f) == Some(spelled(f, 0, k as nat) as u64),
{
    assert(48 <= f[0] <= 55);
    lemma_octal_end(f, 0, k);
    let ds = f.take(k);
    let cs = text::ascii(ds);
    assert(cs[0] as int == f[0]);
    assert(48 <= f[k - 1] <= 55);
    assert(cs.last() as int == f[k - 1]);
    assert(text::trim(cs) == cs);
    lemma_spelled_value(f, k as nat);
    assert forall|i: int| 0 <= i < cs.len() implies 48 <= ((#[trigger] cs[i]) as int) < 48 + 8 by {
        assert(48 <= f[i] <= 55);
    }
}

proof fn lemma_octal_end(f: Seq<u8>, i: int, k: int)
    requires
        0 <= i <= k <= f.len(),
        forall|j: int| i <= j < k ==> 48 <= #[trigger] f[j] <= 55,
        k < f.len() ==> f[k] == 0 || f[k] == 32,
    ensures
        field::octal_end(f, i) == k,
    decreases k - i,
{
    if i < k {
        assert(48 <= f[i] <= 55);
        lemma_octal_end(f, i + 1, k);
    }
}

proof fn lemma_spelled_value(f: Seq<u8>, k: nat)
    requires
        k <= f.len(),
        forall|i: int| 0 <= i < k ==> 48 <= #[trigger] f[i] <= 55,
    ensures
        text::digits_value(text::ascii(f.take(k as int)), 8) == spelled(f, 0, k),
    decreases k,
{
    let cs = text::ascii(f.take(k as int));
    if k > 0 {
        lemma_spelled_value(f, (k - 1) as nat);
        assert(cs.drop_last() =~= text::ascii(f.take(k - 1)));
        assert(48 <= f[k - 1] <= 55);
        assert(cs.last() as int == f[k - 1]);
    }
}

/// A number field that opens with a NUL or a space holds zero.
pub proof fn law_blank_number_fields_are_zero(f: Seq<u8>)
    requires
        f.len() > 0,
        f[0] == 0 || f[0] == 32,
    ensures
        field::octal_value(f) == Some(0u64),
{
    assert(f.take(0) =~= Seq::empty());
    assert(text::ascii(Seq::empty()) =~= Seq::<char>::empty());
    assert(field::octal_end(f, 0) == 0);
}

/// A number field whose first byte has its top bit set is read as a binary
/// number, high byte first: its last 63 bits count.
pub proof fn law_binary_number_fields_are_read(f: Seq<u8>, at: int)
    requires
        f.len() == at + 8,
        0 <= at,
        f[0] >= 128,
    ensures
        field::octal_value(f) == Some(
            ((72057594037927936 * f[at] + 281474976710656 * f[at + 1] + 1099511627776 * f[at + 2]
                + 4294967296 * f[at + 3] + 16777216 * f[at + 4] + 65536 * f[at + 5] + 256 * f[at
                + 6] + f[at + 7]) % 9223372036854775808) as u64,
        ),
{
    let l = field::last_eight(f);
    assert(l =~= f.skip(at));
    reveal_with_fuel(field::big_endian, 9);
    let l7 = l.drop_last();
    let l6 = l7.drop_last();
    let l5 = l6.drop_last();
    let l4 = l5.drop_last();
    let l3 = l4.drop_last();
    let l2 = l3.drop_last();
    let l1 = l2.drop_last();
    assert(l1.drop_last() =~= Seq::<u8>::empty());
    assert(field::big_endian(l1) == f[at]);
    assert(field::big_endian(l2) == 256 * f[at] + f[at + 1]);
    assert(field::big_endian(l3) == 65536 * f[at] + 256 * f[at + 1] + f[at + 2]);
    assert(field::big_endian(l4) == 16777216 * f[at] + 65536 * f[at + 1] + 256 * f[at + 2] + f[at
        + 3]);
}

/// A PAX record is its own length in decimal, a space, the key, an equals sign,
/// the value and a newline.
pub proof fn law_records_are_lines(key: Seq<u8>, value: Seq<u8>)
    ensures
        pax::record(key, value) == text::digits(pax::record(key, value).len(), 10) + seq![32u8]
            + key + seq![61u8] + value + seq![10u8],
{
    laws::law_record_counts_itself(key, value);
}

/// A PAX header body is its records one after another.
pub proof fn law_bodies_are_records_in_order(
    records: Seq<(Seq<char>, Seq<u8>)>,
    key: Seq<char>,
    value: Seq<u8>,
)
    ensures
        pax::built(Seq::empty()) == Seq::<u8>::empty(),
        pax::built(records.push((key, value))) == pax::built(records) + pax::record(
            text::utf8(key),
            value,
        ),
{
    assert(records.push((key, value)).drop_last() =~= records);
}

/// Numbers are written in decimal, the last digit last.
pub proof fn law_digits_are_decimal(n: nat)
    ensures
        n < 10 ==> text::digits(n, 10) == seq![(48 + n) as u8],
        n >= 10 ==> text::digits(n, 10) == text::digits(n / 10, 10).push((48 + n % 10) as u8),
{
}

/// Each kind of entry has its own type flag, and a header block of that type is
/// read as that kind.
pub proof fn law_kinds_have_their_flags()
    ensures
        EntryKind::File.flag() == 48,
        EntryKind::HardLink.flag() == 49,
        EntryKind::Symlink.flag() == 50,
        EntryKind::CharDevice.flag() == 51,
        EntryKind::BlockDevice.flag() == 52,
        EntryKind::Directory.flag() == 53,
        EntryKind::Fifo.flag() == 54,
        forall|kind: EntryKind| reader::kind_of(#[trigger] kind.flag()) == Some(kind),
{
}

/// What does not fit the fields of a header block is recorded: a path and a link
/// target of more than 100 bytes, an owner and a group past 2097151, contents of
/// 8 GiB and more; and so is every extended attribute. Nothing else is.
pub proof fn law_what_does_not_fit_is_recorded(h: HeaderView)
    ensures
        ({
            let r = writer::needed_records(h);
            let path = text::utf8(h.path);
            let link = text::utf8(h.link);
            let size = if h.kind == EntryKind::File {
                h.size as nat
            } else {
                0
            };
            &&& path.len() > 100 ==> r.contains(("path"@, path))
            &&& link.len() > 100 ==> r.contains(("linkpath"@, link))
            &&& h.uid > 2097151 ==> r.contains(("uid"@, text::digits(h.uid as nat, 10)))
            &&& h.gid > 2097151 ==> r.contains(("gid"@, text::digits(h.gid as nat, 10)))
            &&& size > 8589934591 ==> r.contains(("size"@, text::digits(size, 10)))
            &&& forall|i: int|
                0 <= i < h.xattrs.len() ==> r.contains(
                    ("SCHILY.xattr."@ + (#[trigger] h.xattrs[i]).0, h.xattrs[i].1),
                )
            &&& r.len() == h.xattrs.len() + one_if(path.len() > 100) + one_if(link.len() > 100)
                + one_if(h.uid > 2097151) + one_if(h.gid > 2097151) + one_if(size > 8589934591)
        }),
{
    let path = text::utf8(h.path);
    let link = text::utf8(h.link);
    let size = writer::content_size(h);
    let a = writer::record_if(path.len() > 100, "path"@, path);
    let b = writer::record_if(link.len() > 100, "linkpath"@, link);
    let c = writer::record_if(h.uid > 0o7777777, "uid"@, text::digits(h.uid as nat, 10));
    let d = writer::record_if(h.gid > 0o7777777, "gid"@, text::digits(h.gid as nat, 10));
    let e = writer::record_if(size > 0o77777777777, "size"@, text::digits(size, 10));
    let f = h.xattrs.map_values(|x: (Seq<char>, Seq<u8>)| writer::as_record(x));
    let r = writer::needed_records(h);
    assert(r == a + b + c + d + e + f);
    if path.len() > 100 {
        assert(r[0] == ("path"@, path));
    }
    if link.len() > 100 {
        assert(r[a.len() as int] == ("linkpath"@, link));
    }
    if h.uid > 2097151 {
        assert(r[(a.len() + b.len()) as int] == ("uid"@, text::digits(h.uid as nat, 10)));
    }
    if h.gid > 2097151 {
        assert(r[(a.len() + b.len() + c.len()) as int] == (
            "gid"@,
            text::digits(h.gid as nat, 10),
        ));
    }
    if size > 8589934591 {
        assert(r[(a.len() + b.len() + c.len() + d.len()) as int] == (
            "size"@,
            text::digits(size, 10),
        ));
    }
    assert forall|i: int| 0 <= i < h.xattrs.len() implies r.contains(
        ("SCHILY.xattr."@ + (#[trigger] h.xattrs[i]).0, h.xattrs[i].1),
    ) by {
        let at = a.len() + b.len() + c.len() + d.len() + e.len() + i;
        assert(r[at] == f[i]);
    }
}

/// One if a thing is so, none if not.
pub open spec fn one_if(so: bool) -> nat {
    if so {
        1
    } else {
        0
    }
}

/// An entry opens with its own header block, and with nothing else where all of
/// it fits. Where something does not, a header block of type `x` stands in
/// front, with the records as its body and zeroes up to the next block, named
/// after the entry and as old as it.
pub proof fn law_records_stand_in_front_of_their_entry(h: HeaderView)
    requires
        pax::built(writer::needed_records(h)).len() <= 0o77777777777,
    ensures
        ({
            let records = writer::needed_records(h);
            let body = pax::built(records);
            let own = header::encoded(h, h.kind.flag());
            &&& records.len() == 0 ==> writer::opening(h) == own
            &&& records.len() > 0 ==> {
                let block = writer::opening(h).take(512);
                let filling = Seq::new(
                    (writer::opening(h).len() - 1024 - body.len()) as nat,
                    |i: int| 0u8,
                );
                &&& writer::opening(h) == block + body + filling + own
                &&& announces(block, body, filling, 120)
                &&& spells(block, 100, 7, 0o644)
                &&& spells(block, 108, 7, 0)
                &&& spells(block, 116, 7, 0)
                &&& spells(block, 136, 11, h.mtime as int)
                &&& text::utf8("PaxHeaders/"@ + field::last_component(h.path)).len() <= 100
                    ==> holds(
                    block,
                    0,
                    100,
                    text::utf8("PaxHeaders/"@ + field::last_component(h.path)),
                )
            }
        }),
{
    let records = writer::needed_records(h);
    let body = pax::built(records);
    let own = header::encoded(h, h.kind.flag());
    if records.len() == 0 {
        assert(writer::opening(h) =~= own);
    } else {
        let x = HeaderView {
            size: body.len() as u64,
            mtime: h.mtime,
            ..HeaderView::plain(
                "PaxHeaders/"@ + field::last_component(h.path),
                EntryKind::File,
                0o644,
            )
        };
        let block = header::encoded(x, 120);
        law_header_blocks_are_laid_out(x, 120);
        law_names_stand_in_their_fields(x, 120);
        law_header_blocks_are_laid_out(h, h.kind.flag());
        let filling = Seq::new(field::padding(body.len()), |i: int| 0u8);
        assert(writer::opening(h) =~= block + body + filling + own);
        assert(writer::opening(h).take(512) =~= block);
        assert(writer::opening(h).len() - 1024 - body.len() == filling.len());
        let f = block.subrange(124, 136);
        assert forall|i: int| 0 <= i < 11 implies 48 <= #[trigger] f[i] <= 55 by {
            assert(48 <= block[124 + i] <= 55);
        }
        lemma_spelled_moves(block, 124, f, 11);
        law_octal_fields_are_read(f, 11);
    }
}

proof fn lemma_spelled_moves(b: Seq<u8>, at: int, f: Seq<u8>, n: nat)
    requires
        forall|i: int| 0 <= i < n ==> b[at + i] == #[trigger] f[i],
    ensures
        spelled(b, at, n) == spelled(f, 0, n),
    decreases n,
{
    if n > 0 {
        lemma_spelled_moves(b, at, f, (n - 1) as nat);
        assert(b[at + (n - 1)] == f[n - 1]);
    }
}

/// A long path that does not split stands in the name field from the first
/// character on with which the rest fits.
pub proof fn law_unsplit_paths_keep_their_end(path: Seq<u8>)
    requires
        path.len() > 100,
        forall|i: int| 0 <= i < path.len() ==> !#[trigger] splits_at(path, i),
    ensures
        ({
            let (name, prefix) = field::name_and_prefix(path);
            let k = path.len() - name.len();
            &&& prefix.len() == 0
            &&& name == path.skip(k)
            &&& name.len() <= 100
            &&& name.len() > 0 ==> vstd::utf8::is_char_boundary(path, k)
            &&& forall|j: int|
                path.len() - 100 <= j < k ==> !#[trigger] vstd::utf8::is_char_boundary(path, j)
        }),
{
    lemma_never_splits(path, 0);
    lemma_boundary(path, path.len() - 100);
    let k = field::boundary_from(path, path.len() - 100);
    assert(path.skip(k).len() == path.len() - k);
}

proof fn lemma_never_splits(path: Seq<u8>, i: int)
    requires
        0 <= i <= path.len(),
        forall|j: int| 0 <= j < path.len() ==> !#[trigger] splits_at(path, j),
    ensures
        field::split_point(path, i) == path.len(),
    decreases path.len() - i,
{
    if i < path.len() {
        assert(!splits_at(path, i));
        lemma_never_splits(path, i + 1);
    }
}

proof fn lemma_boundary(path: Seq<u8>, i: int)
    requires
        0 <= i <= path.len(),
    ensures
        ({
            let k = field::boundary_from(path, i);
            &&& i <= k <= path.len()
            &&& k < path.len() ==> vstd::utf8::is_char_boundary(path, k)
            &&& forall|j: int| i <= j < k ==> !#[trigger] vstd::utf8::is_char_boundary(path, j)
        }),
    decreases path.len() - i,
{
    if i < path.len() && !vstd::utf8::is_char_boundary(path, i) {
        lemma_boundary(path, i + 1);
    }
}

/// An entry takes what was announced of it: its path is the one the entry's
/// records give, or else the archive's, or else the name announced, or else that
/// of its own fields; and its link target likewise.
pub proof fn law_entries_take_what_was_announced(
    entry: Seq<u8>,
    rest: Seq<u8>,
    carry: Carry,
    global: Seq<(Seq<char>, Seq<u8>)>,
    name_end: int,
    prefix_end: int,
    link_end: int,
)
    requires
        is_entry(entry),
        nul_at(entry.subrange(0, 100), name_end),
        nul_at(entry.subrange(345, 500), prefix_end),
        nul_at(entry.subrange(157, 257), link_end),
    ensures
        ({
            let own_path = joined(
                text::lossy_text(entry.subrange(345, 500).take(prefix_end)),
                text::lossy_text(entry.subrange(0, 100).take(name_end)),
            );
            let own_link = text::lossy_text(entry.subrange(157, 257).take(link_end));
            &&& outcome(entry + rest, carry, global) matches Step::Entry(h, then)
            &&& pax::lookup(carry.pax, "path"@) matches Some(v) ==> h.path == field::normal(
                text::lossy_text(v),
            )
            &&& pax::lookup(carry.pax, "path"@) is None ==> (pax::lookup(
                global,
                "path"@,
            ) matches Some(v) ==> h.path == field::normal(text::lossy_text(v)))
            &&& pax::lookup(carry.pax, "path"@) is None && pax::lookup(global, "path"@) is None
                ==> (carry.name matches Some(name) ==> h.path == field::normal(name))
            &&& pax::lookup(carry.pax, "path"@) is None && pax::lookup(global, "path"@) is None
                && carry.name is None ==> h.path == field::normal(own_path)
            &&& pax::lookup(carry.pax, "linkpath"@) matches Some(v) ==> h.link
                == text::lossy_text(v)
            &&& pax::lookup(carry.pax, "linkpath"@) is None ==> (pax::lookup(
                global,
                "linkpath"@,
            ) matches Some(v) ==> h.link == text::lossy_text(v))
            &&& pax::lookup(carry.pax, "linkpath"@) is None && pax::lookup(
                global,
                "linkpath"@,
            ) is None ==> (carry.link matches Some(link) ==> h.link == link)
            &&& pax::lookup(carry.pax, "linkpath"@) is None && pax::lookup(
                global,
                "linkpath"@,
            ) is None && carry.link is None ==> h.link == own_link
            &&& has_fixed_fields(entry, h)
            &&& behind_header(then, h, rest)
            &&& then.global == global
        }),
{
    lemma_entry_read(entry, rest, carry, global);
    lemma_header_path(entry, name_end, prefix_end);
    lemma_text_to_nul(entry.subrange(157, 257), link_end);
}

/// Records whose length is no number put the archive at fault.
#[verifier::spinoff_prover]
pub proof fn law_malformed_records_are_faults(
    block: Seq<u8>,
    body: Seq<u8>,
    filling: Seq<u8>,
    next: Seq<u8>,
    carry: Carry,
    global: Seq<(Seq<char>, Seq<u8>)>,
    space: int,
)
    requires
        announces(block, body, filling, 120) || announces(block, body, filling, 103),
        0 <= space < body.len(),
        body[space] == 32,
        forall|i: int| 0 <= i < space ==> #[trigger] body[i] != 32,
        text::whole_number(text::trim(text::lossy_text(body.take(space))), 10) is None,
    ensures
        pax::parsed(body) is None,
        outcome(block + body + filling + next, carry, global) matches Step::Fault(f, _) && f
            == Fault::BadPax,
{
    reveal(outcome);
    lemma_stream_parts(block, body, filling, next);
    assert(block[156] != 0);
    laws::lemma_found_at(body, 0, space, 32);
    assert(body.subrange(0, space) =~= body.take(space));
}

/// A header block with a number field that is no number puts the archive at
/// fault: the size first, then the permission bits, the owner, the group and the
/// time.
#[verifier::spinoff_prover]
#[verifier::rlimit(40)]
pub proof fn law_malformed_numbers_are_faults(
    block: Seq<u8>,
    rest: Seq<u8>,
    carry: Carry,
    global: Seq<(Seq<char>, Seq<u8>)>,
)
    requires
        block.len() == 512,
        48 <= block[156] <= 55,
    ensures
        ({
            let size = block.subrange(124, 136);
            let mode = block.subrange(100, 108);
            let uid = block.subrange(108, 116);
            let gid = block.subrange(116, 124);
            let time = block.subrange(136, 148);
            let bad = |f: Seq<u8>| field::octal_value(f) is None;
            let got = outcome(block + rest, carry, global);
            &&& bad(size) ==> got is Fault && got->Fault_0 == Fault::BadOctal(size)
            &&& !bad(size) && bad(mode) ==> got is Fault && got->Fault_0 == Fault::BadOctal(mode)
            &&& !bad(size) && !bad(mode) && bad(uid) ==> got is Fault && got->Fault_0
                == Fault::BadOctal(uid)
            &&& !bad(size) && !bad(mode) && !bad(uid) && bad(gid) ==> got is Fault && got->Fault_0
                == Fault::BadOctal(gid)
            &&& !bad(size) && !bad(mode) && !bad(uid) && !bad(gid) && bad(time) ==> got is Fault
                && got->Fault_0 == Fault::BadOctal(time)
        }),
{
    reveal(outcome);
    let all = block + rest;
    assert(all.take(512) =~= block);
    assert(all.skip(512) =~= rest);
    assert(block[156] != 0);
    assert(!reader::all_zero(block));
}

/// Extended attributes stand in the order of their records, under what follows the
/// prefix of the key; other records are none.
pub proof fn law_attributes_stand_in_the_order_of_their_records(
    records: Seq<(Seq<char>, Seq<u8>)>,
    name: Seq<char>,
    key: Seq<char>,
    value: Seq<u8>,
)
    requires
        !(key.len() >= 13 && key.take(13) == "SCHILY.xattr."@),
    ensures
        reader::xattrs_in(records.push(("SCHILY.xattr."@ + name, value))) == reader::xattrs_in(
            records,
        ).push((name, value)),
        reader::xattrs_in(records.push((key, value))) == reader::xattrs_in(records),
        reader::xattrs_in(Seq::empty()).len() == 0,
{
    reveal_strlit("SCHILY.xattr.");
    let prefix = "SCHILY.xattr."@;
    let full = prefix + name;
    assert(full.take(13) =~= prefix);
    assert(full.skip(13) =~= name);
    assert(records.push((full, value)).drop_last() =~= records);
    assert(records.push((key, value)).drop_last() =~= records);
}

/// Records are kept in the order of their keys, one to a key.
pub proof fn law_records_stay_in_order(
    records: Seq<(Seq<char>, Seq<u8>)>,
    key: Seq<char>,
    value: Seq<u8>,
)
    requires
        in_key_order(records),
    ensures
        in_key_order(pax::put(records, key, value)),
    decreases records.len(),
{
    let new = pax::put(records, key, value);
    if records.len() > 0 && records[0].0 == key {
        assert forall|i: int| 0 <= i < new.len() - 1 implies #[trigger] before_next(new, i) by {
            assert(before_next(records, i));
        }
    } else if records.len() > 0 && bytes::sorts_before(
        text::utf8(key),
        text::utf8(records[0].0),
    ) {
        assert forall|i: int| 0 <= i < new.len() - 1 implies #[trigger] before_next(new, i) by {
            if i > 0 {
                assert(before_next(records, i - 1));
            }
        }
    } else if records.len() > 0 {
        let rest = records.skip(1);
        assert forall|i: int| 0 <= i < rest.len() - 1 implies #[trigger] before_next(rest, i) by {
            assert(before_next(records, i + 1));
        }
        law_records_stay_in_order(rest, key, value);
        let put = pax::put(rest, key, value);
        assert(new =~= seq![records[0]] + put);
        lemma_keys_compare(key, records[0].0);
        assert forall|i: int| 0 <= i < new.len() - 1 implies #[trigger] before_next(new, i) by {
            if i > 0 {
                assert(before_next(put, i - 1));
            } else if rest.len() > 0 {
                assert(before_next(records, 0));
            }
        }
    }
}

/// Whether record `i` sorts before the one behind it.
pub open spec fn before_next(records: Seq<(Seq<char>, Seq<u8>)>, i: int) -> bool {
    bytes::sorts_before(text::utf8(records[i].0), text::utf8(records[i + 1].0))
}

/// Whether records stand in the order of their keys' bytes, no two the same.
pub open spec fn in_key_order(records: Seq<(Seq<char>, Seq<u8>)>) -> bool {
    forall|i: int| 0 <= i < records.len() - 1 ==> #[trigger] before_next(records, i)
}

/// Of two different keys one sorts before the other.
proof fn lemma_keys_compare(a: Seq<char>, b: Seq<char>)
    requires
        a != b,
    ensures
        bytes::sorts_before(text::utf8(a), text::utf8(b)) || bytes::sorts_before(
            text::utf8(b),
            text::utf8(a),
        ),
{
    vstd::utf8::encode_utf8_decode_utf8(a);
    vstd::utf8::encode_utf8_decode_utf8(b);
    lemma_bytes_compare(text::utf8(a), text::utf8(b));
}

proof fn lemma_bytes_compare(a: Seq<u8>, b: Seq<u8>)
    ensures
        a == b || bytes::sorts_before(a, b) || bytes::sorts_before(b, a),
    decreases a.len(),
{
    if a.len() > 0 && b.len() > 0 && a[0] == b[0] {
        lemma_bytes_compare(a.skip(1), b.skip(1));
        if a.skip(1) == b.skip(1) {
            assert(a =~= seq![a[0]] + a.skip(1));
            assert(b =~= seq![b[0]] + b.skip(1));
        }
    } else if a.len() == 0 && b.len() == 0 {
        assert(a =~= b);
    }
}

/// A header starts with nothing but its path, its kind and its permission bits.
pub proof fn law_headers_start_plain(path: Seq<char>, kind: EntryKind, mode: u16)
    ensures
        ({
            let h = HeaderView::plain(path, kind, mode);
            &&& h.path == path
            &&& h.kind == kind
            &&& h.mode == mode
            &&& h.uid == 0
            &&& h.gid == 0
            &&& h.mtime == 0
            &&& h.size == 0
            &&& h.link.len() == 0
            &&& h.major == 0
            &&& h.minor == 0
            &&& h.xattrs.len() == 0
        }),
{
}

/// Appending an entry writes what fills the last block of the entry before, what
/// the entry opens with, and — of a file alone — its contents, which its header
/// counts; what fills their last block is still owed.
#[verifier::spinoff_prover]
#[verifier::rlimit(40)]
pub proof fn law_entries_are_written_whole(at: WriterView, h: HeaderView, data: Seq<u8>)
    requires
        data.len() <= u64::MAX,
    ensures
        ({
            let then = writer::appended(at, h, data);
            let owed = Seq::new(at.pad, |i: int| 0u8);
            &&& h.kind == EntryKind::File ==> then.written == at.written + owed + writer::opening(
                HeaderView { size: data.len() as u64, ..h },
            ) + data
            &&& h.kind != EntryKind::File ==> then.written == at.written + owed
                + writer::opening(h)
            &&& then.left == 0
            &&& then.pad < 512
            &&& h.kind == EntryKind::File ==> (data.len() + then.pad) % 512 == 0
            &&& h.kind != EntryKind::File ==> then.pad == 0
            &&& then.flushes == at.flushes
        }),
{
    let owed = Seq::new(at.pad, |i: int| 0u8);
    assert(writer::zeros(at.pad) == owed);
    if h.kind == EntryKind::File {
        let sized = HeaderView { size: data.len() as u64, ..h };
        assert(writer::sized(h, data) == sized);
        assert(writer::contents(h, data) == data);
    } else {
        assert(writer::sized(h, data) == h);
        lemma_nothing_more(at.written + owed + writer::opening(h));
    }
}

proof fn lemma_nothing_more(s: Seq<u8>)
    ensures
        s + Seq::<u8>::empty() == s,
{
    assert(s + Seq::<u8>::empty() =~= s);
}

/// A number field that holds anything but octal digits in front of its end is no
/// number.
pub proof fn law_other_characters_are_no_number(f: Seq<u8>, k: int, j: int)
    requires
        0 <= j < k <= f.len(),
        forall|i: int| 0 <= i < k ==> 33 <= #[trigger] f[i] < 127,
        k < f.len() ==> f[k] == 0 || f[k] == 32,
        f[j] < 48 || f[j] > 55,
        f[0] != 43,
    ensures
        field::octal_value(f) is None,
{
    lemma_text_end(f, 0, k);
    let cs = text::ascii(f.take(k));
    assert(33 <= f[0] < 127);
    assert(33 <= f[k - 1] < 127);
    assert(33 <= f[j] < 127);
    assert(cs[0] as int == f[0]);
    assert(cs.last() as int == f[k - 1]);
    assert(cs[j] as int == f[j]);
    assert(text::trim(cs) == cs);
    assert(cs[0] != '+');
    assert(!text::all_digits(cs, 8));
}

proof fn lemma_text_end(f: Seq<u8>, i: int, k: int)
    requires
        0 <= i <= k <= f.len(),
        forall|j: int| 0 <= j < k ==> 33 <= #[trigger] f[j] < 127,
        k < f.len() ==> f[k] == 0 || f[k] == 32,
    ensures
        field::octal_end(f, i) == k,
    decreases k - i,
{
    if i < k {
        assert(33 <= f[i] < 127);
        lemma_text_end(f, i + 1, k);
    }
}

/// Records are read up to where there is no more of them: where no space follows,
/// where a length is zero, or where it reaches past the end. A length that does
/// not even cover its own digits is malformed, and a record without an equals sign
/// says nothing.
pub proof fn law_records_are_read_as_far_as_they_go(
    body: Seq<u8>,
    at: int,
    space: int,
    known: Seq<(Seq<char>, Seq<u8>)>,
)
    requires
        0 <= at <= space <= body.len(),
        forall|i: int| at <= i < space ==> #[trigger] body[i] != 32,
        space < body.len() ==> body[space] == 32,
    ensures
        ({
            let len = text::whole_number(
                text::trim(text::lossy_text(body.subrange(at, space))),
                10,
            );
            let got = pax::parsed_from(body, at, known);
            &&& space == body.len() ==> got == Some(known)
            &&& space < body.len() && len is None ==> got is None
            &&& space < body.len() && len == Some(0nat) ==> got == Some(known)
            &&& space < body.len() && len is Some && body.len() <= usize::MAX && len->0
                <= usize::MAX && at + len->0 > body.len() ==> got == Some(known)
            &&& space < body.len() && len is Some && len->0 <= usize::MAX && 0 < len->0 && at
                + len->0 <= space ==> got is None
            &&& space < body.len() && len is Some && len->0 <= usize::MAX && space + 1 <= at
                + len->0 <= body.len() && !body.subrange(space + 1, (at + len->0) as int).contains(
                61u8,
            ) ==> got == pax::parsed_from(body, (at + len->0) as int, known)
        }),
{
    laws::lemma_found_at(body, at, space, 32);
    let len = text::whole_number(
        text::trim(text::lossy_text(body.subrange(at, space))),
        10,
    );
    if space < body.len() && len is Some && space + 1 <= at + len->0 <= body.len() {
        let record = body.subrange(space + 1, (at + len->0) as int);
        if !record.contains(61u8) {
            assert forall|i: int| 0 <= i < record.len() implies record[i] != 61 by {
                assert(record.contains(record[i]));
            }
            laws::lemma_found_at(record, 0, record.len() as int, 61);
        }
    }
}

/// Of a record's value only a newline at its end is left out.
pub proof fn law_values_lose_one_newline(value: Seq<u8>)
    ensures
        pax::without_newline(value.push(10)) == value,
        value.len() > 0 && value.last() != 10 ==> pax::without_newline(value) == value,
        pax::without_newline(Seq::empty()).len() == 0,
{
    assert(value.push(10).drop_last() =~= value);
}

/// A fault is told with what is wrong: how many bytes are missing, how far into a
/// header the stream got, or what stands where a number should. An entry cut short
/// or overrun is told with the bytes it is out by.
pub proof fn law_faults_say_what_is_wrong(n: nat, given: nat, f: Seq<u8>)
    ensures
        reader::fault_text(Fault::Truncated(n)) == "archive is truncated: "@ + text::ascii(
            text::digits(n, 10),
        ) + " bytes short"@,
        reader::fault_text(Fault::MidHeader(n)) == "archive ends mid-header, "@ + text::ascii(
            text::digits(n, 10),
        ) + " bytes into a 512-byte block"@,
        reader::fault_text(Fault::BadPax) == "malformed PAX record length"@,
        reader::fault_text(Fault::BadOctal(f)) == "malformed octal field '"@ + field::octal_text(f)
            + "' in tar header"@,
        writer::short_text(n) == "entry was declared as "@ + text::ascii(text::digits(n, 10))
            + " bytes longer than what was written"@,
        writer::long_text(n, given) == "entry was declared as "@ + text::ascii(
            text::digits(n, 10),
        ) + " more bytes but "@ + text::ascii(text::digits(given, 10)) + " were written"@,
{
}

} // verus!
