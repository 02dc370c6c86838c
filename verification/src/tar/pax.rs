//! PAX extended headers: `LEN key=value\n` records.

use vstd::prelude::*;

use crate::bytes;
use crate::error::{Error, Result};
use crate::tar::field;
use crate::text;

verus! {

/// Records as a sorted list: `value` put under `key`, in place of what stood
/// there.
pub open spec fn put(
    records: Seq<(Seq<char>, Seq<u8>)>,
    key: Seq<char>,
    value: Seq<u8>,
) -> Seq<(Seq<char>, Seq<u8>)>
    decreases records.len(),
{
    if records.len() == 0 {
        seq![(key, value)]
    } else if records[0].0 == key {
        records.update(0, (key, value))
    } else if bytes::sorts_before(text::utf8(key), text::utf8(records[0].0)) {
        seq![(key, value)] + records
    } else {
        seq![records[0]] + put(records.skip(1), key, value)
    }
}

/// What is recorded under `key`.
pub open spec fn lookup(records: Seq<(Seq<char>, Seq<u8>)>, key: Seq<char>) -> Option<Seq<u8>>
    decreases records.len(),
{
    if records.len() == 0 {
        None
    } else if records[0].0 == key {
        Some(records[0].1)
    } else {
        lookup(records.skip(1), key)
    }
}

/// A list of records as the contracts speak of it.
pub open spec fn records_view(entries: Seq<(String, Vec<u8>)>) -> Seq<(Seq<char>, Seq<u8>)> {
    entries.map_values(|e: (String, Vec<u8>)| (e.0@, e.1@))
}

/// PAX records, one to a key, sorted by key.
pub struct Records {
    entries: Vec<(String, Vec<u8>)>,
}

impl View for Records {
    type V = Seq<(Seq<char>, Seq<u8>)>;

    closed spec fn view(&self) -> Seq<(Seq<char>, Seq<u8>)> {
        records_view(self.entries@)
    }
}

impl Records {
    /// No records.
    pub fn new() -> (r: Self)
        ensures
            r@ == Seq::<(Seq<char>, Seq<u8>)>::empty(),
    {
        let r = Records { entries: Vec::new() };
        assert(r@ =~= Seq::empty());
        r
    }

    /// How many records there are.
    pub fn len(&self) -> (n: usize)
        ensures
            n == self@.len(),
    {
        self.entries.len()
    }

    /// The record in place `i`.
    pub fn at(&self, i: usize) -> (r: (&String, &Vec<u8>))
        requires
            i < self@.len(),
        ensures
            (r.0@, r.1@) == self@[i as int],
    {
        (&self.entries[i].0, &self.entries[i].1)
    }

    /// What is recorded under `key`.
    pub fn get(&self, key: &str) -> (r: Option<&Vec<u8>>)
        ensures
            match r {
                Some(v) => lookup(self@, key@) == Some(v@),
                None => lookup(self@, key@) is None,
            },
    {
        let mut i: usize = 0;
        assert(self@.skip(0) =~= self@);
        while i < self.entries.len()
            invariant
                i <= self@.len(),
                self@.len() == self.entries@.len(),
                lookup(self@, key@) == lookup(self@.skip(i as int), key@),
            decreases self.entries.len() - i,
        {
            let ghost rest = self@.skip(i as int);
            assert(rest[0] == (self.entries@[i as int].0@, self.entries@[i as int].1@));
            if text::same_text(self.entries[i].0.as_str(), key) {
                return Some(&self.entries[i].1);
            }
            assert(rest.skip(1) =~= self@.skip(i + 1));
            i += 1;
        }
        None
    }

    /// Record `value` under `key`, in place of what stood there.
    pub fn insert(&mut self, key: String, value: Vec<u8>)
        ensures
            final(self)@ == put(old(self)@, key@, value@),
    {
        let mut i: usize = 0;
        let ghost all = self@;
        let ghost done = put(self@, key@, value@);
        assert(all.skip(0) =~= all);
        assert(all.take(0) + put(all, key@, value@) =~= done);
        while i < self.entries.len()
            invariant
                i <= all.len(),
                all.len() == self.entries@.len(),
                all == self@,
                *self == *old(self),
                done == put(old(self)@, key@, value@),
                done == all.take(i as int) + put(all.skip(i as int), key@, value@),
            decreases self.entries.len() - i,
        {
            let ghost rest = all.skip(i as int);
            assert(rest[0] == (self.entries@[i as int].0@, self.entries@[i as int].1@));
            if text::same_text(self.entries[i].0.as_str(), key.as_str()) {
                let ghost was = self.entries@;
                self.entries.set(i, (key, value));
                assert(self@ =~= all.update(i as int, (key@, value@)));
                assert(self@ =~= done);
                return ;
            }
            if bytes::is_before(key.as_str().as_bytes(), self.entries[i].0.as_str().as_bytes()) {
                self.entries.insert(i, (key, value));
                assert(self@ =~= all.insert(i as int, (key@, value@)));
                assert(self@ =~= done);
                return ;
            }
            assert(rest.skip(1) =~= all.skip(i + 1));
            assert(all.take(i + 1) + put(all.skip(i + 1), key@, value@) =~= all.take(i as int) + (
            seq![rest[0]] + put(rest.skip(1), key@, value@)));
            i += 1;
        }
        self.entries.push((key, value));
        assert(self@ =~= all.push((key@, value@)));
        assert(self@ =~= done);
    }
}

/// The length a record opens with, in bytes.
pub open spec fn record_length(digits: Seq<u8>) -> Option<nat> {
    match text::whole_number(text::trim(text::lossy_text(digits)), 10) {
        Some(n) => if n <= usize::MAX {
            Some(n)
        } else {
            None
        },
        None => None,
    }
}

/// A record's value, without the newline that ends it.
pub open spec fn without_newline(v: Seq<u8>) -> Seq<u8> {
    if v.len() > 0 && v.last() == 10 {
        v.drop_last()
    } else {
        v
    }
}

/// The records of `body` from byte `at` on, added to `known`; `None` where a
/// record's length is no number, or too small to cover its own digits.
pub open spec fn parsed_from(
    body: Seq<u8>,
    at: int,
    known: Seq<(Seq<char>, Seq<u8>)>,
) -> Option<Seq<(Seq<char>, Seq<u8>)>>
    decreases body.len() - at,
{
    let space = field::find_byte(body, at, 32);
    if at >= body.len() || space >= body.len() {
        Some(known)
    } else {
        match record_length(body.subrange(at, space)) {
            None => None,
            Some(len) => if len == 0 || at + len > body.len() {
                Some(known)
            } else if space + 1 > at + len {
                None
            } else {
                let record = body.subrange(space + 1, at + len);
                let eq = field::find_byte(record, 0, 61);
                parsed_from(
                    body,
                    at + len,
                    if eq < record.len() {
                        put(
                            known,
                            text::lossy_text(record.take(eq)),
                            without_newline(record.skip(eq + 1)),
                        )
                    } else {
                        known
                    },
                )
            },
        }
    }
}

/// The records of a PAX extended header.
pub open spec fn parsed(body: Seq<u8>) -> Option<Seq<(Seq<char>, Seq<u8>)>> {
    parsed_from(body, 0, Seq::empty())
}

/// Read the length a record opens with.
fn read_length(digits: &[u8]) -> (r: Option<usize>)
    ensures
        match r {
            Some(n) => record_length(digits@) == Some(n as nat),
            None => record_length(digits@) is None,
        },
{
    let t: String = text::lossy(digits);
    let chars: Vec<char> = text::chars_of(t.as_str());
    match text::parse_whole(text::trimmed(chars.as_slice()), 10, usize::MAX as u64) {
        Some(n) => Some(n as usize),
        None => None,
    }
}

/// Parse a PAX extended header: repeated `LEN key=value\n` records.
pub fn parse_pax(body: &[u8]) -> (r: Result<Records>)
    ensures
        match r {
            Ok(records) => parsed(body@) == Some(records@),
            Err(e) => parsed(body@) is None && (e matches Error::InvalidPath(m) && m@
                == "malformed PAX record length"@),
        },
{
    let mut out: Records = Records::new();
    let mut at: usize = 0;
    while at < body.len()
        invariant
            at <= body@.len(),
            parsed(body@) == parsed_from(body@, at as int, out@),
        decreases body.len() - at,
    {
        // The record opens with its own total length in decimal.
        let space: usize = field::index_of(body, at, 32);
        if space == body.len() {
            return Ok(out);
        }
        let digits: &[u8] = vstd::slice::slice_subrange(body, at, space);
        let len: usize = match read_length(digits) {
            Some(n) => n,
            None => {
                return Err(Error::InvalidPath("malformed PAX record length".to_owned()));
            },
        };
        if len == 0 || len > body.len() - at {
            return Ok(out);
        }
        let next: usize = at + len;
        if space >= next {
            return Err(Error::InvalidPath("malformed PAX record length".to_owned()));
        }
        let record: &[u8] = vstd::slice::slice_subrange(body, space + 1, next);
        let eq: usize = field::index_of(record, 0, 61);
        if eq < record.len() {
            let name: &[u8] = vstd::slice::slice_subrange(record, 0, eq);
            assert(name@ =~= record@.take(eq as int));
            let key: String = text::lossy(name);
            let tail: &[u8] = vstd::slice::slice_subrange(record, eq + 1, record.len());
            assert(tail@ =~= record@.skip(eq + 1));
            let mut value: Vec<u8> = bytes::copy(tail);
            // Each record ends with a newline that is not part of the value.
            if value.len() > 0 && value[value.len() - 1] == 10 {
                value.pop();
                assert(value@ =~= tail@.drop_last());
            }
            out.insert(key, value);
        }
        at = next;
    }
    Ok(out)
}

/// Whether a record of `n` bytes, `rest` of them besides its length's digits,
/// counts itself right.
pub open spec fn counts_itself(rest: nat, n: nat) -> bool {
    text::digits(n, 10).len() + rest == n
}

/// The length a record opens with: the smallest that counts its own digits.
pub open spec fn declared(rest: nat) -> nat {
    choose|n: nat| is_declared(rest, n)
}

/// What `declared` chooses by.
pub open spec fn is_declared(rest: nat, n: nat) -> bool {
    &&& counts_itself(rest, n)
    &&& forall|m: nat| m < n ==> !#[trigger] counts_itself(rest, m)
}

/// A record, laid out.
pub open spec fn record(key: Seq<u8>, value: Seq<u8>) -> Seq<u8> {
    text::digits(declared(key.len() + value.len() + 3), 10) + seq![32u8] + key + seq![61u8] + value
        + seq![10u8]
}

/// A PAX extended header body.
pub open spec fn built(records: Seq<(Seq<char>, Seq<u8>)>) -> Seq<u8>
    decreases records.len(),
{
    if records.len() == 0 {
        Seq::empty()
    } else {
        built(records.drop_last()) + record(text::utf8(records.last().0), records.last().1)
    }
}

/// More never takes fewer digits.
pub proof fn lemma_digits_grow(a: nat, b: nat)
    requires
        a <= b,
    ensures
        text::digits(a, 10).len() <= text::digits(b, 10).len(),
    decreases b,
{
    if b >= 10 && a >= 10 {
        lemma_digits_grow(a / 10, b / 10);
    }
}

/// How many digits a number takes.
proof fn lemma_digits_len(n: nat, k: nat)
    requires
        n < crate::decimal::tens(k),
        k >= 1,
    ensures
        text::digits(n, 10).len() <= k,
    decreases k,
{
    if n >= 10 {
        if k == 1 {
            assert(crate::decimal::tens(0) == 1);
        }
        lemma_digits_len(n / 10, (k - 1) as nat);
    }
}

/// The length of a record, found by trying one after another.
fn declared_of(rest: u128) -> (n: u128)
    requires
        3 <= rest <= 0x10_0000_0000_0000_0000,
    ensures
        n == declared(rest as nat),
        is_declared(rest as nat, n as nat),
        n <= rest + 30,
{
    let mut n: u128 = rest + 1;
    proof {
        assert(crate::decimal::tens(30) == 1_000_000_000_000_000_000_000_000_000_000) by {
            reveal_with_fuel(crate::decimal::tens, 31);
        }
        assert(text::digits(n as nat, 10).len() >= 1);
        assert forall|m: nat| m < n implies !#[trigger] counts_itself(rest as nat, m) by {
            assert(text::digits(m, 10).len() >= 1);
        }
    }
    let mut width: usize = text::digits_of(n, 10).len();
    while width as u128 + rest != n
        invariant
            3 <= rest <= 0x10_0000_0000_0000_0000,
            rest + 1 <= n <= rest + 30,
            width == text::digits(n as nat, 10).len(),
            width + rest >= n,
            crate::decimal::tens(30) == 1_000_000_000_000_000_000_000_000_000_000,
            forall|m: nat| m < n ==> !#[trigger] counts_itself(rest as nat, m),
        decreases rest + 30 - n,
    {
        proof {
            lemma_digits_len(n as nat, 30);
            lemma_digits_grow(n as nat, (n + 1) as nat);
            assert(!counts_itself(rest as nat, n as nat));
        }
        n += 1;
        width = text::digits_of(n, 10).len();
    }
    proof {
        assert(is_declared(rest as nat, n as nat));
        let d = declared(rest as nat);
        assert(is_declared(rest as nat, d));
        if d < n {
            assert(!counts_itself(rest as nat, d));
        }
        if (n as nat) < d {
            assert(!counts_itself(rest as nat, n as nat));
        }
    }
    n
}

/// Build a PAX extended header body from its records.
pub fn build_pax(records: &[(String, Vec<u8>)]) -> (out: Vec<u8>)
    ensures
        out@ == built(records_view(records@)),
{
    let mut out: Vec<u8> = Vec::new();
    let ghost view = records_view(records@);
    let mut i: usize = 0;
    assert(view.take(0) =~= Seq::empty());
    while i < records.len()
        invariant
            i <= records@.len(),
            view == records_view(records@),
            out@ == built(view.take(i as int)),
        decreases records.len() - i,
    {
        let key: &[u8] = records[i].0.as_str().as_bytes();
        let value: &[u8] = records[i].1.as_slice();
        // Each record opens with its own total length, which counts the
        // digits of that length — so the width has to be solved for.
        let n: u128 = declared_of(key.len() as u128 + value.len() as u128 + 3);
        let digits: Vec<u8> = text::digits_of(n, 10);
        let ghost before = out@;
        out.extend_from_slice(digits.as_slice());
        out.push(32);
        out.extend_from_slice(key);
        out.push(61);
        out.extend_from_slice(value);
        out.push(10);
        proof {
            assert(view[i as int] == (records@[i as int].0@, records@[i as int].1@));
            assert(view.take(i + 1).drop_last() =~= view.take(i as int));
            assert(out@ =~= before + record(key@, value@));
        }
        i += 1;
    }
    assert(view.take(i as int) =~= view);
    out
}

} // verus!
