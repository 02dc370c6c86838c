//! What holds of directory blocks.

use vstd::prelude::*;

use crate::bytes;
use crate::dir::{self, Found, Record, Room};

verus! {

/// Whether the chain from `at` on is unbroken: every entry holds its name and
/// leads to the next, up to the limit.
pub open spec fn intact(block: Seq<u8>, at: int, limit: int) -> bool
    decreases limit - at,
{
    if at + 8 > limit {
        true
    } else {
        let n = bytes::get16(block, at + 4) as int;
        n > 0 && dir::sound(block, at, limit) && intact(block, at + n, limit)
    }
}

/// A live entry: the inode, the name, the file type.
pub open spec fn live_entry(r: Record) -> (u32, Seq<u8>, u8) {
    (r.inode, r.name, r.file_type)
}

/// What an entry adds to the list of live ones.
pub open spec fn if_live(r: Record) -> Seq<(u32, Seq<u8>, u8)> {
    if r.inode == 0 {
        Seq::empty()
    } else {
        seq![live_entry(r)]
    }
}

/// The live entries from `at` on, in order.
pub open spec fn live(block: Seq<u8>, at: int, limit: int) -> Seq<(u32, Seq<u8>, u8)>
    decreases limit - at,
{
    let n = bytes::get16(block, at + 4) as int;
    if at + 8 > limit || n == 0 || !dir::sound(block, at, limit) {
        Seq::empty()
    } else {
        if_live(dir::record_at(block, at)) + live(block, at + n, limit)
    }
}

/// Entries behind a change are what they were.
proof fn lemma_same_behind(a: Seq<u8>, b: Seq<u8>, at: int, limit: int)
    requires
        0 <= at,
        limit <= a.len(),
        a.len() == b.len(),
        forall|i: int| at <= i < limit ==> a[i] == b[i],
        intact(a, at, limit),
    ensures
        intact(b, at, limit),
        live(a, at, limit) == live(b, at, limit),
    decreases limit - at,
{
    if at + 8 <= limit {
        let n = bytes::get16(a, at + 4) as int;
        assert(a[at + 4] == b[at + 4] && a[at + 5] == b[at + 5]);
        assert(a[at + 6] == b[at + 6]);
        lemma_same_record(a, b, at);
        lemma_same_behind(a, b, at + n, limit);
    }
}

/// An entry whose bytes did not change is the same entry.
proof fn lemma_same_record(a: Seq<u8>, b: Seq<u8>, at: int)
    requires
        0 <= at,
        a.len() == b.len(),
        at + 8 + a[at + 6] <= a.len(),
        forall|i: int| at <= i < at + 8 + a[at + 6] ==> a[i] == b[i],
    ensures
        dir::record_at(a, at) == dir::record_at(b, at),
{
    assert(a[at] == b[at] && a[at + 1] == b[at + 1] && a[at + 2] == b[at + 2] && a[at + 3] == b[at
        + 3]);
    assert(a[at + 4] == b[at + 4] && a[at + 5] == b[at + 5]);
    assert(a[at + 6] == b[at + 6] && a[at + 7] == b[at + 7]);
    assert(dir::record_at(a, at).name =~= dir::record_at(b, at).name);
}

/// A laid-out entry is read back as it was meant.
proof fn lemma_entry_read(
    block: Seq<u8>,
    at: int,
    inode: u32,
    name: Seq<u8>,
    file_type: u8,
    n: int,
)
    requires
        0 <= at,
        name.len() <= 255,
        8 + name.len() <= n <= u16::MAX,
        at + n <= block.len(),
    ensures
        ({
            let b = bytes::overlay(block, at, dir::entry_bytes(inode, name, file_type, n));
            &&& b.len() == block.len()
            &&& dir::record_at(b, at) == (Record { inode, rec_len: n, name, file_type })
            &&& bytes::get16(b, at + 4) == n
            &&& b[at + 6] == name.len()
        }),
{
    let e = dir::entry_bytes(inode, name, file_type, n);
    let b = bytes::overlay(block, at, e);
    assert(e.len() == n);
    assert(b[at] == e[0] && b[at + 1] == e[1] && b[at + 2] == e[2] && b[at + 3] == e[3]);
    assert(b[at + 4] == e[4] && b[at + 5] == e[5]);
    assert(b[at + 6] == e[6] && b[at + 7] == e[7]);
    assert(e[0] == bytes::le32(inode)[0] && e[1] == bytes::le32(inode)[1] && e[2] == bytes::le32(
        inode,
    )[2] && e[3] == bytes::le32(inode)[3]);
    assert(e[4] == bytes::le16(n as u16)[0] && e[5] == bytes::le16(n as u16)[1]);
    assert(bytes::get32(b, at) == inode);
    assert(bytes::get16(b, at + 4) == n as u16);
    assert(dir::record_at(b, at).name =~= name);
}

/// Where room was found there is an entry, and it has the room.
proof fn lemma_room(block: Seq<u8>, at: int, limit: int, need: int)
    requires
        0 <= at,
        limit <= block.len(),
        need > 0,
    ensures
        dir::room_from(block, at, limit, need) matches Room::At(p, u, s) ==> {
            &&& at <= p
            &&& p + 8 <= limit
            &&& s >= need
            &&& dir::sound(block, p, limit)
            &&& u == dir::used(dir::record_at(block, p))
            &&& u + s == bytes::get16(block, p + 4)
        },
    decreases limit - at,
{
    if at + 8 <= limit {
        let n = bytes::get16(block, at + 4) as int;
        if n > 0 && dir::sound(block, at, limit) {
            lemma_room(block, at + n, limit, need);
        }
    }
}

/// Bytes an entry needs cover its header and its name.
proof fn lemma_span(n: nat)
    ensures
        8 + n <= dir::span(n) <= 8 + n + 3,
{
}

/// The first entry of an unbroken chain, and the rest.
proof fn lemma_chain(b: Seq<u8>, at: int, limit: int, n: int)
    requires
        0 <= at,
        at + 8 <= limit,
        bytes::get16(b, at + 4) == n,
        n > 0,
        dir::sound(b, at, limit),
        intact(b, at + n, limit),
    ensures
        intact(b, at, limit),
        live(b, at, limit) == if_live(dir::record_at(b, at)) + live(b, at + n, limit),
{
}

/// What lies behind a part put into a block is what it was.
proof fn lemma_overlay_behind(block: Seq<u8>, at: int, part: Seq<u8>)
    ensures
        bytes::overlay(block, at, part).len() == block.len(),
        forall|i: int|
            0 <= i < block.len() && (i < at || i >= at + part.len()) ==> #[trigger] bytes::overlay(
                block,
                at,
                part,
            )[i] == block[i],
{
}

/// An entry is as long as it says.
proof fn lemma_entry_len(inode: u32, name: Seq<u8>, file_type: u8, n: int)
    requires
        8 + name.len() <= n,
    ensures
        dir::entry_bytes(inode, name, file_type, n).len() == n,
{
}

/// Taking over a dead entry.
proof fn lemma_insert_dead(
    block: Seq<u8>,
    p: int,
    limit: int,
    inode: u32,
    name: Seq<u8>,
    file_type: u8,
)
    requires
        0 <= p,
        p + 8 <= limit,
        limit <= block.len(),
        limit <= u16::MAX,
        name.len() <= 255,
        inode != 0,
        intact(block, p, limit),
        dir::record_at(block, p).inode == 0,
        8 + name.len() <= bytes::get16(block, p + 4),
    ensures
        ({
            let s = bytes::get16(block, p + 4) as int;
            let after = dir::with_entry(block, p, 0, s, inode, name, file_type);
            let new = (inode, name, file_type);
            &&& intact(after, p, limit)
            &&& live(after, p, limit) == live(block, p, limit).insert(0, new)
        }),
{
    let s = bytes::get16(block, p + 4) as int;
    let after = dir::with_entry(block, p, 0, s, inode, name, file_type);
    let new = (inode, name, file_type);
    let rest = live(block, p + s, limit);
    let e = dir::entry_bytes(inode, name, file_type, s);
    lemma_entry_read(block, p, inode, name, file_type, s);
    lemma_entry_len(inode, name, file_type, s);
    lemma_overlay_behind(block, p, e);
    assert(after == bytes::overlay(block, p, e));
    lemma_same_behind(block, after, p + s, limit);
    lemma_chain(after, p, limit, s);
    lemma_chain(block, p, limit, s);
    assert(if_live(dir::record_at(after, p)) == seq![new]);
    assert(if_live(dir::record_at(block, p)) + rest =~= rest);
    assert(rest.insert(0, new) =~= seq![new] + rest);
}

/// Taking the slack of a live entry.
#[verifier::spinoff_prover]
proof fn lemma_insert_split(
    block: Seq<u8>,
    p: int,
    u: int,
    limit: int,
    inode: u32,
    name: Seq<u8>,
    file_type: u8,
)
    requires
        0 <= p,
        p + 8 <= limit,
        limit <= block.len(),
        limit <= u16::MAX,
        name.len() <= 255,
        inode != 0,
        intact(block, p, limit),
        dir::record_at(block, p).inode != 0,
        u == dir::span(dir::record_at(block, p).name.len()),
        u + 8 + name.len() <= bytes::get16(block, p + 4),
    ensures
        ({
            let s = bytes::get16(block, p + 4) - u;
            let after = dir::with_entry(block, p, u, s, inode, name, file_type);
            let new = (inode, name, file_type);
            &&& intact(after, p, limit)
            &&& live(after, p, limit) == live(block, p, limit).insert(1, new)
            &&& live(block, p, limit).len() >= 1
        }),
{
    let n = bytes::get16(block, p + 4) as int;
    let s = n - u;
    let after = dir::with_entry(block, p, u, s, inode, name, file_type);
    let new = (inode, name, file_type);
    let here = dir::record_at(block, p);
    let rest = live(block, p + n, limit);
    lemma_span(here.name.len());
    let shrunk = bytes::overlay(block, p + 4, bytes::le16(u as u16));
    bytes::lemma_get_put16(block, p + 4, u as u16);
    lemma_entry_read(shrunk, p + u, inode, name, file_type, s);
    assert(dir::entry_bytes(inode, name, file_type, s).len() == s);
    lemma_kept_entry(block, after, p, u);
    lemma_same_behind(block, after, p + n, limit);
    let fresh = dir::record_at(after, p + u);
    assert(if_live(fresh) =~= seq![new]);
    assert(intact(after, p + u, limit));
    assert(live(after, p + u, limit) =~= seq![new] + rest);
    let first = seq![live_entry(here)];
    assert(if_live(dir::record_at(after, p)) =~= first);
    assert(live(after, p, limit) =~= first + (seq![new] + rest));
    assert(live(block, p, limit) =~= first + rest);
    assert((first + rest).insert(1, new) =~= first + (seq![new] + rest));
}

/// An entry that gave room keeps its inode, name and type.
proof fn lemma_kept_entry(block: Seq<u8>, after: Seq<u8>, p: int, u: int)
    requires
        0 <= p,
        after.len() == block.len(),
        p + 8 + block[p + 6] <= p + u <= block.len(),
        0 <= u <= u16::MAX,
        forall|i: int|
            p <= i < p + u ==> #[trigger] after[i] == bytes::overlay(
                block,
                p + 4,
                bytes::le16(u as u16),
            )[i],
    ensures
        bytes::get16(after, p + 4) == u,
        after[p + 6] == block[p + 6],
        ({
            let a = dir::record_at(block, p);
            let b = dir::record_at(after, p);
            &&& b.inode == a.inode
            &&& b.name == a.name
            &&& b.file_type == a.file_type
        }),
{
    let shrunk = bytes::overlay(block, p + 4, bytes::le16(u as u16));
    bytes::lemma_get_put16(block, p + 4, u as u16);
    assert(after[p] == shrunk[p] && after[p + 1] == shrunk[p + 1] && after[p + 2] == shrunk[p + 2]
        && after[p + 3] == shrunk[p + 3]);
    assert(after[p + 4] == shrunk[p + 4] && after[p + 5] == shrunk[p + 5]);
    assert(after[p + 6] == shrunk[p + 6] && after[p + 7] == shrunk[p + 7]);
    assert(dir::record_at(after, p).name =~= dir::record_at(block, p).name);
}

proof fn lemma_insert_from(
    block: Seq<u8>,
    cur: int,
    limit: int,
    inode: u32,
    name: Seq<u8>,
    file_type: u8,
    p: int,
    u: int,
    s: int,
) -> (k: int)
    requires
        0 <= cur <= limit,
        limit <= block.len(),
        limit <= u16::MAX,
        name.len() <= 255,
        inode != 0,
        intact(block, cur, limit),
        dir::room_from(block, cur, limit, dir::span(name.len()) as int) == Room::At(p, u, s),
    ensures
        ({
            let after = dir::with_entry(block, p, u, s, inode, name, file_type);
            &&& intact(after, cur, limit)
            &&& 0 <= k <= live(block, cur, limit).len()
            &&& live(after, cur, limit) == live(block, cur, limit).insert(
                k,
                (inode, name, file_type),
            )
        }),
    decreases limit - cur,
{
    let need = dir::span(name.len()) as int;
    lemma_span(name.len());
    lemma_room(block, cur, limit, need);
    let after = dir::with_entry(block, p, u, s, inode, name, file_type);
    let new = (inode, name, file_type);
    let n = bytes::get16(block, cur + 4) as int;
    if p == cur {
        if u == 0 {
            lemma_span(dir::record_at(block, p).name.len());
            lemma_insert_dead(block, p, limit, inode, name, file_type);
            0
        } else {
            lemma_insert_split(block, p, u, limit, inode, name, file_type);
            1
        }
    } else {
        let k = lemma_insert_from(block, cur + n, limit, inode, name, file_type, p, u, s);
        lemma_room(block, cur + n, limit, need);
        lemma_step_over(block, after, cur, limit, p);
        let head = if_live(dir::record_at(block, cur));
        let rest = live(block, cur + n, limit);
        assert((head + rest).insert(head.len() + k, new) =~= head + rest.insert(k, new));
        head.len() + k
    }
}

/// An entry in front of a change stays, and leads on to what follows.
proof fn lemma_step_over(block: Seq<u8>, after: Seq<u8>, cur: int, limit: int, p: int)
    requires
        0 <= cur,
        cur + 8 <= limit,
        limit <= block.len(),
        after.len() == block.len(),
        intact(block, cur, limit),
        cur + bytes::get16(block, cur + 4) <= p,
        forall|i: int| 0 <= i < p && i < block.len() ==> #[trigger] after[i] == block[i],
        intact(after, cur + bytes::get16(block, cur + 4), limit),
    ensures
        intact(after, cur, limit),
        live(after, cur, limit) == if_live(dir::record_at(block, cur)) + live(
            after,
            cur + bytes::get16(block, cur + 4),
            limit,
        ),
{
    assert(after[cur + 4] == block[cur + 4] && after[cur + 5] == block[cur + 5]);
    assert(after[cur + 6] == block[cur + 6]);
    assert forall|i: int| cur <= i < cur + 8 + block[cur + 6] implies block[i] == after[i] by {}
    lemma_same_record(block, after, cur);
}

/// Adding a name adds that entry, keeps every other one in its order, and
/// leaves the chain unbroken.
pub proof fn law_insert_adds_one(
    block: Seq<u8>,
    limit: int,
    inode: u32,
    name: Seq<u8>,
    file_type: u8,
)
    requires
        0 <= limit <= block.len(),
        limit <= u16::MAX,
        name.len() <= 255,
        inode != 0,
        intact(block, 0, limit),
    ensures
        dir::room_from(block, 0, limit, dir::span(name.len()) as int) matches Room::At(p, u, s)
            ==> {
            let after = dir::with_entry(block, p, u, s, inode, name, file_type);
            &&& intact(after, 0, limit)
            &&& exists|k: int|
                0 <= k <= live(block, 0, limit).len() && #[trigger] live(block, 0, limit).insert(
                    k,
                    (inode, name, file_type),
                ) == live(after, 0, limit)
        },
{
    if let Room::At(p, u, s) = dir::room_from(block, 0, limit, dir::span(name.len()) as int) {
        let k = lemma_insert_from(block, 0, limit, inode, name, file_type, p, u, s);
    }
}

/// A name is found exactly when a live entry has it, and an unbroken chain is
/// never reported malformed.
pub proof fn law_found_when_live(
    block: Seq<u8>,
    at: int,
    prev: Option<int>,
    limit: int,
    name: Seq<u8>,
)
    requires
        0 <= at,
        limit <= block.len(),
        intact(block, at, limit),
    ensures
        !(dir::find_from(block, at, prev, limit, name) is Malformed),
        dir::find_from(block, at, prev, limit, name) is At <==> exists|i: int|
            0 <= i < live(block, at, limit).len() && (#[trigger] live(block, at, limit)[i]).1
                == name,
    decreases limit - at,
{
    if at + 8 <= limit {
        let n = bytes::get16(block, at + 4) as int;
        let r = dir::record_at(block, at);
        let rest = live(block, at + n, limit);
        let all = live(block, at, limit);
        law_found_when_live(block, at + n, Some(at), limit, name);
        if r.inode != 0 {
            assert(all[0] == live_entry(r));
            if r.name == name {
                assert(all[0].1 == name);
            } else {
                if exists|i: int| 0 <= i < rest.len() && (#[trigger] rest[i]).1 == name {
                    let i = choose|i: int| 0 <= i < rest.len() && (#[trigger] rest[i]).1 == name;
                    assert(all[i + 1] == rest[i]);
                }
                if exists|i: int| 0 <= i < all.len() && (#[trigger] all[i]).1 == name {
                    let i = choose|i: int| 0 <= i < all.len() && (#[trigger] all[i]).1 == name;
                    assert(i > 0);
                    assert(all[i] == rest[i - 1]);
                }
            }
        } else {
            assert(all =~= rest);
        }
    }
}

/// Zeroing the inode of the first entry of all.
proof fn lemma_remove_first(block: Seq<u8>, cur: int, limit: int)
    requires
        0 <= cur,
        cur + 8 <= limit,
        limit <= block.len(),
        intact(block, cur, limit),
        dir::record_at(block, cur).inode != 0,
    ensures
        ({
            let after = dir::without_entry(block, cur, None);
            &&& intact(after, cur, limit)
            &&& live(block, cur, limit).len() >= 1
            &&& live(block, cur, limit)[0] == live_entry(dir::record_at(block, cur))
            &&& live(after, cur, limit) == live(block, cur, limit).remove(0)
        }),
{
    let after = dir::without_entry(block, cur, None);
    let n = bytes::get16(block, cur + 4) as int;
    let here = dir::record_at(block, cur);
    let rest = live(block, cur + n, limit);
    lemma_overlay_behind(block, cur, bytes::le32(0));
    bytes::lemma_get_put32(block, cur, 0);
    assert(after[cur + 4] == block[cur + 4] && after[cur + 5] == block[cur + 5]);
    assert(after[cur + 6] == block[cur + 6]);
    lemma_same_behind(block, after, cur + n, limit);
    lemma_chain(after, cur, limit, n);
    lemma_chain(block, cur, limit, n);
    assert(if_live(dir::record_at(after, cur)) + rest =~= rest);
    assert((seq![live_entry(here)] + rest).remove(0) =~= rest);
}

/// Giving the span of an entry to the one before it.
#[verifier::spinoff_prover]
proof fn lemma_remove_next(block: Seq<u8>, cur: int, limit: int)
    requires
        0 <= cur,
        cur + 8 <= limit,
        limit <= block.len(),
        limit <= u16::MAX,
        intact(block, cur, limit),
        cur + bytes::get16(block, cur + 4) + 8 <= limit,
        dir::record_at(block, cur + bytes::get16(block, cur + 4)).inode != 0,
    ensures
        ({
            let next = cur + bytes::get16(block, cur + 4);
            let after = dir::without_entry(block, next, Some(cur));
            let k = if_live(dir::record_at(block, cur)).len() as int;
            &&& intact(after, cur, limit)
            &&& 0 <= k < live(block, cur, limit).len()
            &&& live(block, cur, limit)[k] == live_entry(dir::record_at(block, next))
            &&& live(after, cur, limit) == live(block, cur, limit).remove(k)
        }),
{
    let n = bytes::get16(block, cur + 4) as int;
    let next = cur + n;
    let m = bytes::get16(block, next + 4) as int;
    let after = dir::without_entry(block, next, Some(cur));
    let here = dir::record_at(block, cur);
    let gone = dir::record_at(block, next);
    let behind = live(block, next + m, limit);
    let head = if_live(here);
    assert(intact(block, next, limit));
    assert(dir::sound(block, next, limit));
    assert(intact(block, next + m, limit));
    lemma_overlay_behind(block, cur + 4, bytes::le16((n + m) as u16));
    bytes::lemma_get_put16(block, cur + 4, (n + m) as u16);
    assert(bytes::get16(after, cur + 4) == n + m);
    assert(after[cur + 6] == block[cur + 6] && after[cur + 7] == block[cur + 7]);
    assert(after[cur] == block[cur] && after[cur + 1] == block[cur + 1] && after[cur + 2]
        == block[cur + 2] && after[cur + 3] == block[cur + 3]);
    assert(dir::record_at(after, cur).name =~= here.name);
    lemma_same_behind(block, after, next + m, limit);
    lemma_chain(after, cur, limit, n + m);
    lemma_chain(block, next, limit, m);
    lemma_chain(block, cur, limit, n);
    assert(if_live(dir::record_at(after, cur)) == head);
    let one = seq![live_entry(gone)];
    assert(live(block, cur, limit) == head + (one + behind));
    assert((head + (one + behind)).remove(head.len() as int) =~= head + behind);
}

proof fn lemma_remove_from(
    block: Seq<u8>,
    cur: int,
    before: Option<int>,
    limit: int,
    name: Seq<u8>,
    p: int,
    prev: Option<int>,
) -> (k: int)
    requires
        0 <= cur <= limit,
        limit <= block.len(),
        limit <= u16::MAX,
        intact(block, cur, limit),
        dir::find_from(block, cur, before, limit, name) == Found::At(p, prev),
        p > cur || before is None,
        before matches Some(q) ==> q < cur,
    ensures
        ({
            let after = dir::without_entry(block, p, prev);
            &&& intact(after, cur, limit)
            &&& 0 <= k < live(block, cur, limit).len()
            &&& live(block, cur, limit)[k] == live_entry(dir::record_at(block, p))
            &&& live(after, cur, limit) == live(block, cur, limit).remove(k)
        }),
    decreases limit - cur,
{
    lemma_found_here(block, cur, before, limit, name);
    let after = dir::without_entry(block, p, prev);
    let n = bytes::get16(block, cur + 4) as int;
    let head = if_live(dir::record_at(block, cur));
    let rest = live(block, cur + n, limit);
    if p == cur {
        lemma_remove_first(block, cur, limit);
        0
    } else {
        let next = cur + n;
        lemma_found_here(block, next, Some(cur), limit, name);
        if p == next {
            lemma_remove_next(block, cur, limit);
            head.len() as int
        } else {
            let k = lemma_remove_from(block, next, Some(cur), limit, name, p, prev);
            let q = prev->0;
            assert(next <= q < p);
            lemma_overlay_behind(
                block,
                q + 4,
                bytes::le16((bytes::get16(block, q + 4) + bytes::get16(block, p + 4)) as u16),
            );
            lemma_step_over(block, after, cur, limit, q + 4);
            lemma_chain(block, cur, limit, n);
            assert((head + rest).remove(head.len() + k) =~= head + rest.remove(k));
            head.len() + k
        }
    }
}

/// Where a name is found there is an entry, and the one before it is before.
proof fn lemma_found_here(
    block: Seq<u8>,
    at: int,
    prev: Option<int>,
    limit: int,
    name: Seq<u8>,
)
    requires
        0 <= at,
        prev matches Some(q) ==> q < at,
    ensures
        dir::find_from(block, at, prev, limit, name) matches Found::At(p, before) ==> {
            &&& at <= p
            &&& p + 8 <= limit
            &&& p == at ==> before == prev
            &&& p > at ==> (before matches Some(q) && at <= q < p)
            &&& dir::record_at(block, p).inode != 0
            &&& dir::record_at(block, p).name == name
        },
    decreases limit - at,
{
    if at + 8 <= limit {
        let n = bytes::get16(block, at + 4) as int;
        if n > 0 && dir::sound(block, at, limit) {
            lemma_found_here(block, at + n, Some(at), limit, name);
        }
    }
}

/// Removing a name removes that entry, keeps every other one in its order,
/// and leaves the chain unbroken.
pub proof fn law_remove_takes_one(block: Seq<u8>, limit: int, name: Seq<u8>)
    requires
        0 <= limit <= block.len(),
        limit <= u16::MAX,
        intact(block, 0, limit),
    ensures
        dir::find_from(block, 0, None, limit, name) matches Found::At(p, prev) ==> {
            let after = dir::without_entry(block, p, prev);
            &&& intact(after, 0, limit)
            &&& exists|k: int|
                0 <= k < live(block, 0, limit).len() && (#[trigger] live(block, 0, limit)[k]).1
                    == name && live(after, 0, limit) == live(block, 0, limit).remove(k)
        },
{
    if let Found::At(p, prev) = dir::find_from(block, 0, None, limit, name) {
        lemma_found_here(block, 0, None, limit, name);
        let k = lemma_remove_from(block, 0, None, limit, name, p, prev);
        assert(live(block, 0, limit)[k].1 == name);
    }
}

/// A fresh block is an unbroken chain with nothing in it, and takes any name.
pub proof fn law_empty_block_takes_a_name(block_size: nat, with_tail: bool, name: Seq<u8>)
    requires
        block_size >= 1024,
        dir::limit_of(block_size, with_tail) <= u16::MAX,
        name.len() <= 255,
    ensures
        ({
            let b = dir::empty_bytes(block_size, with_tail);
            let limit = dir::limit_of(block_size, with_tail);
            &&& intact(b, 0, limit)
            &&& live(b, 0, limit) == Seq::<(u32, Seq<u8>, u8)>::empty()
            &&& dir::room_from(b, 0, limit, dir::span(name.len()) as int) == Room::At(0, 0, limit)
        }),
{
    let b = dir::empty_bytes(block_size, with_tail);
    let limit = dir::limit_of(block_size, with_tail);
    lemma_span(name.len());
    let zeros = Seq::new(block_size, |i: int| 0u8);
    bytes::lemma_get_put16(zeros, 4, limit as u16);
    let first = bytes::overlay(zeros, 4, bytes::le16(limit as u16));
    assert(b[4] == first[4] && b[5] == first[5]);
    assert(b[0] == 0 && b[1] == 0 && b[2] == 0 && b[3] == 0 && b[6] == 0);
    assert(bytes::get16(b, 4) == limit);
    assert(bytes::get32(b, 0) == 0);
    assert(intact(b, limit, limit));
    assert(live(b, limit, limit) =~= Seq::empty());
    assert(live(b, 0, limit) =~= Seq::empty());
}

/// The first block of a tree, whose `..` runs to the very end of the block, has
/// its `..` found like any other, whether blocks have a checksum at their end
/// or not.
pub proof fn law_root_of_a_tree_is_repointed(block: Seq<u8>, with_tail: bool)
    requires
        block.len() >= 64,
        bytes::get16(block, 4) == 12,
        block[6] == 1,
        block[8] == 46,
        bytes::get16(block, 16) == block.len() - 12,
        block[18] == 2,
        block[20] == 46,
        block[21] == 46,
    ensures
        dir::dotdot_from(block, 0, dir::limit_of(block.len(), with_tail)) == Found::At(12, None),
{
    let limit = dir::limit_of(block.len(), with_tail);
    assert(dir::record_at(block, 0).name.len() == 1);
    assert(dir::record_at(block, 12).name =~= seq![46u8, 46]);
    assert(dir::ends_block(block, 12));
    assert(dir::dotdot_from(block, 12, limit) == Found::At(12, None));
}

/// Whether a block is the first of a directory: `.` and `..`, the second one
/// reaching to the end — or to the checksum — and nothing else.
pub open spec fn starts_a_directory(
    b: Seq<u8>,
    block_size: int,
    with_tail: bool,
    inum: u32,
    parent: u32,
    file_type: u8,
) -> bool {
    let limit = if with_tail {
        block_size - 12
    } else {
        block_size
    };
    &&& b.len() == block_size
    &&& b[0] + 256 * b[1] + 65536 * b[2] + 16777216 * b[3] == inum
    &&& b[4] == 12
    &&& b[5] == 0
    &&& b[6] == 1
    &&& b[7] == file_type
    &&& b[8] == 46
    &&& b[12] + 256 * b[13] + 65536 * b[14] + 16777216 * b[15] == parent
    &&& b[16] + 256 * b[17] == limit - 12
    &&& b[18] == 2
    &&& b[19] == file_type
    &&& b[20] == 46
    &&& b[21] == 46
    &&& forall|i: int| 9 <= i < 12 || 22 <= i < limit ==> #[trigger] b[i] == 0
    &&& with_tail ==> {
        &&& b[limit + 4] == 12
        &&& b[limit + 7] == 0xde
        &&& forall|i: int|
            limit <= i < block_size && i != limit + 4 && i != limit + 7 ==> #[trigger] b[i] == 0
    }
}

/// A directory starts with `.`, which is itself, and `..`, which is its parent,
/// and has no other name in it.
pub proof fn law_directories_start_with_their_dots(
    block_size: nat,
    with_tail: bool,
    inum: u32,
    parent: u32,
    filetype: bool,
)
    requires
        64 <= block_size,
        dir::limit_of(block_size, with_tail) <= u16::MAX,
    ensures
        starts_a_directory(
            dir::dots(block_size, with_tail, inum, parent, filetype),
            block_size as int,
            with_tail,
            inum,
            parent,
            if filetype {
                2
            } else {
                0
            },
        ),
{
    let limit = dir::limit_of(block_size, with_tail);
    let t: u8 = if filetype {
        2
    } else {
        0
    };
    let e = dir::empty_bytes(block_size, with_tail);
    let one = dir::entry_bytes(inum, seq![46u8], t, 12);
    let two = dir::entry_bytes(parent, seq![46u8, 46], t, limit - 12);
    law_entries_are_laid_out(inum, seq![46u8], t, 12);
    law_entries_are_laid_out(parent, seq![46u8, 46], t, limit - 12);
    let m = bytes::overlay(e, 0, one);
    let b = bytes::overlay(m, 12, two);
    assert(b == dir::dots(block_size, with_tail, inum, parent, filetype));
    assert forall|i: int| 0 <= i < 12 implies #[trigger] b[i] == one[i] by {
        assert(b[i] == m[i]);
    }
    assert forall|i: int| 12 <= i < limit implies #[trigger] b[i] == two[i - 12] by {}
    assert forall|i: int| limit <= i < block_size implies #[trigger] b[i]
        == dir::tail_bytes()[i - limit] by {
        assert(b[i] == m[i]);
        assert(m[i] == e[i]);
    }
}

/// An entry is the inode it names and the bytes to the next entry, low byte first,
/// the length of the name, the file type, the name, and zeroes.
pub proof fn law_entries_are_laid_out(inode: u32, name: Seq<u8>, file_type: u8, rec_len: int)
    requires
        name.len() <= 255,
        8 + name.len() <= rec_len <= u16::MAX,
    ensures
        ({
            let b = dir::entry_bytes(inode, name, file_type, rec_len);
            &&& b.len() == rec_len
            &&& b[0] + 256 * b[1] + 65536 * b[2] + 16777216 * b[3] == inode
            &&& b[4] + 256 * b[5] == rec_len
            &&& b[6] == name.len()
            &&& b[7] == file_type
            &&& forall|i: int| 0 <= i < name.len() ==> #[trigger] b[8 + i] == name[i]
            &&& b.subrange(8, 8 + name.len() as int) == name
            &&& forall|i: int| 8 + name.len() <= i < rec_len ==> #[trigger] b[i] == 0
        }),
{
    let b = dir::entry_bytes(inode, name, file_type, rec_len);
    assert(b.subrange(8, 8 + name.len() as int) =~= name);
}

/// An entry records what type of file it names: one for a regular file, two for a
/// directory, and so on to seven for a symbolic link, and none for what is no
/// type.
pub proof fn law_types_have_their_numbers(mode: u16)
    ensures
        mode & 0o170000 == 0o100000 ==> dir::type_of_mode(mode) == 1,
        mode & 0o170000 == 0o040000 ==> dir::type_of_mode(mode) == 2,
        mode & 0o170000 == 0o020000 ==> dir::type_of_mode(mode) == 3,
        mode & 0o170000 == 0o060000 ==> dir::type_of_mode(mode) == 4,
        mode & 0o170000 == 0o010000 ==> dir::type_of_mode(mode) == 5,
        mode & 0o170000 == 0o140000 ==> dir::type_of_mode(mode) == 6,
        mode & 0o170000 == 0o120000 ==> dir::type_of_mode(mode) == 7,
        ({
            let kind = mode & 0o170000;
            kind != 0o100000 && kind != 0o040000 && kind != 0o020000 && kind != 0o060000 && kind
                != 0o010000 && kind != 0o140000 && kind != 0o120000 ==> dir::type_of_mode(mode)
                == 0
        }),
{
}

/// An entry takes its eight bytes and its name, and up to three more to the next
/// multiple of four.
pub proof fn law_entries_are_aligned(name_len: nat)
    ensures
        dir::span(name_len) % 4 == 0,
        8 + name_len <= dir::span(name_len) < 8 + name_len + 4,
{
}

/// An entry as it stands in a block.
pub proof fn law_entries_are_read_as_they_stand(block: Seq<u8>, at: int)
    requires
        0 <= at,
        at + 8 <= block.len(),
        at + 8 + block[at + 6] <= block.len(),
    ensures
        ({
            let r = dir::record_at(block, at);
            &&& r.inode == block[at] + 256 * block[at + 1] + 65536 * block[at + 2] + 16777216
                * block[at + 3]
            &&& r.rec_len == block[at + 4] + 256 * block[at + 5]
            &&& r.name.len() == block[at + 6]
            &&& forall|i: int| 0 <= i < r.name.len() ==> #[trigger] r.name[i] == block[at + 8 + i]
            &&& r.file_type == block[at + 7]
        }),
{
}

/// Where there is no room, no entry has as much to spare as was asked for; where
/// there is, the entry that has it is not in use at all, or has it behind what is
/// in use.
pub proof fn law_room_is_found_where_there_is_some(block: Seq<u8>, at: int, limit: int, need: int)
    requires
        0 <= at,
        limit <= block.len(),
        intact(block, at, limit),
    ensures
        match dir::room_from(block, at, limit, need) {
            Room::At(p, u, s) => {
                &&& at <= p
                &&& p + 8 <= limit
                &&& s >= need
                &&& u + s == bytes::get16(block, p + 4)
                &&& bytes::get32(block, p) == 0 ==> u == 0
                &&& bytes::get32(block, p) != 0 ==> u == dir::span(block[p + 6] as nat)
            },
            Room::Nowhere => room_nowhere(block, at, limit, need),
            Room::Malformed => false,
        },
    decreases limit - at,
{
    if at + 8 <= limit {
        let n = bytes::get16(block, at + 4) as int;
        law_room_is_found_where_there_is_some(block, at + n, limit, need);
    }
}

/// Whether no entry of the chain from `at` on has `need` bytes to spare.
pub open spec fn room_nowhere(block: Seq<u8>, at: int, limit: int, need: int) -> bool
    decreases limit - at,
{
    if at + 8 > limit {
        true
    } else {
        let n = bytes::get16(block, at + 4) as int;
        let taken = if bytes::get32(block, at) == 0 {
            0
        } else {
            8 + (block[at + 6] + 3) / 4 * 4
        };
        0 < n <= limit - at && n - taken < need && room_nowhere(block, at + n, limit, need)
    }
}

/// Pointing a `..` elsewhere changes what it names, and nothing else of any entry.
pub proof fn law_repointing_changes_one_inode(block: Seq<u8>, limit: int, parent: u32)
    requires
        0 <= limit <= block.len(),
    ensures
        dir::dotdot_from(block, 0, limit) matches Found::At(at, _) ==> {
            let after = bytes::overlay(block, at, bytes::le32(parent));
            &&& 0 <= at
            &&& at + 8 <= limit
            &&& after.len() == block.len()
            &&& bytes::get32(after, at) == parent
            &&& dir::record_at(after, at).name == seq![46u8, 46]
            &&& forall|i: int|
                0 <= i < block.len() && !(at <= i < at + 4) ==> #[trigger] after[i] == block[i]
        },
{
    if let Found::At(at, prev) = dir::dotdot_from(block, 0, limit) {
        lemma_dotdot_here(block, 0, limit);
        let after = bytes::overlay(block, at, bytes::le32(parent));
        bytes::lemma_get_put32(block, at, parent);
        assert(after[at + 6] == block[at + 6]);
        assert(dir::record_at(after, at).name =~= dir::record_at(block, at).name);
    }
}

proof fn lemma_dotdot_here(block: Seq<u8>, from: int, limit: int)
    requires
        0 <= from,
        limit <= block.len(),
    ensures
        dir::dotdot_from(block, from, limit) matches Found::At(at, _) ==> {
            &&& from <= at
            &&& at + 8 <= limit
            &&& at + 8 + block[at + 6] <= block.len()
            &&& dir::record_at(block, at).name == seq![46u8, 46]
        },
    decreases limit - from,
{
    if from + 8 <= limit {
        let n = bytes::get16(block, from + 4) as int;
        if 0 < n <= limit - from {
            lemma_dotdot_here(block, from + n, limit);
        }
    }
}

/// The checksum at the end of a block takes twelve bytes of it.
pub proof fn law_checksum_takes_twelve_bytes(len: nat)
    ensures
        dir::limit_of(len, true) == len - 12,
        dir::limit_of(len, false) == len,
        dir::tail_bytes() == seq![0u8, 0, 0, 0, 12, 0, 0, 222, 0, 0, 0, 0],
{
}

/// A `..` is missed only where no entry of an unbroken chain has that name.
pub proof fn law_dotdot_is_found_where_it_is(block: Seq<u8>, at: int, limit: int)
    requires
        0 <= at,
        limit <= block.len(),
        intact(block, at, limit),
    ensures
        !(dir::dotdot_from(block, at, limit) is Malformed),
        dir::dotdot_from(block, at, limit) is Nowhere ==> no_dotdot(block, at, limit),
    decreases limit - at,
{
    if at + 8 <= limit {
        let n = bytes::get16(block, at + 4) as int;
        law_dotdot_is_found_where_it_is(block, at + n, limit);
    }
}

/// Whether no entry of the chain from `at` on is named `..`.
pub open spec fn no_dotdot(block: Seq<u8>, at: int, limit: int) -> bool
    decreases limit - at,
{
    if at + 8 > limit {
        true
    } else {
        let n = bytes::get16(block, at + 4) as int;
        &&& 0 < n <= limit - at
        &&& block.subrange(at + 8, at + 8 + block[at + 6] as int) != seq![46u8, 46]
        &&& no_dotdot(block, at + n, limit)
    }
}

} // verus!
