//! What an index promises: no name is lost in packing it, and the index leads
//! to the leaf that holds a name.

use vstd::prelude::*;

use crate::bytes;
use crate::dir;
use crate::index::{self, NodeView, Packing, Reach, Sorted};
use crate::sort;

verus! {

/// The names of leaves, one leaf after the other.
pub open spec fn all_names(leaves: Seq<Seq<(u32, Seq<u8>, u8)>>) -> Seq<(u32, Seq<u8>, u8)>
    decreases leaves.len(),
{
    if leaves.len() == 0 {
        Seq::empty()
    } else {
        all_names(leaves.drop_last()) + leaves.last()
    }
}

/// How many names stand in the leaves in front of leaf `k`.
pub open spec fn names_before(leaves: Seq<Seq<(u32, Seq<u8>, u8)>>, k: int) -> nat
    decreases k,
{
    if k <= 0 {
        0
    } else {
        names_before(leaves, k - 1) + leaves[k - 1].len()
    }
}

/// Bytes the entries of a leaf take.
pub open spec fn leaf_bytes(leaf: Seq<(u32, Seq<u8>, u8)>) -> int
    decreases leaf.len(),
{
    if leaf.len() == 0 {
        0
    } else {
        leaf_bytes(leaf.drop_last()) + dir::span(leaf.last().1.len())
    }
}

/// The hash of the name in front of name `j`; in front of the first stands
/// none, and no name has the hash 1.
pub open spec fn hash_before(names: Seq<(u32, u32, (u32, Seq<u8>, u8))>, j: int) -> u32 {
    if j <= 0 {
        1
    } else {
        names[j - 1].0
    }
}

/// The entries of names.
pub open spec fn entries_of(names: Seq<(u32, u32, (u32, Seq<u8>, u8))>) -> Seq<
    (u32, Seq<u8>, u8),
> {
    names.map_values(|n: (u32, u32, (u32, Seq<u8>, u8))| n.2)
}

/// What holds of leaves that carry the first `n` names.
spec fn carries(
    names: Seq<(u32, u32, (u32, Seq<u8>, u8))>,
    n: int,
    leaves: Seq<Seq<(u32, Seq<u8>, u8)>>,
    hashes: Seq<u32>,
    usable: int,
    slack: int,
) -> bool {
    &&& leaves.len() == hashes.len()
    &&& leaves.len() >= 1
    &&& all_names(leaves) == entries_of(names.take(n))
    &&& names_before(leaves, leaves.len() as int) == n
    &&& forall|k: int|
        0 <= k < leaves.len() - 1 ==> (#[trigger] leaves[k]).len() > 0
    &&& forall|k: int|
        0 <= k < leaves.len() && leaves[k].len() > 0 ==> #[trigger] hashes[k]
            == index::start_hash(
            names[names_before(leaves, k) as int].0,
            hash_before(names, names_before(leaves, k) as int),
        )
    &&& forall|k: int|
        0 <= k < leaves.len() ==> leaf_bytes(#[trigger] leaves[k]) <= usable
    &&& forall|k: int|
        0 <= k < leaves.len() && leaves[k].len() > 0 ==> leaf_bytes(
            (#[trigger] leaves[k]).drop_last(),
        ) + slack <= usable
}

proof fn lemma_before_agrees(
    a: Seq<Seq<(u32, Seq<u8>, u8)>>,
    b: Seq<Seq<(u32, Seq<u8>, u8)>>,
    k: int,
)
    requires
        0 <= k <= a.len(),
        k <= b.len(),
        forall|i: int| 0 <= i < k ==> #[trigger] a[i] == b[i],
    ensures
        names_before(a, k) == names_before(b, k),
    decreases k,
{
    if k > 0 {
        lemma_before_agrees(a, b, k - 1);
        assert(a[k - 1] == b[k - 1]);
    }
}

proof fn lemma_open(
    names: Seq<(u32, u32, (u32, Seq<u8>, u8))>,
    n: int,
    p: Packing,
    usable: int,
    slack: int,
)
    requires
        carries(names, n, p.leaves, p.hashes, usable, slack),
        p.leaves.last().len() > 0,
        usable >= 0,
    ensures
        carries(names, n, index::opened(p).leaves, index::opened(p).hashes, usable, slack),
{
    let q = index::opened(p);
    let a = p.leaves;
    let b = q.leaves;
    let l = a.len() as int;
    assert(b.drop_last() =~= a);
    assert(all_names(b) =~= all_names(a));
    assert forall|k: int| 0 <= k <= l implies names_before(a, k) == #[trigger] names_before(
        b,
        k,
    ) by {
        lemma_before_agrees(a, b, k);
    }
    assert(names_before(b, l + 1) == names_before(b, l) + b[l].len());
    assert forall|k: int| 0 <= k < b.len() implies leaf_bytes(#[trigger] b[k]) <= usable by {
        if k < l {
            assert(b[k] == a[k]);
        }
    }
    assert forall|k: int| 0 <= k < b.len() && b[k].len() > 0 implies leaf_bytes(
        (#[trigger] b[k]).drop_last(),
    ) + slack <= usable by {
        assert(b[k] == a[k]);
    }
    assert forall|k: int| 0 <= k < b.len() && b[k].len() > 0 implies #[trigger] q.hashes[k]
        == index::start_hash(
        names[names_before(b, k) as int].0,
        hash_before(names, names_before(b, k) as int),
    ) by {
        assert(q.hashes[k] == p.hashes[k]);
        assert(names_before(a, k) == names_before(b, k));
    }
}

/// Placing one name into the open leaf, which has room for it.
proof fn lemma_place(
    names: Seq<(u32, u32, (u32, Seq<u8>, u8))>,
    n: int,
    p: Packing,
    q: Packing,
    usable: int,
    slack: int,
)
    requires
        0 <= n < names.len(),
        carries(names, n, p.leaves, p.hashes, usable, slack),
        p.previous == hash_before(names, n),
        p.used == leaf_bytes(p.leaves.last()),
        usable - p.used >= slack,
        p.used + dir::span(names[n].2.1.len()) <= usable,
        q.leaves == p.leaves.update(p.leaves.len() - 1, p.leaves.last().push(names[n].2)),
        q.hashes == (if p.leaves.last().len() == 0 {
            p.hashes.update(p.leaves.len() - 1, index::start_hash(names[n].0, p.previous))
        } else {
            p.hashes
        }),
    ensures
        carries(names, n + 1, q.leaves, q.hashes, usable, slack),
        leaf_bytes(q.leaves.last()) == p.used + dir::span(names[n].2.1.len()),
{
    let a = p.leaves;
    let b = q.leaves;
    let last = a.len() - 1;
    assert(b.drop_last() =~= a.drop_last());
    assert(b.last() == a.last().push(names[n].2));
    assert(b.last().drop_last() =~= a.last());
    assert(all_names(b) =~= all_names(a).push(names[n].2));
    assert(entries_of(names.take(n + 1)) =~= entries_of(names.take(n)).push(names[n].2));
    assert forall|k: int| 0 <= k <= last implies names_before(a, k) == #[trigger] names_before(
        b,
        k,
    ) by {
        lemma_before_agrees(a, b, k);
    }
    assert(names_before(b, last + 1) == names_before(b, last) + b[last].len());
    assert(names_before(a, last + 1) == names_before(a, last) + a[last].len());
    assert forall|k: int| 0 <= k < b.len() implies leaf_bytes(#[trigger] b[k]) <= usable by {
        if k < last {
            assert(b[k] == a[k]);
        }
    }
    assert forall|k: int| 0 <= k < b.len() && b[k].len() > 0 implies leaf_bytes(
        (#[trigger] b[k]).drop_last(),
    ) + slack <= usable by {
        if k < last {
            assert(b[k] == a[k]);
        }
    }
    assert forall|k: int| 0 <= k < b.len() - 1 implies (#[trigger] b[k]).len() > 0 by {
        assert(b[k] == a[k]);
    }
    assert forall|k: int| 0 <= k < b.len() && b[k].len() > 0 implies #[trigger] q.hashes[k]
        == index::start_hash(
        names[names_before(b, k) as int].0,
        hash_before(names, names_before(b, k) as int),
    ) by {
        assert(names_before(a, k) == names_before(b, k));
        if k < last {
            assert(b[k] == a[k]);
            assert(q.hashes[k] == p.hashes[k]);
        } else if a.last().len() > 0 {
            assert(a[last].len() > 0);
            assert(q.hashes[last] == p.hashes[last]);
        }
    }
}

proof fn lemma_packed_upto(
    names: Seq<(u32, u32, (u32, Seq<u8>, u8))>,
    n: int,
    usable: int,
    slack: int,
)
    requires
        0 <= n <= names.len(),
        !index::too_long(names, usable),
        0 <= slack <= usable,
    ensures
        ({
            let p = index::packed_upto(names, n, usable, slack);
            &&& carries(names, n, p.leaves, p.hashes, usable, slack)
            &&& p.previous == hash_before(names, n)
            &&& p.used == leaf_bytes(p.leaves.last())
            &&& usable - p.used >= slack
        }),
    decreases n,
{
    if n == 0 {
        let p = index::nothing_packed();
        assert(p.leaves.drop_last() =~= Seq::empty());
        reveal_with_fuel(all_names, 2);
        assert(all_names(p.leaves) =~= Seq::empty());
        assert(entries_of(names.take(0)) =~= Seq::empty());
        assert(names_before(p.leaves, 0) == 0);
        assert(names_before(p.leaves, 1) == 0);
    } else {
        lemma_packed_upto(names, n - 1, usable, slack);
        let p = index::packed_upto(names, n - 1, usable, slack);
        let name = names[n - 1];
        let need = dir::span(name.2.1.len()) as int;
        assert(need <= usable);
        let p1 = if p.used + need > usable && p.leaves.last().len() > 0 {
            index::opened(p)
        } else {
            p
        };
        if p.used + need > usable && p.leaves.last().len() > 0 {
            lemma_open(names, n - 1, p, usable, slack);
            assert(p1.leaves.last() =~= Seq::empty());
        }
        let last = p1.leaves.len() - 1;
        let p2 = Packing {
            leaves: p1.leaves.update(last, p1.leaves.last().push(name.2)),
            hashes: if p1.leaves.last().len() == 0 {
                p1.hashes.update(last, index::start_hash(name.0, p1.previous))
            } else {
                p1.hashes
            },
            used: p1.used + need,
            previous: name.0,
        };
        lemma_place(names, n - 1, p1, p2, usable, slack);
        if usable - p2.used < slack {
            lemma_open(names, n, p2, usable, slack);
            assert(index::opened(p2).leaves.last() =~= Seq::empty());
        }
    }
}

proof fn lemma_packed(
    names: Seq<(u32, u32, (u32, Seq<u8>, u8))>,
    block_size: nat,
    with_tail: bool,
)
    requires
        !index::too_long(names, index::usable_bytes(block_size, with_tail)),
        index::usable_bytes(block_size, with_tail) >= 12,
    ensures
        ({
            let usable = index::usable_bytes(block_size, with_tail);
            let (leaves, hashes) = index::packed(names, block_size, with_tail);
            &&& carries(
                names,
                names.len() as int,
                leaves,
                hashes,
                usable,
                index::slack_bytes(usable),
            )
            &&& names.len() > 0 ==> leaves.last().len() > 0
        }),
{
    let usable = index::usable_bytes(block_size, with_tail);
    let slack = index::slack_bytes(usable);
    let n = names.len() as int;
    lemma_packed_upto(names, n, usable, slack);
    let p = index::packed_upto(names, n, usable, slack);
    if p.leaves.len() > 1 && p.leaves.last().len() == 0 {
        let a = p.leaves;
        let b = a.drop_last();
        let h = p.hashes.drop_last();
        assert(all_names(a) =~= all_names(b));
        assert forall|k: int| 0 <= k <= b.len() implies names_before(a, k)
            == #[trigger] names_before(b, k) by {
            lemma_before_agrees(a, b, k);
        }
        assert(names_before(a, a.len() as int) == names_before(a, b.len() as int)
            + a[a.len() - 1].len());
        assert forall|k: int| 0 <= k < b.len() implies (#[trigger] b[k]).len() > 0 by {
            assert(b[k] == a[k]);
        }
        assert forall|k: int| 0 <= k < b.len() && b[k].len() > 0 implies #[trigger] h[k]
            == index::start_hash(
            names[names_before(b, k) as int].0,
            hash_before(names, names_before(b, k) as int),
        ) by {
            assert(h[k] == p.hashes[k]);
            assert(a[k] == b[k]);
            assert(names_before(a, k) == names_before(b, k));
        }
    } else if p.leaves.len() == 1 && n > 0 {
        assert(p.leaves.drop_last() =~= Seq::empty());
        reveal_with_fuel(all_names, 2);
        assert(all_names(p.leaves) =~= p.leaves.last());
        assert(entries_of(names.take(n)).len() == n);
    }
}

/// Packing keeps every name, in order, and nothing else.
pub proof fn law_packing_keeps_every_name(
    names: Seq<(u32, u32, (u32, Seq<u8>, u8))>,
    block_size: nat,
    with_tail: bool,
)
    requires
        !index::too_long(names, index::usable_bytes(block_size, with_tail)),
        index::usable_bytes(block_size, with_tail) >= 12,
    ensures
        all_names(index::packed(names, block_size, with_tail).0) == entries_of(names),
        index::packed(names, block_size, with_tail).0.len() == index::packed(
            names,
            block_size,
            with_tail,
        ).1.len(),
{
    lemma_packed(names, block_size, with_tail);
    assert(names.take(names.len() as int) =~= names);
}

/// Every leaf fits its block, and was not added to once less than the slack
/// was free. Only a directory without names has a leaf without names.
pub proof fn law_leaves_fit_and_keep_room(
    names: Seq<(u32, u32, (u32, Seq<u8>, u8))>,
    block_size: nat,
    with_tail: bool,
    k: int,
)
    requires
        !index::too_long(names, index::usable_bytes(block_size, with_tail)),
        index::usable_bytes(block_size, with_tail) >= 12,
        0 <= k < index::packed(names, block_size, with_tail).0.len(),
    ensures
        ({
            let usable = index::usable_bytes(block_size, with_tail);
            let leaf = index::packed(names, block_size, with_tail).0[k];
            &&& leaf_bytes(leaf) <= usable
            &&& leaf.len() > 0 ==> leaf_bytes(leaf.drop_last()) + index::slack_bytes(usable)
                <= usable
            &&& leaf.len() == 0 <==> names.len() == 0
        }),
{
    lemma_packed(names, block_size, with_tail);
    let (leaves, hashes) = index::packed(names, block_size, with_tail);
    assert(leaf_bytes(leaves[k]) <= index::usable_bytes(block_size, with_tail));
    if leaves[k].len() > 0 {
        lemma_before_grows(leaves, k + 1, leaves.len() as int);
    }
}

proof fn lemma_before_grows(leaves: Seq<Seq<(u32, Seq<u8>, u8)>>, a: int, b: int)
    requires
        0 <= a <= b,
    ensures
        names_before(leaves, a) <= names_before(leaves, b),
    decreases b - a,
{
    if a < b {
        lemma_before_grows(leaves, a, b - 1);
    }
}

/// Whether names are in the order of their hashes, none of which uses the low
/// bit.
pub open spec fn by_hash(names: Seq<(u32, u32, (u32, Seq<u8>, u8))>) -> bool {
    &&& forall|i: int, j: int|
        #![trigger names[i], names[j]]
        0 <= i <= j < names.len() ==> names[i].0 <= names[j].0
    &&& forall|i: int| 0 <= i < names.len() ==> #[trigger] names[i].0 & 1 == 0
}

/// A leaf's hash says whether the leaf continues a run of equal hashes from
/// the leaf before: then, and only then, its low bit is set.
pub proof fn law_continuation_is_marked(
    names: Seq<(u32, u32, (u32, Seq<u8>, u8))>,
    block_size: nat,
    with_tail: bool,
    k: int,
)
    requires
        by_hash(names),
        names.len() > 0,
        !index::too_long(names, index::usable_bytes(block_size, with_tail)),
        index::usable_bytes(block_size, with_tail) >= 12,
        0 <= k < index::packed(names, block_size, with_tail).0.len(),
    ensures
        ({
            let (leaves, hashes) = index::packed(names, block_size, with_tail);
            let first = names_before(leaves, k) as int;
            &&& first < names.len()
            &&& leaves[k][0] == names[first].2
            &&& hashes[k] & 1 != 0 <==> first > 0 && names[first - 1].0 == names[first].0
            &&& hashes[k] == names[first].0 + (if hashes[k] & 1 != 0 {
                1int
            } else {
                0int
            })
        }),
{
    lemma_packed(names, block_size, with_tail);
    law_leaves_fit_and_keep_room(names, block_size, with_tail, k);
    let (leaves, hashes) = index::packed(names, block_size, with_tail);
    lemma_place_of(names, block_size, with_tail, k, 0);
    let first = names_before(leaves, k) as int;
    let f = names[first].0;
    assert(hashes[k] == index::start_hash(f, hash_before(names, first)));
    assert(f & 1 == 0 ==> (f | 1) & 1 != 0 && f != 1 && (f | 1) == f + 1) by (bit_vector);
}

/// Name `m` of leaf `k` is the one that as many names precede.
proof fn lemma_place_of(
    names: Seq<(u32, u32, (u32, Seq<u8>, u8))>,
    block_size: nat,
    with_tail: bool,
    k: int,
    m: int,
)
    requires
        !index::too_long(names, index::usable_bytes(block_size, with_tail)),
        index::usable_bytes(block_size, with_tail) >= 12,
        0 <= k < index::packed(names, block_size, with_tail).0.len(),
        0 <= m < index::packed(names, block_size, with_tail).0[k].len(),
    ensures
        ({
            let leaves = index::packed(names, block_size, with_tail).0;
            let j = names_before(leaves, k) + m;
            &&& 0 <= j < names.len()
            &&& leaves[k][m] == names[j].2
        }),
{
    lemma_packed(names, block_size, with_tail);
    let leaves = index::packed(names, block_size, with_tail).0;
    assert(names.take(names.len() as int) =~= names);
    lemma_all_names_at(leaves, k, m);
    lemma_before_grows(leaves, k + 1, leaves.len() as int);
    let j = names_before(leaves, k) + m;
    assert(entries_of(names)[j] == names[j].2);
}

proof fn lemma_all_names_at(leaves: Seq<Seq<(u32, Seq<u8>, u8)>>, k: int, m: int)
    requires
        0 <= k < leaves.len(),
        0 <= m < leaves[k].len(),
    ensures
        all_names(leaves).len() == names_before(leaves, leaves.len() as int),
        names_before(leaves, k) + m < all_names(leaves).len(),
        all_names(leaves)[names_before(leaves, k) + m] == leaves[k][m],
    decreases leaves.len(),
{
    let front = leaves.drop_last();
    let n = leaves.len() as int;
    lemma_all_len(front);
    lemma_all_len(leaves);
    lemma_before_agrees(front, leaves, n - 1);
    lemma_before_agrees(front, leaves, if k < n - 1 {
        k
    } else {
        n - 1
    });
    if k < n - 1 {
        assert(front[k] == leaves[k]);
        lemma_all_names_at(front, k, m);
    }
}

proof fn lemma_all_len(leaves: Seq<Seq<(u32, Seq<u8>, u8)>>)
    ensures
        all_names(leaves).len() == names_before(leaves, leaves.len() as int),
    decreases leaves.len(),
{
    if leaves.len() > 0 {
        let front = leaves.drop_last();
        lemma_all_len(front);
        lemma_before_agrees(front, leaves, leaves.len() - 1);
    }
}

/// The entry chosen is not above the hash, and those after it are.
proof fn lemma_entry_for(entries: Seq<(u32, u32)>, hash: u32, n: int)
    requires
        1 <= n <= entries.len(),
    ensures
        ({
            let at = index::entry_for(entries, hash, n);
            &&& 0 <= at < n
            &&& at == 0 || entries[at].0 <= hash
            &&& forall|k: int| at < k < n ==> (#[trigger] entries[k]).0 > hash
        }),
    decreases n,
{
    if n > 1 && entries[n - 1].0 > hash {
        lemma_entry_for(entries, hash, n - 1);
    }
}

/// A run reaches as far as the entries say that they continue it.
proof fn lemma_run_reaches(entries: Seq<(u32, u32)>, at: int, i: int)
    requires
        0 <= at <= i < entries.len(),
        forall|k: int| at < k <= i ==> (#[trigger] entries[k]).0 & 1 != 0,
    ensures
        index::run_from(entries, at).contains(entries[i].1 as u64),
    decreases i - at,
{
    let run = index::run_from(entries, at);
    if at == i {
        assert(run[0] == entries[i].1 as u64);
    } else {
        assert(entries[at + 1].0 & 1 != 0);
        lemma_run_reaches(entries, at + 1, i);
        let rest = index::run_from(entries, at + 1);
        let j = choose|j: int| 0 <= j < rest.len() && rest[j] == entries[i].1 as u64;
        assert(run[j + 1] == rest[j]);
    }
}

/// Among the entries of an index block over leaves `first` to `last`, the run
/// of a name's hash holds the name's leaf.
proof fn lemma_leaf_is_in_run(
    names: Seq<(u32, u32, (u32, Seq<u8>, u8))>,
    block_size: nat,
    with_tail: bool,
    first: int,
    last: int,
    i: int,
    m: int,
)
    requires
        by_hash(names),
        !index::too_long(names, index::usable_bytes(block_size, with_tail)),
        index::usable_bytes(block_size, with_tail) >= 12,
        0 <= first <= i < last <= index::packed(names, block_size, with_tail).0.len(),
        0 <= m < index::packed(names, block_size, with_tail).0[i].len(),
    ensures
        ({
            let (leaves, hashes) = index::packed(names, block_size, with_tail);
            let entries = index::leaf_entries(hashes, first, last);
            let hash = names[names_before(leaves, i) + m].0;
            index::run_from(
                entries,
                index::entry_for(entries, hash, entries.len() as int),
            ).contains((1 + i) as u32 as u64)
        }),
{
    let (leaves, hashes) = index::packed(names, block_size, with_tail);
    let entries = index::leaf_entries(hashes, first, last);
    let j = names_before(leaves, i) + m;
    let hash = names[j].0;
    let n = entries.len() as int;
    lemma_place_of(names, block_size, with_tail, i, m);
    lemma_entry_for(entries, hash, n);
    let at = index::entry_for(entries, hash, n);
    // A leaf behind the name's own that starts at its hash continues the run,
    // and its entry says so: it is above the hash.
    if at > i - first {
        let k = first + at;
        law_continuation_is_marked(names, block_size, with_tail, k);
        lemma_before_grows(leaves, i + 1, k);
        let b = names_before(leaves, k) as int;
        assert(j < b);
        assert(names[j].0 <= names[b].0);
        assert(names[j].0 <= names[b - 1].0 <= names[b].0);
        assert(false);
    }
    assert forall|k: int| at < k <= i - first implies (#[trigger] entries[k]).0 & 1 != 0 by {
        law_continuation_is_marked(names, block_size, with_tail, first + k);
        lemma_before_grows(leaves, first + k, i);
        let b = names_before(leaves, first + k) as int;
        assert(names[b].0 <= names[j].0);
        assert(entries[k].0 == hashes[first + k]);
    }
    lemma_run_reaches(entries, at, i - first);
}

/// A root that points straight at the leaves leads to every name: the leaves
/// that a name's hash gives hold the leaf that the name was packed into.
pub proof fn law_flat_index_finds_every_name(
    names: Seq<(u32, u32, (u32, Seq<u8>, u8))>,
    block_size: nat,
    with_tail: bool,
    i: int,
    m: int,
)
    requires
        by_hash(names),
        !index::too_long(names, index::usable_bytes(block_size, with_tail)),
        index::usable_bytes(block_size, with_tail) >= 12,
        0 <= i < index::packed(names, block_size, with_tail).0.len(),
        0 <= m < index::packed(names, block_size, with_tail).0[i].len(),
    ensures
        ({
            let (leaves, hashes) = index::packed(names, block_size, with_tail);
            let root = index::leaf_entries(hashes, 0, leaves.len() as int);
            let j = names_before(leaves, i) + m;
            &&& leaves[i][m] == names[j].2
            &&& index::run_from(
                root,
                index::entry_for(root, names[j].0, root.len() as int),
            ).contains((1 + i) as u32 as u64)
        }),
{
    lemma_place_of(names, block_size, with_tail, i, m);
    let leaves = index::packed(names, block_size, with_tail).0;
    lemma_leaf_is_in_run(names, block_size, with_tail, 0, leaves.len() as int, i, m);
}

/// A run that is said to go on is as long as that.
proof fn lemma_run_len(entries: Seq<(u32, u32)>, at: int, n: int)
    requires
        0 <= at < n <= entries.len(),
        forall|k: int| at < k < n ==> (#[trigger] entries[k]).0 & 1 != 0,
    ensures
        index::run_from(entries, at).len() >= n - at,
        index::run_from(entries, at).len() <= entries.len() - at,
        forall|k: int|
            at <= k < n ==> index::run_from(entries, at)[k - at] == (#[trigger] entries[k]).1 as u64,
    decreases entries.len() - at,
{
    let run = index::run_from(entries, at);
    if at + 1 < entries.len() && entries[at + 1].0 & 1 != 0 {
        let rest = index::run_from(entries, at + 1);
        if at + 1 < n {
            lemma_run_len(entries, at + 1, n);
        } else {
            lemma_run_len(entries, at + 1, at + 2);
        }
        assert forall|k: int| at <= k < n implies run[k - at] == (#[trigger] entries[k]).1
            as u64 by {
            if k > at {
                assert(run[k - at] == rest[k - at - 1]);
            }
        }
    } else if n > at + 1 {
        assert(entries[at + 1].0 & 1 != 0);
    }
}

/// Whether nodes are all there.
pub open spec fn all_there(nodes: Seq<NodeView>) -> bool {
    forall|n: int| 0 <= n < nodes.len() ==> (#[trigger] nodes[n]) is Entries
}

/// Nodes that are all there lead to leaves.
proof fn lemma_reach_is_leaves(nodes: Seq<NodeView>, at: int)
    requires
        all_there(nodes),
    ensures
        index::reach(nodes, at) is Leaves,
    decreases nodes.len(),
{
    if nodes.len() > 0 {
        assert(nodes[0] is Entries);
        let rest = nodes.skip(1);
        assert forall|n: int| 0 <= n < rest.len() implies (#[trigger] rest[n]) is Entries by {
            assert(rest[n] == nodes[n + 1]);
        }
        lemma_reach_is_leaves(rest, 0);
    }
}

/// Whether entry `q` of node `n` is said to go on with a run that starts at
/// entry `at` of the first node.
pub open spec fn goes_on(nodes: Seq<NodeView>, at: int, n: int, q: int) -> bool {
    (if n == 0 {
        q <= at
    } else {
        q < 1
    }) || nodes[n]->Entries_0[q].0 & 1 != 0
}

/// A run reaches every entry up to which it goes on, in whatever node.
proof fn lemma_reach_goes_on(nodes: Seq<NodeView>, at: int, t: int, k: int)
    requires
        all_there(nodes),
        0 <= t < nodes.len(),
        0 <= at < nodes[0]->Entries_0.len(),
        t == 0 ==> at <= k,
        0 <= k < nodes[t]->Entries_0.len(),
        forall|n: int| 0 <= n <= t ==> (#[trigger] nodes[n])->Entries_0.len() > 0,
        forall|n: int, q: int|
            0 <= n <= t && 0 <= q < nodes[n]->Entries_0.len() && (n == t ==> q <= k)
                ==> #[trigger] goes_on(nodes, at, n, q),
    ensures
        index::reach(nodes, at) matches Reach::Leaves(run) && run.contains(
            nodes[t]->Entries_0[k].1 as u64,
        ),
    decreases t,
{
    lemma_reach_is_leaves(nodes, at);
    assert(nodes[0] is Entries && nodes[0]->Entries_0.len() > 0);
    let entries = nodes[0]->Entries_0;
    let run = index::run_from(entries, at);
    let rest = nodes.skip(1);
    assert forall|n: int| 0 <= n < rest.len() implies (#[trigger] rest[n]) is Entries by {
        assert(rest[n] == nodes[n + 1]);
    }
    lemma_reach_is_leaves(rest, 0);
    let more = index::reach(rest, 0)->Leaves_0;
    let found = nodes[t]->Entries_0[k].1 as u64;
    if t == 0 {
        assert forall|q: int| at < q < k + 1 implies (#[trigger] entries[q]).0 & 1 != 0 by {
            assert(goes_on(nodes, at, 0, q));
        }
        lemma_run_len(entries, at, k + 1);
        assert(entries[k].1 as u64 == run[k - at]);
        assert((run + more)[k - at] == found);
    } else {
        let len = entries.len() as int;
        assert forall|q: int| at < q < len implies (#[trigger] entries[q]).0 & 1 != 0 by {
            assert(goes_on(nodes, at, 0, q));
        }
        lemma_run_len(entries, at, len);
        assert(nodes[t] == rest[t - 1]);
        assert(rest[0] == nodes[1]);
        assert(nodes[1]->Entries_0.len() > 0);
        assert forall|n: int| 0 <= n <= t - 1 implies (#[trigger] rest[n])->Entries_0.len()
            > 0 by {
            assert(rest[n] == nodes[n + 1]);
        }
        assert forall|n: int, q: int|
            0 <= n <= t - 1 && 0 <= q < rest[n]->Entries_0.len() && (n == t - 1 ==> q
                <= k) implies #[trigger] goes_on(rest, 0, n, q) by {
            assert(rest[n] == nodes[n + 1]);
            assert(goes_on(nodes, at, n + 1, q));
        }
        lemma_reach_goes_on(rest, 0, t - 1, k);
        let x = choose|x: int| 0 <= x < more.len() && more[x] == found;
        assert((run + more)[run.len() + x] == found);
    }
}

/// The entries of the interior nodes that a root leads to from `node` on, as
/// many as it says.
pub open spec fn nodes_from(
    hashes: Seq<u32>,
    count: int,
    per_node: int,
    node: int,
    many: nat,
) -> Seq<NodeView> {
    Seq::new(
        many,
        |t: int|
            NodeView::Entries(
                index::leaf_entries(
                    hashes,
                    (node + t) * per_node,
                    index::node_end(node + t, per_node, count),
                ),
            ),
    )
}

/// Leaf `k` starts in the middle of the names with some hash, if a name with
/// it stands in a leaf no further and the leaf's own hash is above it; and so
/// do those between it and the name.
proof fn lemma_run_is_marked(
    names: Seq<(u32, u32, (u32, Seq<u8>, u8))>,
    block_size: nat,
    with_tail: bool,
    k: int,
    l: int,
    i: int,
    m: int,
)
    requires
        by_hash(names),
        !index::too_long(names, index::usable_bytes(block_size, with_tail)),
        index::usable_bytes(block_size, with_tail) >= 12,
        0 <= k <= l <= i < index::packed(names, block_size, with_tail).0.len(),
        0 <= m < index::packed(names, block_size, with_tail).0[i].len(),
        ({
            let (leaves, hashes) = index::packed(names, block_size, with_tail);
            hashes[k] > names[names_before(leaves, i) + m].0
        }),
    ensures
        index::packed(names, block_size, with_tail).1[l] & 1 != 0,
{
    let (leaves, hashes) = index::packed(names, block_size, with_tail);
    let j = names_before(leaves, i) + m;
    lemma_place_of(names, block_size, with_tail, i, m);
    law_continuation_is_marked(names, block_size, with_tail, k);
    law_continuation_is_marked(names, block_size, with_tail, l);
    lemma_before_grows(leaves, k, l);
    lemma_before_grows(leaves, l, i);
    let a = names_before(leaves, k) as int;
    let b = names_before(leaves, l) as int;
    assert(names[a].0 <= names[b].0 <= names[j].0);
    assert(names[a].0 == names[j].0);
    if k < l {
        law_leaves_fit_and_keep_room(names, block_size, with_tail, k);
        lemma_before_grows(leaves, k + 1, l);
        assert(a < b);
        assert(names[a].0 <= names[b - 1].0 <= names[b].0);
    }
}

/// A root over interior nodes leads to every name: following the run of a
/// name's hash from the node that the root gives, and on under the next while
/// it lasts, comes to the leaf that the name was packed into.
pub proof fn law_deep_index_finds_every_name(
    names: Seq<(u32, u32, (u32, Seq<u8>, u8))>,
    block_size: nat,
    with_tail: bool,
    per_node: int,
    i: int,
    m: int,
)
    requires
        by_hash(names),
        !index::too_long(names, index::usable_bytes(block_size, with_tail)),
        index::usable_bytes(block_size, with_tail) >= 12,
        per_node >= 1,
        0 <= i < index::packed(names, block_size, with_tail).0.len(),
        0 <= m < index::packed(names, block_size, with_tail).0[i].len(),
    ensures
        ({
            let (leaves, hashes) = index::packed(names, block_size, with_tail);
            let count = leaves.len() as int;
            let nodes = index::nodes_needed(count as nat, per_node as nat) as int;
            let root = index::node_entries(hashes, count, nodes, per_node);
            let j = names_before(leaves, i) + m;
            let node = index::entry_for(root, names[j].0, nodes);
            let asked = index::run_from(root, node);
            let looked = nodes_from(hashes, count, per_node, node, asked.len());
            &&& leaves[i][m] == names[j].2
            &&& 0 <= node < nodes
            &&& 0 < asked.len() <= nodes - node
            &&& forall|t: int|
                0 <= t < asked.len() ==> #[trigger] asked[t] == (1 + count + node + t) as u32 as u64
            &&& index::reach(looked, index::entry_in(looked[0], names[j].0)) matches Reach::Leaves(
                run,
            )
            &&& run.contains((1 + i) as u32 as u64)
        }),
{
    let (leaves, hashes) = index::packed(names, block_size, with_tail);
    let count = leaves.len() as int;
    let nodes = index::nodes_needed(count as nat, per_node as nat) as int;
    let root = index::node_entries(hashes, count, nodes, per_node);
    let j = names_before(leaves, i) + m;
    let hash = names[j].0;
    lemma_place_of(names, block_size, with_tail, i, m);
    lemma_nodes(count, per_node);
    lemma_entry_for(root, hash, nodes);
    let node = index::entry_for(root, hash, nodes);
    let mine = i / per_node;
    lemma_node_of(i, count, per_node);
    assert(root[node].0 == (if node == 0 {
        0u32
    } else {
        hashes[node * per_node]
    }));
    if node > mine {
        let k = node * per_node;
        lemma_node_start(node, count, per_node);
        lemma_steps(mine + 1, node, per_node);
        law_continuation_is_marked(names, block_size, with_tail, k);
        lemma_before_grows(leaves, i + 1, k);
        let b = names_before(leaves, k) as int;
        assert(names[j].0 <= names[b - 1].0 <= names[b].0);
        assert(false);
    }
    // Every node behind the one chosen, up to the name's own, goes on with the
    // run, and the root says so.
    assert forall|t: int| node < t < mine + 1 implies (#[trigger] root[t]).0 & 1 != 0 by {
        lemma_steps(t, mine, per_node);
        lemma_steps(0, t, per_node);
        assert(root[t].0 == hashes[t * per_node]);
        lemma_run_is_marked(
            names,
            block_size,
            with_tail,
            t * per_node,
            t * per_node,
            i,
            m,
        );
    }
    lemma_run_len(root, node, mine + 1);
    let asked = index::run_from(root, node);
    lemma_run_blocks(hashes, count, nodes, per_node, node);
    let looked = nodes_from(hashes, count, per_node, node, asked.len());
    lemma_node_start(node, count, per_node);
    let first = index::leaf_entries(
        hashes,
        node * per_node,
        index::node_end(node, per_node, count),
    );
    assert(looked[0] == NodeView::Entries(first)) by {
        assert((node + 0) * per_node == node * per_node);
    }
    lemma_node_holds(node, count, per_node);
    let at = index::entry_for(first, hash, first.len() as int);
    lemma_entry_for(first, hash, first.len() as int);
    let t = mine - node;
    let k = i - mine * per_node;
    assert(all_there(looked));
    assert forall|n: int| 0 <= n <= t implies (#[trigger] looked[n])->Entries_0.len() > 0 by {
        lemma_node_holds(node + n, count, per_node);
    }
    lemma_node_holds(mine, count, per_node);
    assert(looked[t]->Entries_0.len() == index::node_end(mine, per_node, count) - mine * per_node);
    assert(k < looked[t]->Entries_0.len());
    if t == 0 && at > k {
        let l = node * per_node + at;
        assert(first[at].0 == hashes[l]);
        law_continuation_is_marked(names, block_size, with_tail, l);
        lemma_before_grows(leaves, i + 1, l);
        let b = names_before(leaves, l) as int;
        assert(names[j].0 <= names[b - 1].0 <= names[b].0);
        assert(false);
    }
    assert forall|n: int, q: int|
        0 <= n <= t && 0 <= q < looked[n]->Entries_0.len() && (n == t ==> q
            <= k) implies #[trigger] goes_on(looked, at, n, q) by {
        let start = (node + n) * per_node;
        lemma_node_holds(node + n, count, per_node);
        lemma_node_before(node + n, mine, per_node, count);
        let l = start + q;
        assert(l <= i);
        let list = looked[n]->Entries_0;
        assert(q > 0 ==> list[q].0 == hashes[l]);
        if n == 0 && q > at {
            assert(first[q].0 > hash);
            lemma_run_is_marked(names, block_size, with_tail, l, l, i, m);
        } else if n > 0 && q >= 1 {
            assert(root[node + n].0 == hashes[start]);
            assert(root[node + n].0 > hash);
            lemma_run_is_marked(names, block_size, with_tail, start, l, i, m);
        }
    }
    lemma_reach_goes_on(looked, at, t, k);
    assert(looked[t]->Entries_0[k].1 == (1 + i) as u32);
}

/// What a node covers is not nothing, and within the leaves.
proof fn lemma_node_holds(node: int, count: int, per_node: int)
    requires
        0 <= node < index::nodes_needed(count as nat, per_node as nat),
        count >= 1,
        per_node >= 1,
    ensures
        0 <= node * per_node < index::node_end(node, per_node, count) <= count,
{
    lemma_node_start(node, count, per_node);
    assert((node + 1) * per_node == node * per_node + per_node) by (nonlinear_arith);
}

/// A node in front of another ends where that one starts, or before.
proof fn lemma_node_before(node: int, other: int, per_node: int, count: int)
    requires
        node <= other,
        per_node >= 1,
    ensures
        node < other ==> index::node_end(node, per_node, count) <= other * per_node,
        node * per_node <= other * per_node,
{
    lemma_steps(node, other, per_node);
    if node < other {
        lemma_steps(node + 1, other, per_node);
    }
}

/// A run of nodes is made of nodes one behind the other.
proof fn lemma_run_blocks(hashes: Seq<u32>, count: int, nodes: int, per_node: int, at: int)
    requires
        0 <= at < nodes,
    ensures
        ({
            let root = index::node_entries(hashes, count, nodes, per_node);
            let run = index::run_from(root, at);
            &&& 0 < run.len() <= nodes - at
            &&& forall|t: int|
                0 <= t < run.len() ==> #[trigger] run[t] == (1 + count + at + t) as u32 as u64
        }),
    decreases nodes - at,
{
    let root = index::node_entries(hashes, count, nodes, per_node);
    let run = index::run_from(root, at);
    if at + 1 < nodes && root[at + 1].0 & 1 != 0 {
        lemma_run_blocks(hashes, count, nodes, per_node, at + 1);
        let rest = index::run_from(root, at + 1);
        assert forall|t: int| 0 <= t < run.len() implies #[trigger] run[t] == (1 + count + at + t)
            as u32 as u64 by {
            if t > 0 {
                assert(run[t] == rest[t - 1]);
            }
        }
    }
}

proof fn lemma_steps(a: int, b: int, per_node: int)
    by (nonlinear_arith)
    requires
        a <= b,
        per_node >= 1,
    ensures
        a * per_node <= b * per_node,
{
}

proof fn lemma_nodes(count: int, per_node: int)
    by (nonlinear_arith)
    requires
        count >= 1,
        per_node >= 1,
    ensures
        1 <= (count + per_node - 1) / per_node,
        ((count + per_node - 1) / per_node - 1) * per_node < count,
        count <= ((count + per_node - 1) / per_node) * per_node,
{
}

proof fn lemma_node_start(node: int, count: int, per_node: int)
    requires
        0 <= node < index::nodes_needed(count as nat, per_node as nat),
        count >= 1,
        per_node >= 1,
    ensures
        0 <= node * per_node < count,
{
    lemma_nodes(count, per_node);
    lemma_steps(node, (count + per_node - 1) / per_node - 1, per_node);
    lemma_steps(0, node, per_node);
}

proof fn lemma_node_of(i: int, count: int, per_node: int)
    requires
        0 <= i < count,
        per_node >= 1,
    ensures
        0 <= i / per_node < index::nodes_needed(count as nat, per_node as nat),
        i / per_node * per_node <= i < (i / per_node + 1) * per_node,
{
    lemma_nodes(count, per_node);
    let n = (count + per_node - 1) / per_node;
    assert(i / per_node * per_node <= i < (i / per_node + 1) * per_node && 0 <= i / per_node)
        by (nonlinear_arith)
        requires
            0 <= i,
            per_node >= 1,
    ;
    if i / per_node >= n {
        lemma_steps(n, i / per_node, per_node);
    }
}

/// The plan of an index leaves no leaf out, and asks no index block to hold
/// more than it can.
pub proof fn law_plan_covers_the_leaves(leaves: nat, block_size: nat, with_tail: bool)
    requires
        64 <= block_size,
    ensures
        ({
            let root = index::index_limit(block_size, 32, with_tail);
            let node = index::index_limit(block_size, 8, with_tail);
            let nodes = index::nodes_needed(leaves, node);
            &&& leaves <= nodes * node
            &&& leaves > 0 ==> (nodes - 1) * node < leaves
            &&& leaves > root * node <==> nodes > root
        }),
{
    let root = index::index_limit(block_size, 32, with_tail);
    let node = index::index_limit(block_size, 8, with_tail);
    let n = leaves as int;
    let d = node as int;
    let r = root as int;
    if leaves > 0 {
        lemma_nodes(n, d);
        let k = (n + d - 1) / d;
        if k > r {
            lemma_steps(r, k - 1, d);
        } else {
            lemma_steps(k, r, d);
        }
    } else {
        assert((d - 1) / d == 0) by (nonlinear_arith)
            requires
                d >= 1,
        ;
        assert(r * d >= 0) by (nonlinear_arith)
            requires
                d >= 1,
                r >= 0,
        ;
    }
}

/// A rebuild of the same directory always lays out the same way: names in hash
/// order have one order only, however they were gathered.
pub proof fn law_hash_order_is_unique(a: Seq<Sorted>, b: Seq<Sorted>)
    requires
        sort::ordered(a),
        sort::ordered(b),
        a.to_multiset() == b.to_multiset(),
        forall|i: int, j: int|
            #![trigger a[i], a[j]]
            0 <= i < j < a.len() ==> a[i].entry.name@ != a[j].entry.name@,
    ensures
        a == b,
    decreases a.len(),
{
    broadcast use vstd::seq_lib::group_to_multiset_ensures;

    assert(a.len() == a.to_multiset().len() && b.len() == b.to_multiset().len());
    if a.len() > 0 {
        assert(b.to_multiset().count(a[0]) > 0);
        assert(a.to_multiset().count(b[0]) > 0);
        assert(b.contains(a[0]) && a.contains(b[0]));
        let j = choose|j: int| 0 <= j < b.len() && b[j] == a[0];
        let k = choose|k: int| 0 <= k < a.len() && a[k] == b[0];
        assert(index::in_hash_order(b[0]@, b[j]@) || j == 0);
        assert(index::in_hash_order(a[0]@, a[k]@) || k == 0);
        if k != 0 && j != 0 {
            crate::bytes::lemma_order_total(a[0].entry.name@, b[0].entry.name@);
            assert(a[0].entry.name@ == b[0].entry.name@);
            assert(a[0].entry.name@ != a[k].entry.name@);
        }
        assert(a[0] == b[0]);
        let x = a.skip(1);
        let y = b.skip(1);
        assert(a =~= seq![a[0]] + x);
        assert(b =~= seq![b[0]] + y);
        vstd::seq_lib::lemma_multiset_commutative(seq![a[0]], x);
        vstd::seq_lib::lemma_multiset_commutative(seq![b[0]], y);
        let one = seq![a[0]].to_multiset();
        assert(one.add(x.to_multiset()).sub(one) =~= x.to_multiset());
        assert(one.add(y.to_multiset()).sub(one) =~= y.to_multiset());
        law_hash_order_is_unique(x, y);
    } else {
        assert(a =~= b);
    }
}

/// A leaf keeps a fifth of its bytes free for names to come, and room for the
/// shortest name in any case.
pub proof fn law_slack_is_a_fifth(usable: int)
    requires
        usable >= 0,
    ensures
        index::slack_bytes(usable) >= 12,
        usable >= 60 ==> 5 * index::slack_bytes(usable) <= usable < 5 * (index::slack_bytes(usable)
            + 1),
        usable < 60 ==> index::slack_bytes(usable) == 12,
{
}

/// An index block holds as many entries, of eight bytes each, as fit behind what
/// it opens with and in front of its checksum.
pub proof fn law_index_blocks_hold_all_that_fits(block_size: nat, offset: nat, with_tail: bool)
    requires
        block_size >= offset + 8,
    ensures
        ({
            let n = index::index_limit(block_size, offset, with_tail);
            let tail: int = if with_tail {
                8
            } else {
                0
            };
            offset + 8 * n + tail <= block_size < offset + 8 * (n + 1) + tail
        }),
{
}

/// Every name of a directory is indexed but `.` and `..`, and nothing else is.
pub proof fn law_all_but_the_dots_is_indexed(
    entries: Seq<(u32, Seq<u8>, u8)>,
    x: (u32, Seq<u8>, u8),
)
    ensures
        index::indexed_names(entries).contains(x) <==> entries.contains(x) && x.1 != seq![46u8]
            && x.1 != seq![46u8, 46],
    decreases entries.len(),
{
    let out = index::indexed_names(entries);
    if entries.len() > 0 {
        let front = entries.drop_last();
        law_all_but_the_dots_is_indexed(front, x);
        let before = index::indexed_names(front);
        let last = entries.last();
        if before.contains(x) {
            let k = choose|k: int| 0 <= k < before.len() && before[k] == x;
            assert(out[k] == x);
        }
        if front.contains(x) {
            let k = choose|k: int| 0 <= k < front.len() && front[k] == x;
            assert(entries[k] == x);
        }
        if last == x {
            assert(entries[entries.len() - 1] == x);
            if !dir::is_dots(x.1) {
                assert(out.last() == x);
                assert(out[out.len() - 1] == x);
            }
        }
        if entries.contains(x) && last != x {
            let k = choose|k: int| 0 <= k < entries.len() && entries[k] == x;
            assert(front[k] == x);
        }
        if out.contains(x) && !before.contains(x) {
            let k = choose|k: int| 0 <= k < out.len() && out[k] == x;
            if k < before.len() {
                assert(before[k] == x);
            }
        }
    }
}

/// A directory's parent is what its first `..` names, or itself where it has none.
pub proof fn law_parent_is_what_dotdot_names(
    entries: Seq<(u32, Seq<u8>, u8)>,
    dir_ino: u32,
    i: int,
)
    requires
        0 <= i <= entries.len(),
        forall|j: int| 0 <= j < i ==> (#[trigger] entries[j]).1 != seq![46u8, 46],
        i < entries.len() ==> entries[i].1 == seq![46u8, 46],
    ensures
        i < entries.len() ==> index::parent_in(entries, dir_ino) == entries[i].0,
        i == entries.len() ==> index::parent_in(entries, dir_ino) == dir_ino,
    decreases entries.len(),
{
    if entries.len() > 0 && i > 0 {
        assert(entries[0].1 != seq![46u8, 46]);
        let rest = entries.skip(1);
        assert forall|j: int| 0 <= j < i - 1 implies (#[trigger] rest[j]).1 != seq![46u8, 46] by {
            assert(entries[j + 1].1 != seq![46u8, 46]);
        }
        law_parent_is_what_dotdot_names(rest, dir_ino, i - 1);
    }
}

/// Names go by their hash, then by the second half of it, then by their bytes.
pub proof fn law_names_go_by_their_hash(
    a: (u32, u32, (u32, Seq<u8>, u8)),
    b: (u32, u32, (u32, Seq<u8>, u8)),
)
    ensures
        a.0 < b.0 ==> index::in_hash_order(a, b) && !index::in_hash_order(b, a),
        a.0 == b.0 && a.1 < b.1 ==> index::in_hash_order(a, b) && !index::in_hash_order(b, a),
        a.0 == b.0 && a.1 == b.1 && bytes::sorts_before(a.2.1, b.2.1) ==> !index::in_hash_order(
            b,
            a,
        ),
{
}

/// Of an index's entries the last one that starts at or below a hash leads to it,
/// or else the first.
pub proof fn law_last_entry_below_leads_on(entries: Seq<(u32, u32)>, hash: u32, n: int)
    requires
        1 <= n <= entries.len(),
    ensures
        ({
            let r = index::entry_for(entries, hash, n);
            &&& 0 <= r < n
            &&& r > 0 ==> entries[r].0 <= hash
            &&& forall|k: int| r < k < n ==> (#[trigger] entries[k]).0 > hash
        }),
    decreases n,
{
    if n > 1 && entries[n - 1].0 > hash {
        law_last_entry_below_leads_on(entries, hash, n - 1);
    }
}

/// A run of blocks goes on as long as the next entry's hash has its low bit set.
pub proof fn law_runs_go_on_while_marked(entries: Seq<(u32, u32)>, at: int)
    requires
        0 <= at < entries.len(),
    ensures
        ({
            let run = index::run_from(entries, at);
            &&& 1 <= run.len() <= entries.len() - at
            &&& forall|t: int| 0 <= t < run.len() ==> #[trigger] run[t] == entries[at + t].1
            &&& forall|t: int| 1 <= t < run.len() ==> (#[trigger] entries[at + t]).0 & 1 != 0
            &&& at + run.len() < entries.len() ==> entries[at + run.len()].0 & 1 == 0
        }),
    decreases entries.len() - at,
{
    if at + 1 < entries.len() && entries[at + 1].0 & 1 != 0 {
        law_runs_go_on_while_marked(entries, at + 1);
        let run = index::run_from(entries, at);
        let rest = index::run_from(entries, at + 1);
        assert(run =~= seq![entries[at].1 as u64] + rest);
        assert forall|t: int| 0 <= t < run.len() implies #[trigger] run[t] == entries[at + t].1 by {
            if t > 0 {
                assert(run[t] == rest[t - 1]);
                assert(rest[t - 1] == entries[at + 1 + (t - 1)].1);
            }
        }
        assert forall|t: int| 1 <= t < run.len() implies (#[trigger] entries[at + t]).0 & 1 != 0 by {
            if t > 1 {
                assert(entries[at + 1 + (t - 1)].0 & 1 != 0);
            }
        }
    }
}

/// The leaves stand behind the root, one block each and in order, and the nodes
/// behind the leaves; each entry starts at the hash of its first leaf, and the
/// first of a block at zero.
pub proof fn law_index_entries_lead_to_their_blocks(
    hashes: Seq<u32>,
    first: int,
    last: int,
    leaves: int,
    nodes: int,
    per_node: int,
    k: int,
)
    requires
        0 <= first <= last <= hashes.len(),
        hashes.len() + nodes < 0xffff_ffff,
        0 <= leaves <= hashes.len(),
        0 <= nodes,
        0 <= k,
    ensures
        index::leaf_entries(hashes, first, last).len() == last - first,
        k < last - first ==> index::leaf_entries(hashes, first, last)[k].1 == 1 + first + k,
        0 < k < last - first ==> index::leaf_entries(hashes, first, last)[k].0 == hashes[first + k],
        0 < last - first ==> index::leaf_entries(hashes, first, last)[0].0 == 0,
        index::node_entries(hashes, leaves, nodes, per_node).len() == nodes,
        k < nodes ==> index::node_entries(hashes, leaves, nodes, per_node)[k].1 == 1 + leaves + k,
        0 < k < nodes ==> index::node_entries(hashes, leaves, nodes, per_node)[k].0 == hashes[k
            * per_node],
        0 < nodes ==> index::node_entries(hashes, leaves, nodes, per_node)[0].0 == 0,
{
}

} // verus!
