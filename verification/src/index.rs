//! Maintaining a directory's hash index.
//!
//! When a leaf will not take another name, the whole index is rebuilt from the
//! directory's current contents — sorted by hash, packed into fresh leaves,
//! and re-indexed. That is one code path for the first conversion and for
//! every growth after it. Leaves are packed with a fifth of each block left
//! free, so a rebuild happens roughly once per two hundred names rather than
//! once per name.

use vstd::prelude::*;

use crate::bytes;
use crate::dir::{self, DirEntry};
use crate::error::{Error, Result};
use crate::sort::{self, Ranked};
use crate::text;

verus! {

/// How much of each leaf block to leave free when rebuilding, in percent.
///
/// It is the difference between a rebuild every couple of hundred names and a
/// rebuild every time a name happens to land in a full leaf.
pub const SLACK_PERCENT: usize = 20;

/// Where the entries of a root index block are counted.
pub const ROOT_COUNT_OFFSET: usize = 32;

/// Where the entries of an interior index block are counted.
pub const NODE_COUNT_OFFSET: usize = 8;

/// A name waiting to be placed, with the hash that decides where it goes.
#[derive(Debug)]
pub struct Sorted {
    /// The hash leaves are searched by.
    pub hash: u32,
    /// The hash ties are broken by.
    pub minor: u32,
    /// The name.
    pub entry: DirEntry,
}

impl View for Sorted {
    type V = (u32, u32, (u32, Seq<u8>, u8));

    open spec fn view(&self) -> (u32, u32, (u32, Seq<u8>, u8)) {
        (self.hash, self.minor, self.entry@)
    }
}

/// Whether `a` may stand in front of `b`: by hash, then the minor hash, then
/// the name.
pub open spec fn in_hash_order(
    a: (u32, u32, (u32, Seq<u8>, u8)),
    b: (u32, u32, (u32, Seq<u8>, u8)),
) -> bool {
    if a.0 != b.0 {
        a.0 < b.0
    } else if a.1 != b.1 {
        a.1 < b.1
    } else {
        !bytes::sorts_before(b.2.1, a.2.1)
    }
}

impl Ranked for Sorted {
    open spec fn ranks(&self, other: &Self) -> bool {
        in_hash_order(self@, other@)
    }

    proof fn ranks_total(a: &Self, b: &Self) {
        let x = a@.2.1;
        let y = b@.2.1;
        if bytes::sorts_before(x, y) && bytes::sorts_before(y, x) {
            bytes::lemma_order_transitive(x, y, x);
            bytes::lemma_order_irreflexive(x);
        }
    }

    proof fn ranks_transitive(a: &Self, b: &Self, c: &Self) {
        let x = a@.2.1;
        let y = b@.2.1;
        let z = c@.2.1;
        if !bytes::sorts_before(y, x) && !bytes::sorts_before(z, y) && bytes::sorts_before(z, x) {
            bytes::lemma_order_total(x, y);
            bytes::lemma_order_total(y, z);
            if bytes::sorts_before(x, y) {
                bytes::lemma_order_transitive(z, x, y);
            }
        }
    }

    fn goes_first(&self, other: &Self) -> (r: bool) {
        if self.hash != other.hash {
            self.hash < other.hash
        } else if self.minor != other.minor {
            self.minor < other.minor
        } else {
            !bytes::is_before(other.entry.name.as_slice(), self.entry.name.as_slice())
        }
    }
}

/// Names as the contracts speak of them.
pub open spec fn names_view(names: Seq<Sorted>) -> Seq<(u32, u32, (u32, Seq<u8>, u8))> {
    names.map_values(|s: Sorted| s@)
}

/// Entries as the contracts speak of them.
pub open spec fn entries_view(entries: Seq<DirEntry>) -> Seq<(u32, Seq<u8>, u8)> {
    entries.map_values(|e: DirEntry| e@)
}

/// Leaves as the contracts speak of them.
pub open spec fn leaves_view(leaves: Seq<Vec<DirEntry>>) -> Seq<Seq<(u32, Seq<u8>, u8)>> {
    leaves.map_values(|l: Vec<DirEntry>| entries_view(l@))
}

/// The entries of a directory that an index covers: all but `.` and `..`,
/// which stay in the root block.
pub open spec fn indexed_names(entries: Seq<(u32, Seq<u8>, u8)>) -> Seq<(u32, Seq<u8>, u8)>
    decreases entries.len(),
{
    if entries.len() == 0 {
        Seq::empty()
    } else {
        let before = indexed_names(entries.drop_last());
        if dir::is_dots(entries.last().1) {
            before
        } else {
            before.push(entries.last())
        }
    }
}

/// Whether a name is among entries.
pub open spec fn has_name(entries: Seq<(u32, Seq<u8>, u8)>, name: Seq<u8>) -> bool {
    exists|i: int| 0 <= i < entries.len() && (#[trigger] entries[i]).1 == name
}

/// The names an index is to cover: what the directory holds besides `.` and
/// `..`, and the one being added. A name that is there already is refused.
pub fn names_to_index(existing: Vec<DirEntry>, extra: Option<DirEntry>) -> (r: Result<
    Vec<DirEntry>,
>)
    ensures
        ({
            let kept = indexed_names(entries_view(existing@));
            match r {
                Ok(out) => match extra {
                    Some(e) => !has_name(kept, e.name@) && entries_view(out@) == kept.push(e@),
                    None => entries_view(out@) == kept,
                },
                Err(e) => extra matches Some(x) && has_name(kept, x.name@) && (
                e matches Error::AlreadyExists(m) && m@ == text::lossy_text(x.name@)),
            }
        }),
{
    let ghost all = entries_view(existing@);
    let mut out: Vec<DirEntry> = Vec::new();
    let mut i: usize = 0;
    assert(all.take(0) =~= Seq::empty());
    assert(entries_view(out@) =~= Seq::empty());
    while i < existing.len()
        invariant
            i <= existing@.len(),
            all == entries_view(existing@),
            entries_view(out@) == indexed_names(all.take(i as int)),
        decreases existing.len() - i,
    {
        let ghost was = out@;
        proof {
            assert(all.take(i + 1).drop_last() =~= all.take(i as int));
            assert(all.take(i + 1).last() == existing@[i as int]@);
        }
        if !dir::is_dot_name(existing[i].name.as_slice()) {
            let e: DirEntry = existing[i].clone();
            out.push(e);
            assert(entries_view(out@) =~= entries_view(was).push(e@));
        }
        i += 1;
    }
    assert(all.take(i as int) =~= all);
    let ghost kept = indexed_names(all);
    match extra {
        Some(e) => {
            let mut k: usize = 0;
            while k < out.len()
                invariant
                    k <= out@.len(),
                    entries_view(out@) == kept,
                    extra == Some(e),
                    forall|j: int| 0 <= j < k ==> (#[trigger] kept[j]).1 != e.name@,
                    kept == indexed_names(entries_view(existing@)),
                decreases out.len() - k,
            {
                assert(kept[k as int] == out@[k as int]@);
                if bytes::same(out[k].name.as_slice(), e.name.as_slice()) {
                    return Err(Error::AlreadyExists(text::lossy(e.name.as_slice())));
                }
                k += 1;
            }
            let ghost was = out@;
            out.push(e);
            assert(entries_view(out@) =~= entries_view(was).push(e@));
            Ok(out)
        },
        None => Ok(out),
    }
}

/// Put names in hash order, which is the order the tree is searched in. Ties
/// are broken by the minor hash and then the name, so a rebuild of the same
/// directory always lays out the same way.
pub fn sort_names(names: Vec<Sorted>) -> (out: Vec<Sorted>)
    ensures
        sort::ordered(out@),
        out@.to_multiset() == names@.to_multiset(),
{
    sort::sorted(names)
}

/// Leaves being packed.
#[verifier::ext_equal]
pub struct Packing {
    /// The leaves, the last one still open.
    pub leaves: Seq<Seq<(u32, Seq<u8>, u8)>>,
    /// The hash each leaf starts at.
    pub hashes: Seq<u32>,
    /// Bytes used in the open leaf.
    pub used: int,
    /// The hash of the name placed last.
    pub previous: u32,
}

/// Nothing packed yet. No real hash is 1: every hash has its low bit cleared.
pub open spec fn nothing_packed() -> Packing {
    Packing { leaves: seq![Seq::empty()], hashes: seq![0u32], used: 0, previous: 1 }
}

/// With another leaf opened.
pub open spec fn opened(p: Packing) -> Packing {
    Packing {
        leaves: p.leaves.push(Seq::empty()),
        hashes: p.hashes.push(0),
        used: 0,
        previous: p.previous,
    }
}

/// The hash a leaf starts at: the first name's, with the low bit set when the
/// leaf continues a run of equal hashes from the one before.
pub open spec fn start_hash(hash: u32, previous: u32) -> u32 {
    if hash == previous {
        hash | 1
    } else {
        hash
    }
}

/// With one more name placed.
pub open spec fn placed(
    p: Packing,
    name: (u32, u32, (u32, Seq<u8>, u8)),
    usable: int,
    slack: int,
) -> Packing {
    let need = dir::span(name.2.1.len()) as int;
    let p = if p.used + need > usable && p.leaves.last().len() > 0 {
        opened(p)
    } else {
        p
    };
    let last = p.leaves.len() - 1;
    let p = Packing {
        leaves: p.leaves.update(last, p.leaves.last().push(name.2)),
        hashes: if p.leaves.last().len() == 0 {
            p.hashes.update(last, start_hash(name.0, p.previous))
        } else {
            p.hashes
        },
        used: p.used + need,
        previous: name.0,
    };
    if usable - p.used < slack {
        opened(p)
    } else {
        p
    }
}

/// With the first `n` names placed.
pub open spec fn packed_upto(
    names: Seq<(u32, u32, (u32, Seq<u8>, u8))>,
    n: int,
    usable: int,
    slack: int,
) -> Packing
    decreases n,
{
    if n <= 0 {
        nothing_packed()
    } else {
        placed(packed_upto(names, n - 1, usable, slack), names[n - 1], usable, slack)
    }
}

/// Bytes of a block that entries can use.
pub open spec fn usable_bytes(block_size: nat, with_tail: bool) -> int {
    dir::limit_of(block_size, with_tail)
}

/// Bytes of each leaf to leave free.
pub open spec fn slack_bytes(usable: int) -> int {
    if usable * 20 / 100 < 12 {
        12
    } else {
        usable * 20 / 100
    }
}

/// All names packed, without an empty leaf on the end.
pub open spec fn packed(
    names: Seq<(u32, u32, (u32, Seq<u8>, u8))>,
    block_size: nat,
    with_tail: bool,
) -> (Seq<Seq<(u32, Seq<u8>, u8)>>, Seq<u32>) {
    let usable = usable_bytes(block_size, with_tail);
    let p = packed_upto(names, names.len() as int, usable, slack_bytes(usable));
    if p.leaves.len() > 1 && p.leaves.last().len() == 0 {
        (p.leaves.drop_last(), p.hashes.drop_last())
    } else {
        (p.leaves, p.hashes)
    }
}

/// Whether a name needs more than a block has.
pub open spec fn too_long(
    names: Seq<(u32, u32, (u32, Seq<u8>, u8))>,
    usable: int,
) -> bool {
    exists|i: int| 0 <= i < names.len() && dir::span((#[trigger] names[i]).2.1.len()) > usable
}

/// Pack sorted names into leaf blocks, and say what hash each leaf starts at.
///
/// Each leaf is left with some slack, and a leaf's hash gets its low bit set
/// when that leaf continues a run of equal hashes from the one before —
/// without which a lookup would stop at the first leaf and miss names that
/// spilled into the next.
pub fn pack_leaves(names: &[Sorted], block_size: usize, with_tail: bool) -> (r: Result<
    (Vec<Vec<DirEntry>>, Vec<u32>),
>)
    requires
        12 <= block_size <= 65536,
        forall|i: int| 0 <= i < names@.len() ==> (#[trigger] names@[i]).entry.name@.len() <= 255,
    ensures
        match r {
            Ok((leaves, hashes)) => {
                &&& !too_long(names_view(names@), usable_bytes(block_size as nat, with_tail))
                &&& (leaves_view(leaves@), hashes@) == packed(
                    names_view(names@),
                    block_size as nat,
                    with_tail,
                )
            },
            Err(e) => too_long(names_view(names@), usable_bytes(block_size as nat, with_tail)) && (
            e matches Error::InvalidName(m) && m@
                == "a name too long to fit in a directory block"@),
        },
{
    let usable: usize = if with_tail {
        block_size - dir::TAIL_LEN
    } else {
        block_size
    };
    let smallest: usize = dir::rec_len(1);
    let share: usize = usable * SLACK_PERCENT / 100;
    let slack: usize = if share < smallest {
        smallest
    } else {
        share
    };
    let ghost view = names_view(names@);
    let mut leaves: Vec<Vec<DirEntry>> = Vec::new();
    let mut open: Vec<DirEntry> = Vec::new();
    let mut hashes: Vec<u32> = vec![0u32];
    let mut used: usize = 0;
    let mut previous: u32 = 1;
    let mut i: usize = 0;
    let ghost mut p = nothing_packed();
    proof {
        assert(entries_view(open@) =~= Seq::empty());
        assert(leaves_view(leaves@).push(entries_view(open@)) =~= p.leaves);
        assert(hashes@ =~= p.hashes);
    }
    while i < names.len()
        invariant
            i <= names@.len(),
            view == names_view(names@),
            usable == usable_bytes(block_size as nat, with_tail),
            usable <= 65536,
            slack == slack_bytes(usable as int),
            forall|j: int|
                0 <= j < names@.len() ==> (#[trigger] names@[j]).entry.name@.len() <= 255,
            forall|j: int| 0 <= j < i ==> dir::span((#[trigger] view[j]).2.1.len()) <= usable,
            p == packed_upto(view, i as int, usable as int, slack as int),
            p.leaves == leaves_view(leaves@).push(entries_view(open@)),
            p.hashes == hashes@,
            hashes@.len() == leaves@.len() + 1,
            p.used == used,
            used <= usable,
            used == 0 <==> open@.len() == 0,
            p.previous == previous,
        decreases names.len() - i,
    {
        let name: &Sorted = &names[i];
        assert(view[i as int] == name@);
        let need: usize = dir::rec_len(name.entry.name.len());
        if need > usable {
            assert(dir::span(view[i as int].2.1.len()) > usable);
            return Err(
                Error::InvalidName("a name too long to fit in a directory block".to_owned()),
            );
        }
        let ghost q = if p.used + need > usable && p.leaves.last().len() > 0 {
            opened(p)
        } else {
            p
        };
        if used + need > usable && open.len() > 0 {
            let ghost was = leaves@;
            leaves.push(open);
            open = Vec::new();
            hashes.push(0);
            used = 0;
            proof {
                assert(entries_view(open@) =~= Seq::empty());
                assert(leaves_view(leaves@) =~= leaves_view(was).push(leaves_view(leaves@).last()));
                assert(leaves_view(leaves@).push(entries_view(open@)) =~= q.leaves);
            }
        }
        assert(q.leaves == leaves_view(leaves@).push(entries_view(open@)));
        if open.len() == 0 {
            let at: usize = hashes.len() - 1;
            hashes.set(
                at,
                if name.hash == previous {
                    name.hash | 1
                } else {
                    name.hash
                },
            );
        }
        let ghost before = open@;
        let e: DirEntry = name.entry.clone();
        open.push(e);
        used = used + need;
        previous = name.hash;
        let ghost r = Packing {
            leaves: q.leaves.update(q.leaves.len() - 1, q.leaves.last().push(name@.2)),
            hashes: if q.leaves.last().len() == 0 {
                q.hashes.update(q.leaves.len() - 1, start_hash(name@.0, q.previous))
            } else {
                q.hashes
            },
            used: q.used + need,
            previous: name@.0,
        };
        proof {
            assert(entries_view(open@) =~= entries_view(before).push(e@));
            assert(r.leaves =~= leaves_view(leaves@).push(entries_view(open@)));
            assert(r.hashes =~= hashes@);
        }
        // Stop short of filling the block, so the next name that hashes here
        // has somewhere to go without forcing a rebuild.
        if usable - used < slack {
            let ghost was = leaves@;
            leaves.push(open);
            open = Vec::new();
            hashes.push(0);
            used = 0;
            proof {
                assert(entries_view(open@) =~= Seq::empty());
                assert(leaves_view(leaves@) =~= leaves_view(was).push(leaves_view(leaves@).last()));
                assert(leaves_view(leaves@).push(entries_view(open@)) =~= opened(r).leaves);
                assert(hashes@ =~= opened(r).hashes);
            }
        }
        proof {
            p = placed(p, name@, usable as int, slack as int);
        }
        i += 1;
    }
    assert(!too_long(view, usable as int));
    // The loop can leave an empty block on the end; an index entry pointing at
    // a leaf holding nothing is not wrong, but there is no reason to write one.
    if leaves.len() > 0 && open.len() == 0 {
        hashes.pop();
        proof {
            assert(p.leaves.drop_last() =~= leaves_view(leaves@));
            assert(p.hashes.drop_last() =~= hashes@);
        }
    } else {
        let ghost was = leaves@;
        leaves.push(open);
        assert(leaves_view(leaves@) =~= leaves_view(was).push(leaves_view(leaves@).last()));
        assert(leaves_view(leaves@) =~= p.leaves);
    }
    Ok((leaves, hashes))
}

/// How the index over a given number of leaves is shaped.
#[derive(Debug, Clone, Copy)]
pub struct Plan {
    /// Levels of interior nodes: 0 if the root points straight at the leaves.
    pub levels: u8,
    /// How many interior nodes there are.
    pub nodes: usize,
    /// How many leaves each interior node covers.
    pub per_node: usize,
    /// Blocks in the finished directory, the root included.
    pub total: usize,
}

/// Entries an index block has room for behind `offset`.
pub open spec fn index_limit(block_size: nat, offset: nat, with_tail: bool) -> nat {
    ((block_size - offset - if with_tail {
        8int
    } else {
        0int
    }) / 8) as nat
}

/// Entries an index block has room for behind `offset`.
pub fn limit(block_size: usize, offset: usize, with_tail: bool) -> (n: usize)
    requires
        64 <= block_size,
        offset <= 32,
    ensures
        n == index_limit(block_size as nat, offset as nat, with_tail),
        n >= 3,
{
    let tail: usize = if with_tail {
        8
    } else {
        0
    };
    (block_size - offset - tail) / 8
}

/// Interior nodes needed over this many leaves.
pub open spec fn nodes_needed(leaves: nat, per_node: nat) -> nat {
    ((leaves + per_node - 1) / per_node as int) as nat
}

/// What is reported of a directory too large for one level of nodes.
pub open spec fn too_large_text(leaves: nat) -> Seq<char> {
    "a directory of "@ + text::ascii(text::digits(leaves, 10))
        + " blocks needs a three-level index"@
}

/// Decide the shape of an index over `leaves` leaves.
pub fn plan_index(leaves: usize, block_size: usize, with_tail: bool) -> (r: Result<Plan>)
    requires
        leaves <= 0x7fff_ffff,
        64 <= block_size,
    ensures
        ({
            let root = index_limit(block_size as nat, 32, with_tail);
            let node = index_limit(block_size as nat, 8, with_tail);
            let nodes = nodes_needed(leaves as nat, node);
            match r {
                Ok(plan) => if leaves <= root {
                    plan == (Plan {
                        levels: 0,
                        nodes: 0,
                        per_node: 0,
                        total: (1 + leaves) as usize,
                    })
                } else {
                    &&& nodes <= root
                    &&& plan == (Plan {
                        levels: 1,
                        nodes: nodes as usize,
                        per_node: node as usize,
                        total: (1 + leaves + nodes) as usize,
                    })
                },
                Err(e) => leaves > root && nodes > root && (e matches Error::Unsupported(m) && m@
                    == too_large_text(leaves as nat)),
            }
        }),
{
    let root_limit: usize = limit(block_size, ROOT_COUNT_OFFSET, with_tail);
    let node_limit: usize = limit(block_size, NODE_COUNT_OFFSET, with_tail);
    if leaves <= root_limit {
        return Ok(Plan { levels: 0, nodes: 0, per_node: 0, total: 1 + leaves });
    }
    let full: usize = leaves / node_limit;
    let nodes: usize = full + if leaves % node_limit == 0 {
        0
    } else {
        1
    };
    proof {
        let n = leaves as int;
        let d = node_limit as int;
        assert((n + d - 1) / d == n / d + (if n % d == 0 {
            0int
        } else {
            1int
        })) by (nonlinear_arith)
            requires
                d > 0,
                n >= 0,
        ;
        assert(n / d <= n) by (nonlinear_arith)
            requires
                d > 0,
                n >= 0,
        ;
    }
    if nodes > root_limit {
        // Two levels of interior nodes would be needed. At 4 KiB blocks one
        // level already spans some fifty million names, so this is a directory
        // no filesystem should be asked to hold.
        let mut m: String = "a directory of ".to_owned();
        text::push_decimal(&mut m, leaves as u64);
        m.append(" blocks needs a three-level index");
        return Err(Error::Unsupported(m));
    }
    Ok(Plan { levels: 1, nodes, per_node: node_limit, total: 1 + leaves + nodes })
}

/// The entries of an index over leaves: for each, the hash it starts at and
/// the block it points to. The first of any index block carries no hash:
/// everything below the second one's hash belongs to it.
#[derive(Debug)]
pub struct Layout {
    /// The entries of the root block.
    pub root: Vec<(u32, u32)>,
    /// The entries of each interior node.
    pub nodes: Vec<Vec<(u32, u32)>>,
}

/// The entries of an index block over leaves `first` to `last`.
pub open spec fn leaf_entries(hashes: Seq<u32>, first: int, last: int) -> Seq<(u32, u32)> {
    Seq::new(
        (last - first) as nat,
        |k: int|
            (
                if k == 0 {
                    0u32
                } else {
                    hashes[first + k]
                },
                (1 + first + k) as u32,
            ),
    )
}

/// The end of the run of leaves that node `node` covers.
pub open spec fn node_end(node: int, per_node: int, leaves: int) -> int {
    if (node + 1) * per_node < leaves {
        (node + 1) * per_node
    } else {
        leaves
    }
}

/// The entries of the root block over interior nodes, which stand behind the
/// leaves.
pub open spec fn node_entries(
    hashes: Seq<u32>,
    leaves: int,
    nodes: int,
    per_node: int,
) -> Seq<(u32, u32)> {
    Seq::new(
        nodes as nat,
        |n: int|
            (
                if n == 0 {
                    0u32
                } else {
                    hashes[n * per_node]
                },
                (1 + leaves + n) as u32,
            ),
    )
}

/// Lay out the entries over leaves `first` to `last`.
fn lay_leaves(hashes: &Vec<u32>, first: usize, last: usize) -> (out: Vec<(u32, u32)>)
    requires
        first <= last <= hashes@.len(),
        hashes@.len() <= 0x7fff_ffff,
    ensures
        out@ == leaf_entries(hashes@, first as int, last as int),
{
    let mut out: Vec<(u32, u32)> = Vec::new();
    let mut k: usize = 0;
    while k < last - first
        invariant
            k <= last - first,
            first <= last <= hashes@.len(),
            hashes@.len() <= 0x7fff_ffff,
            out@.len() == k,
            forall|j: int|
                0 <= j < k ==> #[trigger] out@[j] == leaf_entries(
                    hashes@,
                    first as int,
                    last as int,
                )[j],
        decreases last - first - k,
    {
        let hash: u32 = if k == 0 {
            0
        } else {
            hashes[first + k]
        };
        out.push((hash, (1 + first + k) as u32));
        k += 1;
    }
    assert(out@ =~= leaf_entries(hashes@, first as int, last as int));
    out
}

/// Entries of nodes as the contracts speak of them.
pub open spec fn nodes_view(nodes: Seq<Vec<(u32, u32)>>) -> Seq<Seq<(u32, u32)>> {
    nodes.map_values(|n: Vec<(u32, u32)>| n@)
}

/// Lay out the index over leaves that start at these hashes: the root, then
/// the leaves, then any interior nodes.
pub fn lay_out(hashes: &Vec<u32>, plan: Plan) -> (r: Layout)
    requires
        1 <= hashes@.len() <= 0x7fff_ffff,
        plan.levels <= 1,
        plan.levels == 1 ==> {
            &&& plan.per_node >= 1
            &&& plan.nodes == nodes_needed(hashes@.len(), plan.per_node as nat)
        },
    ensures
        ({
            let n = hashes@.len() as int;
            if plan.levels == 0 {
                &&& r.root@ == leaf_entries(hashes@, 0, n)
                &&& r.nodes@.len() == 0
            } else {
                &&& r.root@ == node_entries(
                    hashes@,
                    n,
                    plan.nodes as int,
                    plan.per_node as int,
                )
                &&& nodes_view(r.nodes@) == Seq::new(
                    plan.nodes as nat,
                    |i: int|
                        leaf_entries(
                            hashes@,
                            i * plan.per_node,
                            node_end(i, plan.per_node as int, n),
                        ),
                )
            }
        }),
{
    let leaves: usize = hashes.len();
    if plan.levels == 0 {
        return Layout { root: lay_leaves(hashes, 0, leaves), nodes: Vec::new() };
    }
    let per: usize = plan.per_node;
    let ghost n = hashes@.len() as int;
    let ghost want = Seq::new(
        plan.nodes as nat,
        |i: int|
            leaf_entries(hashes@, i * plan.per_node, node_end(i, plan.per_node as int, n)),
    );
    let mut root: Vec<(u32, u32)> = Vec::new();
    let mut nodes: Vec<Vec<(u32, u32)>> = Vec::new();
    let mut node: usize = 0;
    let mut first: usize = 0;
    proof {
        let d = per as int;
        assert(0 * d == 0);
        assert((n + d - 1) / d <= n) by (nonlinear_arith)
            requires
                d >= 1,
                n >= 1,
        ;
    }
    while node < plan.nodes
        invariant
            node <= plan.nodes,
            plan.nodes <= n,
            n == hashes@.len(),
            leaves == n,
            1 <= n <= 0x7fff_ffff,
            per == plan.per_node,
            per >= 1,
            plan.nodes == nodes_needed(hashes@.len(), plan.per_node as nat),
            node < plan.nodes ==> first == node * per,
            root@.len() == node,
            nodes@.len() == node,
            want == Seq::new(
                plan.nodes as nat,
                |i: int|
                    leaf_entries(hashes@, i * plan.per_node, node_end(i, plan.per_node as int, n)),
            ),
            forall|j: int|
                0 <= j < node ==> #[trigger] root@[j] == node_entries(
                    hashes@,
                    n,
                    plan.nodes as int,
                    plan.per_node as int,
                )[j],
            forall|j: int| 0 <= j < node ==> (#[trigger] nodes@[j])@ == want[j],
        decreases plan.nodes - node,
    {
        proof {
            let d = per as int;
            let k = node as int;
            assert(k * d < n) by (nonlinear_arith)
                requires
                    k + 1 <= (n + d - 1) / d,
                    d >= 1,
                    n >= 1,
            ;
            assert((k + 1) * d == k * d + d) by (nonlinear_arith);
            assert(k + 1 < (n + d - 1) / d ==> (k + 1) * d < n) by (nonlinear_arith)
                requires
                    d >= 1,
                    n >= 1,
            ;
        }
        let last: usize = if leaves - first <= per {
            leaves
        } else {
            first + per
        };
        nodes.push(lay_leaves(hashes, first, last));
        let hash: u32 = if node == 0 {
            0
        } else {
            hashes[first]
        };
        root.push((hash, (1 + leaves + node) as u32));
        first = last;
        node += 1;
    }
    assert(root@ =~= node_entries(hashes@, n, plan.nodes as int, plan.per_node as int));
    assert(nodes_view(nodes@) =~= want);
    Layout { root, nodes }
}

/// A directory's blocks, as a rebuild lays them out: the root, then the
/// leaves, then any interior nodes.
#[derive(Debug)]
pub struct Rebuilt {
    /// How the index is shaped.
    pub plan: Plan,
    /// The names in each leaf.
    pub leaves: Vec<Vec<DirEntry>>,
    /// The entries of the index blocks.
    pub layout: Layout,
}

/// Names with their hashes.
pub open spec fn hashed(names: Seq<(u32, Seq<u8>, u8)>, hashes: Seq<(u32, u32)>) -> Seq<
    (u32, u32, (u32, Seq<u8>, u8)),
> {
    Seq::new(names.len(), |i: int| (hashes[i].0, hashes[i].1, names[i]))
}

/// Whether an index holds these names, which are in hash order.
pub open spec fn holds_index(
    r: Rebuilt,
    names: Seq<(u32, u32, (u32, Seq<u8>, u8))>,
    block_size: nat,
    with_tail: bool,
) -> bool {
    let (leaves, hashes) = packed(names, block_size, with_tail);
    let n = leaves.len() as int;
    let root = index_limit(block_size, 32, with_tail);
    let node = index_limit(block_size, 8, with_tail);
    &&& leaves_view(r.leaves@) == leaves
    &&& if n <= root {
        &&& r.plan == (Plan { levels: 0, nodes: 0, per_node: 0, total: (1 + n) as usize })
        &&& r.layout.root@ == leaf_entries(hashes, 0, n)
        &&& r.layout.nodes@.len() == 0
    } else {
        let nodes = nodes_needed(n as nat, node) as int;
        &&& nodes <= root
        &&& r.plan == (Plan {
            levels: 1,
            nodes: nodes as usize,
            per_node: node as usize,
            total: (1 + n + nodes) as usize,
        })
        &&& r.layout.root@ == node_entries(hashes, n, nodes, node as int)
        &&& nodes_view(r.layout.nodes@) == Seq::new(
            nodes as nat,
            |i: int| leaf_entries(hashes, i * node, node_end(i, node as int, n)),
        )
    }
}

/// Rebuild a directory's index from scratch, over names with these hashes.
///
/// This is both the conversion of a linear directory into an indexed one and
/// the way an indexed one grows.
pub fn rebuild_index(
    names: Vec<DirEntry>,
    hashes: &Vec<(u32, u32)>,
    block_size: usize,
    with_tail: bool,
) -> (r: Result<Rebuilt>)
    requires
        64 <= block_size <= 65536,
        hashes@.len() == names@.len(),
        names@.len() < 0x7fff_ffff,
        forall|i: int| 0 <= i < names@.len() ==> (#[trigger] names@[i]).name@.len() <= 255,
    ensures
        exists|sorted: Seq<Sorted>|
            {
                let given = hashed(entries_view(names@), hashes@);
                let usable = usable_bytes(block_size as nat, with_tail);
                &&& sort::ordered(sorted)
                &&& #[trigger] names_view(sorted).to_multiset() == given.to_multiset()
                &&& match r {
                    Ok(b) => !too_long(names_view(sorted), usable) && holds_index(
                        b,
                        names_view(sorted),
                        block_size as nat,
                        with_tail,
                    ),
                    Err(Error::InvalidName(m)) => too_long(names_view(sorted), usable) && m@
                        == "a name too long to fit in a directory block"@,
                    Err(Error::Unsupported(m)) => {
                        let n = packed(names_view(sorted), block_size as nat, with_tail).0.len();
                        let node = index_limit(block_size as nat, 8, with_tail);
                        &&& nodes_needed(n, node) > index_limit(block_size as nat, 32, with_tail)
                        &&& n > index_limit(block_size as nat, 32, with_tail)
                        &&& m@ == too_large_text(n)
                    },
                    Err(_) => false,
                }
            },
{
    let ghost given = hashed(entries_view(names@), hashes@);
    let mut list: Vec<Sorted> = Vec::new();
    let mut i: usize = 0;
    while i < names.len()
        invariant
            i <= names@.len(),
            hashes@.len() == names@.len(),
            given == hashed(entries_view(names@), hashes@),
            forall|k: int|
                0 <= k < names@.len() ==> (#[trigger] names@[k]).name@.len() <= 255,
            list@.len() == i,
            forall|k: int|
                0 <= k < i ==> (#[trigger] list@[k])@ == given[k] && list@[k].entry.name@.len()
                    <= 255,
        decreases names.len() - i,
    {
        let (hash, minor) = hashes[i];
        list.push(Sorted { hash, minor, entry: names[i].clone() });
        i += 1;
    }
    let ghost before = list@;
    assert(names_view(before) =~= given);
    let sorted: Vec<Sorted> = sort_names(list);
    let ghost view = names_view(sorted@);
    proof {
        lemma_view_counted(before, sorted@);
        lemma_all_from(before, sorted@);
        lemma_leaves_few(
            view,
            view.len() as int,
            usable_bytes(block_size as nat, with_tail),
            slack_bytes(usable_bytes(block_size as nat, with_tail)),
        );
    }
    let (leaves, starts) = pack_leaves(sorted.as_slice(), block_size, with_tail)?;
    proof {
        lemma_packed_lens(
            view,
            view.len() as int,
            usable_bytes(block_size as nat, with_tail),
            slack_bytes(usable_bytes(block_size as nat, with_tail)),
        );
        assert(leaves_view(leaves@).len() == leaves@.len());
    }
    let plan: Plan = plan_index(leaves.len(), block_size, with_tail)?;
    let layout: Layout = lay_out(&starts, plan);
    let r = Rebuilt { plan, leaves, layout };
    assert(holds_index(r, view, block_size as nat, with_tail));
    Ok(r)
}

/// The same things seen are seen as often.
proof fn lemma_view_counted(a: Seq<Sorted>, b: Seq<Sorted>)
    requires
        a.to_multiset() == b.to_multiset(),
    ensures
        names_view(a).to_multiset() == names_view(b).to_multiset(),
    decreases a.len(),
{
    broadcast use vstd::seq_lib::group_to_multiset_ensures;

    assert(a.len() == a.to_multiset().len() && b.len() == b.to_multiset().len());
    if a.len() == 0 {
        assert(names_view(a) =~= names_view(b));
    } else {
        let x = a.last();
        assert(a.to_multiset().count(x) > 0) by {
            assert(a.contains(x));
        }
        assert(b.contains(x));
        let j = choose|j: int| 0 <= j < b.len() && b[j] == x;
        let front = a.drop_last();
        let rest = b.remove(j);
        assert(a =~= front.push(x));
        assert(front.to_multiset() =~= a.to_multiset().remove(x));
        assert(rest.to_multiset() =~= b.to_multiset().remove(x));
        lemma_view_counted(front, rest);
        assert(names_view(a) =~= names_view(front).push(x@));
        assert(names_view(rest) =~= names_view(b).remove(j));
        assert(names_view(b)[j] == x@);
        assert(names_view(a).to_multiset() =~= names_view(front).to_multiset().insert(x@));
        assert(names_view(b).to_multiset() =~= names_view(rest).to_multiset().insert(x@));
    }
}

/// What is sorted was given.
proof fn lemma_all_from(a: Seq<Sorted>, b: Seq<Sorted>)
    requires
        a.to_multiset() == b.to_multiset(),
        forall|k: int| 0 <= k < a.len() ==> (#[trigger] a[k]).entry.name@.len() <= 255,
    ensures
        a.len() == b.len(),
        forall|k: int| 0 <= k < b.len() ==> (#[trigger] b[k]).entry.name@.len() <= 255,
{
    broadcast use vstd::seq_lib::group_to_multiset_ensures;

    assert(a.len() == a.to_multiset().len() && b.len() == b.to_multiset().len());
    assert forall|k: int| 0 <= k < b.len() implies (#[trigger] b[k]).entry.name@.len() <= 255 by {
        assert(b.contains(b[k]));
        assert(a.to_multiset().count(b[k]) > 0);
        assert(a.contains(b[k]));
    }
}

proof fn lemma_packed_lens(
    names: Seq<(u32, u32, (u32, Seq<u8>, u8))>,
    n: int,
    usable: int,
    slack: int,
)
    requires
        0 <= n <= names.len(),
    ensures
        packed_upto(names, n, usable, slack).leaves.len() == packed_upto(
            names,
            n,
            usable,
            slack,
        ).hashes.len(),
        packed_upto(names, n, usable, slack).leaves.len() >= 1,
    decreases n,
{
    if n > 0 {
        lemma_packed_lens(names, n - 1, usable, slack);
    }
}

/// There are not many more leaves than names.
proof fn lemma_leaves_few(
    names: Seq<(u32, u32, (u32, Seq<u8>, u8))>,
    n: int,
    usable: int,
    slack: int,
)
    requires
        0 <= n <= names.len(),
    ensures
        ({
            let p = packed_upto(names, n, usable, slack);
            p.leaves.len() <= n + (if p.leaves.last().len() == 0 {
                1int
            } else {
                0int
            })
        }),
    decreases n,
{
    if n > 0 {
        lemma_leaves_few(names, n - 1, usable, slack);
        lemma_packed_lens(names, n - 1, usable, slack);
        let p = packed_upto(names, n - 1, usable, slack);
        let q = packed_upto(names, n, usable, slack);
        let name = names[n - 1];
        let need = dir::span(name.2.1.len()) as int;
        let p1 = if p.used + need > usable && p.leaves.last().len() > 0 {
            opened(p)
        } else {
            p
        };
        assert(p1.leaves.len() <= n);
        let full = p1.leaves.update(p1.leaves.len() - 1, p1.leaves.last().push(name.2));
        assert(full.last().len() > 0);
        assert(q.leaves =~= full || q.leaves =~= full.push(Seq::empty()));
    }
}

/// The last entry whose hash is not above `hash`, the first counting as zero.
pub open spec fn entry_for(entries: Seq<(u32, u32)>, hash: u32, n: int) -> int
    decreases n,
{
    if n <= 1 {
        0
    } else if entries[n - 1].0 <= hash {
        n - 1
    } else {
        entry_for(entries, hash, n - 1)
    }
}

/// Find the entry a hash belongs under.
pub fn find(entries: &Vec<(u32, u32)>, hash: u32) -> (at: usize)
    requires
        entries@.len() > 0,
    ensures
        at == entry_for(entries@, hash, entries@.len() as int),
        at < entries@.len(),
{
    let mut n: usize = entries.len();
    while n > 1 && entries[n - 1].0 > hash
        invariant
            1 <= n <= entries@.len(),
            entry_for(entries@, hash, entries@.len() as int) == entry_for(
                entries@,
                hash,
                n as int,
            ),
        decreases n,
    {
        n -= 1;
    }
    n - 1
}

/// The leaves from entry `at` on that one run of equal hashes spans: those
/// that follow as long as their hash has its low bit set.
pub open spec fn run_from(entries: Seq<(u32, u32)>, at: int) -> Seq<u64>
    decreases entries.len() - at,
{
    if at >= entries.len() {
        Seq::empty()
    } else if at + 1 < entries.len() && entries[at + 1].0 & 1 != 0 {
        seq![entries[at].1 as u64] + run_from(entries, at + 1)
    } else {
        seq![entries[at].1 as u64]
    }
}

/// The leaves from entry `at` on that one run of equal hashes spans.
fn run_at(entries: &Vec<(u32, u32)>, first: usize) -> (run: Vec<u64>)
    requires
        first < entries@.len(),
    ensures
        run@ == run_from(entries@, first as int),
        0 < run@.len() <= entries@.len() - first,
{
    let mut at: usize = first;
    let ghost all = run_from(entries@, at as int);
    let mut run: Vec<u64> = Vec::new();
    let total: usize = entries.len();
    assert(run@ + all =~= all);
    loop
        invariant
            first <= at < total,
            total == entries@.len(),
            run@.len() == at - first,
            all == run@ + run_from(entries@, at as int),
            all == run_from(entries@, first as int),
        decreases entries@.len() - at,
    {
        let ghost was = run@;
        run.push(entries[at].1 as u64);
        at += 1;
        if at >= total || entries[at].0 & 1 == 0 {
            assert(all =~= run@);
            return run;
        }
        assert(was + (seq![entries@[at - 1].1 as u64] + run_from(entries@, at as int)) =~= run@
            + run_from(entries@, at as int));
    }
}

/// Every block a name with this hash could be under, by the entries of one
/// index block.
pub fn run_of(entries: &Vec<(u32, u32)>, hash: u32) -> (run: Vec<u64>)
    requires
        entries@.len() > 0,
    ensures
        run@ == run_from(entries@, entry_for(entries@, hash, entries@.len() as int)),
        run@.len() > 0,
{
    let at: usize = find(entries, hash);
    run_at(entries, at)
}

/// An index block, decoded.
#[derive(Debug)]
pub struct IndexBlock {
    /// Where its entries are counted, if it holds an index at all.
    pub offset: Option<usize>,
    /// Levels of interior nodes below it.
    pub levels: u8,
    /// Its entries: hash and block.
    pub entries: Vec<(u32, u32)>,
}

/// What looking at an index block says.
#[derive(Debug)]
pub enum Lookup {
    /// The leaves a name can be in.
    Leaves(Vec<u64>),
    /// The interior nodes it can be under, in order: more than one where a run
    /// of equal hashes goes on under the next.
    Nodes(Vec<u64>),
}

/// Every logical block a name with this hash could be in, or the interior
/// nodes to ask, going by a directory's first block.
///
/// Usually one. More when a run of equal hashes spilled past a leaf's end,
/// which the following leaves declare by setting the low bit of their own
/// hash — the one bit a hash never uses.
pub fn leaf_run(root: &Option<IndexBlock>, hash: u32) -> (r: Result<Lookup>)
    requires
        root matches Some(b) ==> b.offset == Some(32usize) ==> b.entries@.len() > 0,
    ensures
        match r {
            Ok(Lookup::Leaves(run)) => root matches Some(b) && b.offset == Some(32usize) && b.levels
                == 0 && run@ == run_from(
                b.entries@,
                entry_for(b.entries@, hash, b.entries@.len() as int),
            ),
            Ok(Lookup::Nodes(run)) => root matches Some(b) && b.offset == Some(32usize) && b.levels
                > 0 && run@ == run_from(
                b.entries@,
                entry_for(b.entries@, hash, b.entries@.len() as int),
            ),
            Err(e) => e matches Error::Unsupported(m) && match root {
                None => m@ == "an indexed directory with no root block"@,
                Some(b) => b.offset != Some(32usize) && m@ == (if b.offset is None {
                    "a directory claims an index but its first block holds none"@
                } else {
                    "a directory's first block is an interior node, not a root"@
                }),
            },
        },
{
    match root {
        None => Err(Error::Unsupported("an indexed directory with no root block".to_owned())),
        Some(b) => match b.offset {
            None => Err(
                Error::Unsupported(
                    "a directory claims an index but its first block holds none".to_owned(),
                ),
            ),
            Some(offset) => if offset != ROOT_COUNT_OFFSET {
                Err(
                    Error::Unsupported(
                        "a directory's first block is an interior node, not a root".to_owned(),
                    ),
                )
            } else if b.levels > 0 {
                Ok(Lookup::Nodes(run_of(&b.entries, hash)))
            } else {
                Ok(Lookup::Leaves(run_of(&b.entries, hash)))
            },
        },
    }
}

/// An interior node as the contracts speak of it.
pub enum NodeView {
    /// There is no block where it should be.
    Hole,
    /// The block holds no index.
    NoIndex,
    /// Its entries.
    Entries(Seq<(u32, u32)>),
}

/// An interior node, decoded, as the contracts speak of it.
pub open spec fn node_view(node: Option<IndexBlock>) -> NodeView {
    match node {
        None => NodeView::Hole,
        Some(b) => if b.offset is None {
            NodeView::NoIndex
        } else {
            NodeView::Entries(b.entries@)
        },
    }
}

/// Interior nodes as the contracts speak of them.
pub open spec fn node_views(nodes: Seq<Option<IndexBlock>>) -> Seq<NodeView> {
    nodes.map_values(|n: Option<IndexBlock>| node_view(n))
}

/// Where following a run of equal hashes through interior nodes leads.
pub enum Reach {
    /// To a hole.
    Hole,
    /// To a block that holds no index.
    NoIndex,
    /// To these leaves.
    Leaves(Seq<u64>),
}

/// The same, with leaves in front.
pub open spec fn behind(run: Seq<u64>, reach: Reach) -> Reach {
    match reach {
        Reach::Leaves(more) => Reach::Leaves(run + more),
        bad => bad,
    }
}

/// The leaves of a run of equal hashes that starts at entry `at` of the first
/// node: on it goes under the next node when it fills the one before to its
/// end.
pub open spec fn reach(nodes: Seq<NodeView>, at: int) -> Reach
    decreases nodes.len(),
{
    if nodes.len() == 0 {
        Reach::Leaves(Seq::empty())
    } else {
        match nodes[0] {
            NodeView::Hole => Reach::Hole,
            NodeView::NoIndex => Reach::NoIndex,
            NodeView::Entries(entries) => {
                let run = run_from(entries, at);
                if at + run.len() < entries.len() {
                    Reach::Leaves(run)
                } else {
                    behind(run, reach(nodes.skip(1), 0))
                }
            },
        }
    }
}

/// The entry of a node that a hash belongs under.
pub open spec fn entry_in(node: NodeView, hash: u32) -> int {
    match node {
        NodeView::Entries(entries) => entry_for(entries, hash, entries.len() as int),
        _ => 0,
    }
}

/// Every logical block a name with this hash could be in, going by the
/// interior nodes that the root leads to.
pub fn leaf_run_below(nodes: &Vec<Option<IndexBlock>>, hash: u32) -> (r: Result<Vec<u64>>)
    requires
        nodes@.len() > 0,
        forall|i: int|
            0 <= i < nodes@.len() ==> (#[trigger] nodes@[i] matches Some(b) ==> b.offset is Some
                ==> b.entries@.len() > 0),
    ensures
        ({
            let views = node_views(nodes@);
            match (r, reach(views, entry_in(views[0], hash))) {
                (Ok(run), Reach::Leaves(leaves)) => run@ == leaves,
                (Err(e), Reach::Hole) => e matches Error::Unsupported(m) && m@
                    == "an index points at a hole"@,
                (Err(e), Reach::NoIndex) => e matches Error::Unsupported(m) && m@
                    == "an index points at a block holding no index"@,
                _ => false,
            }
        }),
{
    let ghost views = node_views(nodes@);
    let ghost all = reach(views, entry_in(views[0], hash));
    let mut out: Vec<u64> = Vec::new();
    let mut i: usize = 0;
    proof {
        assert(views.skip(0) =~= views);
        if all is Leaves {
            assert(out@ + all->Leaves_0 =~= all->Leaves_0);
        }
    }
    while i < nodes.len()
        invariant
            i <= nodes@.len(),
            nodes@.len() > 0,
            views == node_views(nodes@),
            all == reach(views, entry_in(views[0], hash)),
            all == behind(
                out@,
                reach(
                    views.skip(i as int),
                    if i == 0 {
                        entry_in(views[0], hash)
                    } else {
                        0
                    },
                ),
            ),
            forall|k: int|
                0 <= k < nodes@.len() ==> (#[trigger] nodes@[k] matches Some(b) ==> b.offset is Some
                    ==> b.entries@.len() > 0),
        decreases nodes.len() - i,
    {
        let ghost rest = views.skip(i as int);
        assert(rest[0] == node_view(nodes@[i as int]));
        match &nodes[i] {
            None => {
                return Err(Error::Unsupported("an index points at a hole".to_owned()));
            },
            Some(b) => {
                if b.offset.is_none() {
                    return Err(
                        Error::Unsupported("an index points at a block holding no index".to_owned()),
                    );
                }
                let at: usize = if i == 0 {
                    find(&b.entries, hash)
                } else {
                    0
                };
                let run: Vec<u64> = run_at(&b.entries, at);
                let ghost was = out@;
                out.extend_from_slice(run.as_slice());
                assert(out@ =~= was + run@);
                if run.len() < b.entries.len() - at {
                    return Ok(out);
                }
                proof {
                    assert(rest.skip(1) =~= views.skip(i + 1));
                    let then = reach(views.skip(i + 1), 0);
                    if then is Leaves {
                        assert(was + (run@ + then->Leaves_0) =~= out@ + then->Leaves_0);
                    }
                }
            },
        }
        i += 1;
    }
    assert(out@ + Seq::<u64>::empty() =~= out@);
    Ok(out)
}

/// The inode the first `..` among entries names, or else the directory's own.
pub open spec fn parent_in(entries: Seq<(u32, Seq<u8>, u8)>, dir_ino: u32) -> u32
    decreases entries.len(),
{
    if entries.len() == 0 {
        dir_ino
    } else if entries[0].1 == seq![46u8, 46] {
        entries[0].0
    } else {
        parent_in(entries.skip(1), dir_ino)
    }
}

/// A directory's parent, from its own `..`. The root directory is its own
/// parent, and is the only directory that could plausibly be missing one.
pub fn parent_of(entries: &[DirEntry], dir_ino: u32) -> (parent: u32)
    ensures
        parent == parent_in(entries_view(entries@), dir_ino),
{
    let dotdot: Vec<u8> = vec![46u8, 46];
    assert(dotdot@ =~= seq![46u8, 46]);
    let ghost all = entries_view(entries@);
    let mut i: usize = 0;
    assert(all.skip(0) =~= all);
    while i < entries.len()
        invariant
            i <= entries@.len(),
            all == entries_view(entries@),
            dotdot@ == seq![46u8, 46],
            parent_in(all, dir_ino) == parent_in(all.skip(i as int), dir_ino),
        decreases entries.len() - i,
    {
        assert(all.skip(i as int)[0] == entries@[i as int]@);
        if bytes::same(entries[i].name.as_slice(), dotdot.as_slice()) {
            return entries[i].inode;
        }
        assert(all.skip(i as int).skip(1) =~= all.skip(i + 1));
        i += 1;
    }
    dir_ino
}

} // verus!
