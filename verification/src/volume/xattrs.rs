//! Extended attributes.

use vstd::prelude::*;

use crate::bytes;
use crate::tar::pax;
use crate::text;
use crate::volume::inode::Inode;

verus! {

/// An extended attribute.
#[derive(Debug, PartialEq, Eq)]
pub struct Xattr {
    /// Its full name, such as `security.selinux`.
    pub name: String,
    /// Its value.
    pub value: Vec<u8>,
}

impl View for Xattr {
    type V = (Seq<char>, Seq<u8>);

    open spec fn view(&self) -> (Seq<char>, Seq<u8>) {
        (self.name@, self.value@)
    }
}

impl Clone for Xattr {
    fn clone(&self) -> (r: Self)
        ensures
            r@ == self@,
    {
        Xattr { name: self.name.clone(), value: bytes::copy(self.value.as_slice()) }
    }
}

impl Xattr {
    /// An attribute.
    pub fn new(name: &str, value: &[u8]) -> (r: Self)
        ensures
            r@ == (name@, value@),
    {
        Xattr { name: name.to_owned(), value: bytes::copy(value) }
    }
}

/// Attributes as the contracts speak of them.
pub open spec fn attrs_view(attrs: Seq<Xattr>) -> Seq<(Seq<char>, Seq<u8>)> {
    attrs.map_values(|a: Xattr| a@)
}

/// Where the first attribute of a name stands, from `i` on; the end, if there
/// is none.
pub open spec fn first_named(attrs: Seq<(Seq<char>, Seq<u8>)>, name: Seq<char>, i: int) -> int
    decreases attrs.len() - i,
{
    if i >= attrs.len() {
        attrs.len() as int
    } else if attrs[i].0 == name {
        i
    } else {
        first_named(attrs, name, i + 1)
    }
}

/// The value of an attribute.
pub open spec fn value_of(attrs: Seq<(Seq<char>, Seq<u8>)>, name: Seq<char>) -> Option<Seq<u8>> {
    let i = first_named(attrs, name, 0);
    if i < attrs.len() {
        Some(attrs[i].1)
    } else {
        None
    }
}

/// With an attribute set, in the place of one of that name or else at the end.
pub open spec fn with_value(
    attrs: Seq<(Seq<char>, Seq<u8>)>,
    name: Seq<char>,
    value: Seq<u8>,
) -> Seq<(Seq<char>, Seq<u8>)> {
    let i = first_named(attrs, name, 0);
    if i < attrs.len() {
        attrs.update(i, (name, value))
    } else {
        attrs.push((name, value))
    }
}

/// Without the attributes of a name.
pub open spec fn without_name(attrs: Seq<(Seq<char>, Seq<u8>)>, name: Seq<char>) -> Seq<
    (Seq<char>, Seq<u8>),
>
    decreases attrs.len(),
{
    if attrs.len() == 0 {
        Seq::empty()
    } else {
        let before = without_name(attrs.drop_last(), name);
        if attrs.last().0 == name {
            before
        } else {
            before.push(attrs.last())
        }
    }
}

proof fn lemma_first_named(attrs: Seq<(Seq<char>, Seq<u8>)>, name: Seq<char>, i: int)
    requires
        0 <= i <= attrs.len(),
    ensures
        i <= first_named(attrs, name, i) <= attrs.len(),
        first_named(attrs, name, i) < attrs.len() ==> attrs[first_named(attrs, name, i)].0
            == name,
        forall|k: int| i <= k < first_named(attrs, name, i) ==> (#[trigger] attrs[k]).0 != name,
    decreases attrs.len() - i,
{
    if i < attrs.len() && attrs[i].0 != name {
        lemma_first_named(attrs, name, i + 1);
    }
}

/// What is first is first.
proof fn lemma_is_first(attrs: Seq<(Seq<char>, Seq<u8>)>, name: Seq<char>, i: int, at: int)
    requires
        0 <= i <= at <= attrs.len(),
        at < attrs.len() ==> attrs[at].0 == name,
        forall|k: int| i <= k < at ==> (#[trigger] attrs[k]).0 != name,
    ensures
        first_named(attrs, name, i) == at,
    decreases at - i,
{
    if i < at {
        lemma_is_first(attrs, name, i + 1, at);
    }
}

/// Where the first attribute of a name stands.
fn position(attrs: &Vec<Xattr>, name: &str) -> (i: usize)
    ensures
        i == first_named(attrs_view(attrs@), name@, 0),
        i <= attrs@.len(),
{
    let mut i: usize = 0;
    while i < attrs.len() && !text::same_text(attrs[i].name.as_str(), name)
        invariant
            i <= attrs@.len(),
            first_named(attrs_view(attrs@), name@, 0) == first_named(
                attrs_view(attrs@),
                name@,
                i as int,
            ),
        decreases attrs.len() - i,
    {
        i += 1;
    }
    i
}

/// Read one attribute.
pub fn get_xattr(attrs: &Vec<Xattr>, name: &str) -> (r: Option<Vec<u8>>)
    ensures
        match r {
            Some(value) => value_of(attrs_view(attrs@), name@) == Some(value@),
            None => value_of(attrs_view(attrs@), name@) is None,
        },
{
    let i: usize = position(attrs, name);
    if i < attrs.len() {
        Some(bytes::copy(attrs[i].value.as_slice()))
    } else {
        None
    }
}

/// Set an attribute, replacing any existing value.
pub fn set_xattr(attrs: Vec<Xattr>, name: &str, value: &[u8]) -> (out: Vec<Xattr>)
    ensures
        attrs_view(out@) == with_value(attrs_view(attrs@), name@, value@),
{
    let i: usize = position(&attrs, name);
    let mut out = attrs;
    let x: Xattr = Xattr::new(name, value);
    if i < out.len() {
        out.set(i, x);
    } else {
        out.push(x);
    }
    assert(attrs_view(out@) =~= with_value(attrs_view(attrs@), name@, value@));
    out
}

/// Remove an attribute.
pub fn remove_xattr(attrs: Vec<Xattr>, name: &str) -> (out: Vec<Xattr>)
    ensures
        attrs_view(out@) == without_name(attrs_view(attrs@), name@),
{
    let ghost all = attrs_view(attrs@);
    let mut out: Vec<Xattr> = Vec::new();
    let mut i: usize = 0;
    assert(attrs_view(out@) =~= Seq::empty());
    assert(all.take(0) =~= Seq::empty());
    while i < attrs.len()
        invariant
            i <= attrs@.len(),
            all == attrs_view(attrs@),
            attrs_view(out@) == without_name(all.take(i as int), name@),
        decreases attrs.len() - i,
    {
        let ghost was = out@;
        assert(all.take(i + 1).drop_last() =~= all.take(i as int));
        assert(all.take(i + 1).last() == attrs@[i as int]@);
        if !text::same_text(attrs[i].name.as_str(), name) {
            let x: Xattr = attrs[i].clone();
            out.push(x);
            assert(attrs_view(out@) =~= attrs_view(was).push(x@));
        }
        i += 1;
    }
    assert(all.take(i as int) =~= all);
    out
}

/// All attributes: those in the inode, then those in the block.
pub fn list_xattrs(inline: Vec<Xattr>, block: Vec<Xattr>) -> (out: Vec<Xattr>)
    ensures
        attrs_view(out@) == attrs_view(inline@) + attrs_view(block@),
{
    let mut out = inline;
    let mut more = block;
    out.append(&mut more);
    assert(attrs_view(out@) =~= attrs_view(inline@) + attrs_view(block@));
    out
}

/// Turn an archive's name/value pairs into attributes.
pub fn to_xattrs(pairs: &Vec<(String, Vec<u8>)>) -> (out: Vec<Xattr>)
    ensures
        attrs_view(out@) == pax::records_view(pairs@),
{
    let mut out: Vec<Xattr> = Vec::new();
    let mut i: usize = 0;
    while i < pairs.len()
        invariant
            i <= pairs@.len(),
            out@.len() == i,
            forall|k: int|
                0 <= k < i ==> (#[trigger] out@[k])@ == (pairs@[k].0@, pairs@[k].1@),
        decreases pairs.len() - i,
    {
        out.push(Xattr::new(pairs[i].0.as_str(), pairs[i].1.as_slice()));
        i += 1;
    }
    assert(attrs_view(out@) =~= pax::records_view(pairs@));
    out
}

/// Turn attributes into an archive's name/value pairs.
pub fn from_xattrs(attrs: Vec<Xattr>) -> (out: Vec<(String, Vec<u8>)>)
    ensures
        pax::records_view(out@) == attrs_view(attrs@),
{
    let mut out: Vec<(String, Vec<u8>)> = Vec::new();
    let mut i: usize = 0;
    while i < attrs.len()
        invariant
            i <= attrs@.len(),
            out@.len() == i,
            forall|k: int|
                0 <= k < i ==> (#[trigger] out@[k]).0@ == attrs@[k].name@ && out@[k].1@
                    == attrs@[k].value@,
        decreases attrs.len() - i,
    {
        let value: Vec<u8> = bytes::copy(attrs[i].value.as_slice());
        out.push((attrs[i].name.clone(), value));
        i += 1;
    }
    assert(pax::records_view(out@) =~= attrs_view(attrs@));
    out
}

/// Where a set of attributes goes.
#[derive(Debug, Clone, Copy, PartialEq, Eq, Structural)]
pub enum Placement {
    /// Into the inode. A block that held attributes is given back.
    Inode {
        /// That block.
        free: Option<u64>,
    },
    /// Into the block that held attributes before.
    Block(u64),
    /// Into a block yet to be allocated.
    NewBlock,
}

/// Where a set of attributes goes, given whether all of them fit in the inode.
pub open spec fn placement(inode: Inode, fits: bool) -> Placement {
    if fits {
        Placement::Inode {
            free: if inode.file_acl != 0 {
                Some(inode.file_acl)
            } else {
                None
            },
        }
    } else if inode.file_acl != 0 {
        Placement::Block(inode.file_acl)
    } else {
        Placement::NewBlock
    }
}

/// Decide where a set of attributes goes, given whether all of them fit in the
/// inode.
///
/// The whole set goes to one place rather than being split, which keeps
/// reading simple and ordering stable.
pub fn place_xattrs(inode: &Inode, fits: bool) -> (r: Placement)
    ensures
        r == placement(*inode, fits),
{
    if fits {
        if inode.file_acl != 0 {
            Placement::Inode { free: Some(inode.file_acl) }
        } else {
            Placement::Inode { free: None }
        }
    } else if inode.file_acl != 0 {
        Placement::Block(inode.file_acl)
    } else {
        Placement::NewBlock
    }
}

/// An inode whose attributes were written, into `block` if not into itself.
pub open spec fn with_attributes(
    inode: Inode,
    block: Option<u64>,
    block_size: u32,
    now: u32,
) -> Inode {
    match block {
        None => Inode { ctime: now, ..inode.without_acl(block_size) },
        Some(b) => if inode.file_acl != 0 {
            Inode { ctime: now, ..inode }
        } else {
            Inode {
                file_acl: b,
                blocks: (inode.blocks + block_size / 512) as u64,
                ctime: now,
                ..inode
            }
        },
    }
}

/// An inode whose attributes were written, into `block` if not into itself.
pub fn attributes_written(inode: Inode, block: Option<u64>, block_size: u32, now: u32) -> (r: Inode)
    requires
        inode.blocks + block_size / 512 <= u64::MAX,
    ensures
        r == with_attributes(inode, block, block_size, now),
{
    match block {
        None => {
            let (_, mut r) = inode.drop_attributes(block_size);
            r.ctime = now;
            r
        },
        Some(b) => {
            let mut r: Inode = inode;
            if r.file_acl == 0 {
                r.file_acl = b;
                r.blocks = r.blocks + (block_size / 512) as u64;
            }
            r.ctime = now;
            r
        },
    }
}

/// Bytes of an inode behind its first 128 that hold further fields.
pub open spec fn extra_bytes(raw: Seq<u8>, inode_size: nat) -> u16 {
    if inode_size > 128 {
        bytes::get16(raw, 128)
    } else {
        0
    }
}

/// Bytes of an inode behind its first 128 that hold further fields.
pub fn extra_size(raw: &[u8], inode_size: usize) -> (extra: u16)
    requires
        inode_size > 128 ==> raw@.len() >= 130,
    ensures
        extra == extra_bytes(raw@, inode_size as nat),
{
    if inode_size > 128 {
        bytes::read16(raw, 128)
    } else {
        0
    }
}

/// Bytes without the zeroes they close with.
pub open spec fn without_zeroes(s: Seq<u8>) -> Seq<u8>
    decreases s.len(),
{
    if s.len() > 0 && s.last() == 0 {
        without_zeroes(s.drop_last())
    } else {
        s
    }
}

/// The bytes of an inode behind all its fields, where attributes are kept,
/// without the zeroes they close with.
pub fn attribute_area(raw: &[u8], inode_size: usize, extra: u16) -> (tail: Vec<u8>)
    requires
        128 + extra <= inode_size <= raw@.len(),
    ensures
        tail@ == without_zeroes(raw@.subrange(128 + extra, inode_size as int)),
{
    let from: usize = 128 + extra as usize;
    let mut to: usize = inode_size;
    while to > from && raw[to - 1] == 0
        invariant
            from <= to <= raw@.len(),
            without_zeroes(raw@.subrange(from as int, inode_size as int)) == without_zeroes(
                raw@.subrange(from as int, to as int),
            ),
        decreases to,
    {
        assert(raw@.subrange(from as int, to as int).drop_last() =~= raw@.subrange(
            from as int,
            to - 1,
        ));
        to -= 1;
    }
    let tail: Vec<u8> = bytes::copy(vstd::slice::slice_subrange(raw, from, to));
    tail
}

/// What was set is what is read; other attributes keep their values.
pub proof fn law_get_after_set(
    attrs: Seq<(Seq<char>, Seq<u8>)>,
    name: Seq<char>,
    value: Seq<u8>,
    other: Seq<char>,
)
    ensures
        value_of(with_value(attrs, name, value), name) == Some(value),
        other != name ==> value_of(with_value(attrs, name, value), other) == value_of(
            attrs,
            other,
        ),
{
    let out = with_value(attrs, name, value);
    lemma_first_named(attrs, name, 0);
    lemma_is_first(out, name, 0, first_named(attrs, name, 0));
    if other != name {
        lemma_first_named(attrs, other, 0);
        let at = first_named(attrs, other, 0);
        lemma_is_first(out, other, 0, if at < attrs.len() {
            at
        } else {
            out.len() as int
        });
    }
}

/// What was removed is gone; other attributes keep their values.
pub proof fn law_get_after_remove(
    attrs: Seq<(Seq<char>, Seq<u8>)>,
    name: Seq<char>,
    other: Seq<char>,
)
    ensures
        value_of(without_name(attrs, name), name) is None,
        other != name ==> value_of(without_name(attrs, name), other) == value_of(attrs, other),
    decreases attrs.len(),
{
    let out = without_name(attrs, name);
    if attrs.len() == 0 {
    } else {
        let front = attrs.drop_last();
        let before = without_name(front, name);
        law_get_after_remove(front, name, other);
        lemma_value_of_pushed(front, attrs.last(), other);
        assert(front.push(attrs.last()) =~= attrs);
        if attrs.last().0 != name {
            lemma_value_of_pushed(before, attrs.last(), other);
            lemma_value_of_pushed(before, attrs.last(), name);
        }
    }
}

/// One more attribute at the end counts only if there is none of its name.
proof fn lemma_value_of_pushed(
    attrs: Seq<(Seq<char>, Seq<u8>)>,
    x: (Seq<char>, Seq<u8>),
    name: Seq<char>,
)
    ensures
        value_of(attrs.push(x), name) == (if value_of(attrs, name) is Some {
            value_of(attrs, name)
        } else if x.0 == name {
            Some(x.1)
        } else {
            None
        }),
{
    lemma_first_named(attrs, name, 0);
    let at = first_named(attrs, name, 0);
    if at < attrs.len() {
        lemma_is_first(attrs.push(x), name, 0, at);
    } else if x.0 == name {
        lemma_is_first(attrs.push(x), name, 0, attrs.len() as int);
    } else {
        lemma_is_first(attrs.push(x), name, 0, attrs.push(x).len() as int);
    }
}

/// Setting an attribute twice is setting it once, to the later value.
pub proof fn law_set_replaces(
    attrs: Seq<(Seq<char>, Seq<u8>)>,
    name: Seq<char>,
    first: Seq<u8>,
    second: Seq<u8>,
)
    ensures
        with_value(with_value(attrs, name, first), name, second) == with_value(
            attrs,
            name,
            second,
        ),
{
    let once = with_value(attrs, name, first);
    lemma_first_named(attrs, name, 0);
    lemma_is_first(once, name, 0, first_named(attrs, name, 0));
    assert(with_value(once, name, second) =~= with_value(attrs, name, second));
}

/// Whether an inode counts every block that it has: `n` of contents and of the
/// map to them, and one of attributes if there is one.
pub open spec fn counts_blocks(inode: Inode, n: nat, block_size: u32) -> bool {
    inode.blocks == n * (block_size / 512) as nat + inode.attribute_blocks(block_size)
}

/// An inode counts every block that it has, whatever is done with it: when its
/// contents are written or given back, and when its attributes are.
pub proof fn law_blocks_stay_counted(
    inode: Inode,
    n: nat,
    size: u64,
    blocks: nat,
    meta: nat,
    attributes: Option<u64>,
    block_size: u32,
    now: u32,
)
    requires
        counts_blocks(inode, n, block_size),
        (blocks + meta) * (block_size / 512) as nat + inode.attribute_blocks(block_size)
            <= u64::MAX,
        inode.blocks + block_size / 512 <= u64::MAX,
        attributes != Some(0u64),
    ensures
        counts_blocks(
            inode.with_contents(size, blocks, meta, block_size, now),
            blocks + meta,
            block_size,
        ),
        counts_blocks(inode.emptied(block_size, now), 0, block_size),
        counts_blocks(with_attributes(inode, attributes, block_size, now), n, block_size),
        counts_blocks(inode.without_acl(block_size), n, block_size),
{
}

/// An inode's count of blocks moves with its block of attributes: taking one
/// and giving it back leaves the count where it was.
pub proof fn law_attribute_block_is_counted(inode: Inode, block: u64, block_size: u32, now: u32)
    requires
        inode.file_acl == 0,
        block != 0,
        inode.blocks + block_size / 512 <= u64::MAX,
    ensures
        with_attributes(
            with_attributes(inode, Some(block), block_size, now),
            None,
            block_size,
            now,
        ) == (Inode { ctime: now, ..inode }),
{
}

/// Attributes that fit stay in the inode, and a block that held them is given
/// back; those that do not go to the block there is, or to a new one.
pub proof fn law_attributes_are_placed(inode: Inode)
    ensures
        inode.file_acl == 0 ==> placement(inode, true) == (Placement::Inode { free: None }),
        inode.file_acl != 0 ==> placement(inode, true) == (Placement::Inode {
            free: Some(inode.file_acl),
        }),
        inode.file_acl != 0 ==> placement(inode, false) == Placement::Block(inode.file_acl),
        inode.file_acl == 0 ==> placement(inode, false) == Placement::NewBlock,
{
}

/// Writing attributes changes the inode's block of attributes, its count of
/// blocks with it, and the time of its last change; the rest of it stays.
pub proof fn law_attributes_leave_the_rest_alone(
    inode: Inode,
    block: Option<u64>,
    block_size: u32,
    now: u32,
)
    requires
        block_size % 512 == 0,
        inode.blocks * 512 + block_size <= u64::MAX,
        inode.file_acl != 0 ==> inode.blocks * 512 >= block_size,
    ensures
        ({
            let r = with_attributes(inode, block, block_size, now);
            &&& block is None ==> r.file_acl == 0
            &&& block is Some && inode.file_acl != 0 ==> r.file_acl == inode.file_acl && r.blocks
                == inode.blocks
            &&& block is Some && inode.file_acl == 0 ==> r.file_acl == block->0 && r.blocks * 512
                == inode.blocks * 512 + block_size
            &&& block is None && inode.file_acl != 0 ==> r.blocks * 512 == inode.blocks * 512
                - block_size
            &&& block is None && inode.file_acl == 0 ==> r.blocks == inode.blocks
            &&& r.ctime == now
            &&& r.size == inode.size
            &&& r.mode == inode.mode
            &&& r.uid == inode.uid
            &&& r.gid == inode.gid
            &&& r.links_count == inode.links_count
            &&& r.flags == inode.flags
            &&& r.generation == inode.generation
            &&& r.atime == inode.atime
            &&& r.mtime == inode.mtime
            &&& r.crtime == inode.crtime
            &&& r.dtime == inode.dtime
        }),
{
}

/// Setting an attribute keeps every other where it is; a new one comes last.
pub proof fn law_set_keeps_the_others_in_place(
    attrs: Seq<(Seq<char>, Seq<u8>)>,
    name: Seq<char>,
    value: Seq<u8>,
    i: int,
)
    requires
        0 <= i < attrs.len(),
    ensures
        ({
            let out = with_value(attrs, name, value);
            &&& attrs[i].0 != name ==> out[i] == attrs[i]
            &&& out[i].0 == attrs[i].0
            &&& (exists|k: int| 0 <= k < attrs.len() && (#[trigger] attrs[k]).0 == name) ==> out.len()
                == attrs.len()
            &&& (forall|k: int| 0 <= k < attrs.len() ==> (#[trigger] attrs[k]).0 != name) ==> out
                == attrs.push((name, value))
        }),
{
    lemma_first_named(attrs, name, 0);
}

/// Only the zeroes at the end are left out of what follows an inode's fields.
pub proof fn law_only_closing_zeroes_go(s: Seq<u8>)
    ensures
        ({
            let out = without_zeroes(s);
            &&& out.len() <= s.len()
            &&& out == s.take(out.len() as int)
            &&& out.len() > 0 ==> out.last() != 0
            &&& forall|i: int| out.len() <= i < s.len() ==> #[trigger] s[i] == 0
        }),
    decreases s.len(),
{
    if s.len() > 0 && s.last() == 0 {
        law_only_closing_zeroes_go(s.drop_last());
        let out = without_zeroes(s);
        assert(s.drop_last().take(out.len() as int) =~= s.take(out.len() as int));
        assert forall|i: int| out.len() <= i < s.len() implies #[trigger] s[i] == 0 by {
            if i < s.len() - 1 {
                assert(s.drop_last()[i] == 0);
            }
        }
    } else {
        assert(s.take(s.len() as int) =~= s);
    }
}

/// How far an inode's fields reach behind the first 128 bytes stands there, low
/// byte first; a smaller inode has none.
pub proof fn law_extra_fields_are_counted(raw: Seq<u8>, inode_size: nat)
    requires
        raw.len() >= 130,
    ensures
        inode_size > 128 ==> extra_bytes(raw, inode_size) == raw[128] + 256 * raw[129],
        inode_size <= 128 ==> extra_bytes(raw, inode_size) == 0,
{
}

} // verus!
