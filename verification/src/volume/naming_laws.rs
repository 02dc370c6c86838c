//! What entering a name and taking one out come to, for a directory as a
//! whole.

use vstd::prelude::*;

use crate::blockmap::HOLE;
use crate::dir::{self, Found, Room};
use crate::dir_laws;
use crate::volume::naming::{self, Ends};

verus! {

/// Whether the blocks of a directory are unbroken chains, no two the same.
pub open spec fn sound_directory(
    list: Seq<u64>,
    disk: Map<u64, Seq<u8>>,
    block_size: nat,
    with_tail: bool,
) -> bool {
    &&& dir::limit_of(block_size, with_tail) <= u16::MAX
    &&& with_tail ==> block_size >= 12
    &&& forall|k: int|
        0 <= k < list.len() && #[trigger] list[k] != HOLE ==> {
            &&& disk[list[k]].len() == block_size
            &&& dir_laws::intact(disk[list[k]], 0, dir::limit_of(block_size, with_tail))
        }
    &&& forall|j: int, k: int|
        #![trigger list[j], list[k]]
        0 <= j < k < list.len() && list[j] != HOLE ==> list[j] != list[k]
}

/// Whether a live entry of a block has a name.
pub open spec fn block_has(block: Seq<u8>, limit: int, name: Seq<u8>) -> bool {
    exists|i: int|
        0 <= i < dir_laws::live(block, 0, limit).len() && (#[trigger] dir_laws::live(
            block,
            0,
            limit,
        )[i]).1 == name
}

/// Whether a directory holds a name.
pub open spec fn holds(
    list: Seq<u64>,
    disk: Map<u64, Seq<u8>>,
    at: int,
    name: Seq<u8>,
    limit: int,
) -> bool {
    exists|k: int|
        at <= k < list.len() && #[trigger] list[k] != HOLE && block_has(
            disk[list[k]],
            limit,
            name,
        )
}

/// Looking for a name finds it exactly when the directory holds it, and a
/// sound directory is never reported malformed.
pub proof fn law_search_finds_what_is_held(
    list: Seq<u64>,
    disk: Map<u64, Seq<u8>>,
    at: int,
    name: Seq<u8>,
    block_size: nat,
    with_tail: bool,
)
    requires
        sound_directory(list, disk, block_size, with_tail),
        0 <= at <= list.len(),
    ensures
        ({
            let limit = dir::limit_of(block_size, with_tail);
            match naming::name_in(list, disk, at, name, with_tail) {
                Ends::At(k) => {
                    &&& at <= k < list.len()
                    &&& list[k] != HOLE
                    &&& block_has(disk[list[k]], limit, name)
                },
                Ends::Malformed(_) => false,
                Ends::Nowhere => !holds(list, disk, at, name, limit),
            }
        }),
    decreases list.len() - at,
{
    let limit = dir::limit_of(block_size, with_tail);
    if at < list.len() {
        law_search_finds_what_is_held(list, disk, at + 1, name, block_size, with_tail);
        if list[at] != HOLE {
            dir_laws::law_found_when_live(disk[list[at]], 0, None, limit, name);
        }
        if naming::name_in(list, disk, at, name, with_tail) is Nowhere {
            assert forall|k: int| at <= k < list.len() && #[trigger] list[k] != HOLE implies !(
            block_has(disk[list[k]], limit, name)) by {
                if k > at {
                    assert(!holds(list, disk, at + 1, name, limit));
                }
            }
        }
    }
}

/// A name goes into the first block that has room for it.
pub proof fn law_name_goes_to_the_first_room(
    list: Seq<u64>,
    disk: Map<u64, Seq<u8>>,
    at: int,
    need: int,
    with_tail: bool,
    k: int,
)
    requires
        0 <= at,
        naming::room_in(list, disk, at, need, with_tail) == Ends::At(k),
    ensures
        at <= k < list.len(),
        list[k] != HOLE,
        dir::room_from(
            disk[list[k]],
            0,
            dir::limit_of(disk[list[k]].len(), with_tail),
            need,
        ) is At,
        forall|j: int|
            at <= j < k && #[trigger] list[j] != HOLE ==> dir::room_from(
                disk[list[j]],
                0,
                dir::limit_of(disk[list[j]].len(), with_tail),
                need,
            ) is Nowhere,
    decreases list.len() - at,
{
    if at < list.len() {
        if list[at] == HOLE {
            law_name_goes_to_the_first_room(list, disk, at + 1, need, with_tail, k);
        } else {
            let block = disk[list[at]];
            let room = dir::room_from(block, 0, dir::limit_of(block.len(), with_tail), need);
            if room is Nowhere {
                law_name_goes_to_the_first_room(list, disk, at + 1, need, with_tail, k);
            }
        }
    }
}

/// What is on a device once a name has been entered into block `k` of a
/// directory, where there is room for it.
pub open spec fn entered(
    list: Seq<u64>,
    disk: Map<u64, Seq<u8>>,
    k: int,
    inum: u32,
    name: Seq<u8>,
    file_type: u8,
    with_tail: bool,
) -> Map<u64, Seq<u8>> {
    let block = disk[list[k]];
    let limit = dir::limit_of(block.len(), with_tail);
    match dir::room_from(block, 0, limit, dir::span(name.len()) as int) {
        Room::At(at, in_use, slack) => disk.insert(
            list[k],
            dir::with_entry(block, at, in_use, slack, inum, name, file_type),
        ),
        _ => disk,
    }
}

/// A name entered is held from then on, and so is every name that was held
/// before, and no other; the directory stays sound.
pub proof fn law_entered_name_is_held(
    list: Seq<u64>,
    disk: Map<u64, Seq<u8>>,
    k: int,
    inum: u32,
    name: Seq<u8>,
    file_type: u8,
    block_size: nat,
    with_tail: bool,
    other: Seq<u8>,
)
    requires
        sound_directory(list, disk, block_size, with_tail),
        0 < name.len() <= 255,
        inum != 0,
        naming::room_in(list, disk, 0, dir::span(name.len()) as int, with_tail) == Ends::At(k),
    ensures
        ({
            let limit = dir::limit_of(block_size, with_tail);
            let after = entered(list, disk, k, inum, name, file_type, with_tail);
            &&& sound_directory(list, after, block_size, with_tail)
            &&& holds(list, after, 0, name, limit)
            &&& other != name ==> holds(list, after, 0, other, limit) == holds(
                list,
                disk,
                0,
                other,
                limit,
            )
        }),
{
    let limit = dir::limit_of(block_size, with_tail);
    law_name_goes_to_the_first_room(list, disk, 0, dir::span(name.len()) as int, with_tail, k);
    let block = disk[list[k]];
    let after = entered(list, disk, k, inum, name, file_type, with_tail);
    dir_laws::law_insert_adds_one(block, limit, inum, name, file_type);
    if let Room::At(p, u, s) = dir::room_from(block, 0, limit, dir::span(name.len()) as int) {
        let new = dir::with_entry(block, p, u, s, inum, name, file_type);
        let old_live = dir_laws::live(block, 0, limit);
        let new_live = dir_laws::live(new, 0, limit);
        let x = (inum, name, file_type);
        let i = choose|i: int|
            0 <= i <= old_live.len() && #[trigger] old_live.insert(i, x) == new_live;
        assert(new_live[i] == x);
        assert(block_has(new, limit, name));
        assert(other != name ==> block_has(new, limit, other) == block_has(block, limit, other))
            by {
            if block_has(block, limit, other) {
                let j = choose|j: int|
                    0 <= j < old_live.len() && (#[trigger] old_live[j]).1 == other;
                let m = if j < i {
                    j
                } else {
                    j + 1
                };
                assert(new_live[m] == old_live[j]);
            }
            if block_has(new, limit, other) && other != name {
                let m = choose|m: int|
                    0 <= m < new_live.len() && (#[trigger] new_live[m]).1 == other;
                assert(m != i);
                let j = if m < i {
                    m
                } else {
                    m - 1
                };
                assert(new_live[m] == old_live[j]);
            }
        }
        assert(new.len() == block.len());
        lemma_changed_block(list, disk, after, k, block_size, with_tail, new, name);
        lemma_changed_block(list, disk, after, k, block_size, with_tail, new, other);
    }
}

/// Changing one block of a directory changes what it holds by what that block
/// holds.
proof fn lemma_changed_block(
    list: Seq<u64>,
    disk: Map<u64, Seq<u8>>,
    after: Map<u64, Seq<u8>>,
    k: int,
    block_size: nat,
    with_tail: bool,
    new: Seq<u8>,
    name: Seq<u8>,
)
    requires
        sound_directory(list, disk, block_size, with_tail),
        0 <= k < list.len(),
        list[k] != HOLE,
        after == disk.insert(list[k], new),
        new.len() == block_size,
        dir_laws::intact(new, 0, dir::limit_of(block_size, with_tail)),
    ensures
        sound_directory(list, after, block_size, with_tail),
        ({
            let limit = dir::limit_of(block_size, with_tail);
            &&& block_has(new, limit, name) ==> holds(list, after, 0, name, limit)
            &&& block_has(new, limit, name) == block_has(disk[list[k]], limit, name) ==> holds(
                list,
                after,
                0,
                name,
                limit,
            ) == holds(list, disk, 0, name, limit)
            &&& !block_has(new, limit, name) ==> (holds(list, after, 0, name, limit) ==> exists|
                j: int,
            |
                0 <= j < list.len() && j != k && #[trigger] list[j] != HOLE && block_has(
                    disk[list[j]],
                    limit,
                    name,
                ))
        }),
{
    let limit = dir::limit_of(block_size, with_tail);
    assert forall|j: int| 0 <= j < list.len() && j != k && #[trigger] list[j] != HOLE implies after[
    list[j]] == disk[list[j]] by {
        assert(list[j] != list[k]);
    }
    assert(after[list[k]] == new);
    if block_has(new, limit, name) {
        assert(holds(list, after, 0, name, limit));
    }
    if block_has(new, limit, name) == block_has(disk[list[k]], limit, name) {
        if holds(list, disk, 0, name, limit) {
            let j = choose|j: int|
                0 <= j < list.len() && #[trigger] list[j] != HOLE && block_has(
                    disk[list[j]],
                    limit,
                    name,
                );
            assert(block_has(after[list[j]], limit, name));
        }
        if holds(list, after, 0, name, limit) {
            let j = choose|j: int|
                0 <= j < list.len() && #[trigger] list[j] != HOLE && block_has(
                    after[list[j]],
                    limit,
                    name,
                );
            assert(block_has(disk[list[j]], limit, name));
        }
    }
    if !block_has(new, limit, name) && holds(list, after, 0, name, limit) {
        let j = choose|j: int|
            0 <= j < list.len() && #[trigger] list[j] != HOLE && block_has(
                after[list[j]],
                limit,
                name,
            );
        assert(j != k);
        assert(block_has(disk[list[j]], limit, name));
    }
}

/// What is on a device once a name has been taken out of block `k` of a
/// directory, where it is found.
pub open spec fn taken_out(
    list: Seq<u64>,
    disk: Map<u64, Seq<u8>>,
    k: int,
    name: Seq<u8>,
    with_tail: bool,
) -> Map<u64, Seq<u8>> {
    let block = disk[list[k]];
    let limit = dir::limit_of(block.len(), with_tail);
    match dir::find_from(block, 0, None, limit, name) {
        Found::At(at, prev) => disk.insert(list[k], dir::without_entry(block, at, prev)),
        _ => disk,
    }
}

/// Whether a name stands in a directory once at most.
pub open spec fn at_most_once(
    list: Seq<u64>,
    disk: Map<u64, Seq<u8>>,
    name: Seq<u8>,
    limit: int,
) -> bool {
    &&& forall|j: int, k: int|
        #![trigger list[j], list[k]]
        0 <= j < k < list.len() && list[j] != HOLE && list[k] != HOLE && block_has(
            disk[list[j]],
            limit,
            name,
        ) ==> !block_has(disk[list[k]], limit, name)
    &&& forall|k: int, a: int, b: int|
        #![trigger dir_laws::live(disk[list[k]], 0, limit)[a],
            dir_laws::live(disk[list[k]], 0, limit)[b]]
        0 <= k < list.len() && list[k] != HOLE && 0 <= a < b < dir_laws::live(
            disk[list[k]],
            0,
            limit,
        ).len() && dir_laws::live(disk[list[k]], 0, limit)[a].1 == name ==> dir_laws::live(
            disk[list[k]],
            0,
            limit,
        )[b].1 != name
}

/// A name taken out is gone, and every other name stays; the directory stays
/// sound.
pub proof fn law_taken_out_name_is_gone(
    list: Seq<u64>,
    disk: Map<u64, Seq<u8>>,
    k: int,
    name: Seq<u8>,
    block_size: nat,
    with_tail: bool,
    other: Seq<u8>,
)
    requires
        sound_directory(list, disk, block_size, with_tail),
        at_most_once(list, disk, name, dir::limit_of(block_size, with_tail)),
        naming::name_in(list, disk, 0, name, with_tail) == Ends::At(k),
    ensures
        ({
            let limit = dir::limit_of(block_size, with_tail);
            let after = taken_out(list, disk, k, name, with_tail);
            &&& sound_directory(list, after, block_size, with_tail)
            &&& !holds(list, after, 0, name, limit)
            &&& other != name ==> holds(list, after, 0, other, limit) == holds(
                list,
                disk,
                0,
                other,
                limit,
            )
        }),
{
    let limit = dir::limit_of(block_size, with_tail);
    law_search_finds_what_is_held(list, disk, 0, name, block_size, with_tail);
    let block = disk[list[k]];
    let after = taken_out(list, disk, k, name, with_tail);
    dir_laws::law_found_when_live(block, 0, None, limit, name);
    dir_laws::law_remove_takes_one(block, limit, name);
    if let Found::At(p, prev) = dir::find_from(block, 0, None, limit, name) {
        let new = dir::without_entry(block, p, prev);
        let old_live = dir_laws::live(block, 0, limit);
        let new_live = dir_laws::live(new, 0, limit);
        let i = choose|i: int|
            0 <= i < old_live.len() && (#[trigger] old_live[i]).1 == name && new_live
                == old_live.remove(i);
        assert(!block_has(new, limit, name)) by {
            if block_has(new, limit, name) {
                let m = choose|m: int|
                    0 <= m < new_live.len() && (#[trigger] new_live[m]).1 == name;
                let j = if m < i {
                    m
                } else {
                    m + 1
                };
                assert(new_live[m] == old_live[j]);
                assert(dir_laws::live(disk[list[k]], 0, limit)[i].1 == name);
                assert(dir_laws::live(disk[list[k]], 0, limit)[j].1 == name);
            }
        }
        assert(other != name ==> block_has(new, limit, other) == block_has(block, limit, other))
            by {
            if block_has(block, limit, other) && other != name {
                let j = choose|j: int|
                    0 <= j < old_live.len() && (#[trigger] old_live[j]).1 == other;
                let m = if j < i {
                    j
                } else {
                    j - 1
                };
                assert(new_live[m] == old_live[j]);
            }
            if block_has(new, limit, other) {
                let m = choose|m: int|
                    0 <= m < new_live.len() && (#[trigger] new_live[m]).1 == other;
                let j = if m < i {
                    m
                } else {
                    m + 1
                };
                assert(new_live[m] == old_live[j]);
            }
        }
        assert(new.len() == block.len());
        lemma_changed_block(list, disk, after, k, block_size, with_tail, new, name);
        lemma_changed_block(list, disk, after, k, block_size, with_tail, new, other);
    }
}

/// A name is good if it has at least one byte and at most 255, and no separator
/// among them.
pub proof fn law_good_names_have_no_separator(name: Seq<u8>)
    ensures
        naming::good_name(name) <==> 1 <= name.len() <= 255 && (forall|i: int|
            0 <= i < name.len() ==> #[trigger] name[i] != 47),
{
    if naming::good_name(name) {
        assert forall|i: int| 0 <= i < name.len() implies #[trigger] name[i] != 47 by {
            assert(name.contains(name[i]));
        }
    }
}

/// No room is found only where no block of the directory has any.
pub proof fn law_no_room_means_none_anywhere(
    list: Seq<u64>,
    disk: Map<u64, Seq<u8>>,
    at: int,
    need: int,
    with_tail: bool,
)
    requires
        0 <= at,
        naming::room_in(list, disk, at, need, with_tail) is Nowhere,
    ensures
        forall|j: int|
            at <= j < list.len() && #[trigger] list[j] != HOLE ==> dir::room_from(
                disk[list[j]],
                0,
                dir::limit_of(disk[list[j]].len(), with_tail),
                need,
            ) is Nowhere,
    decreases list.len() - at,
{
    if at < list.len() {
        law_no_room_means_none_anywhere(list, disk, at + 1, need, with_tail);
    }
}

/// The `..` that is pointed elsewhere is the first one of the directory, and none
/// is found only where no block has one.
pub proof fn law_first_dotdot_is_found(
    list: Seq<u64>,
    disk: Map<u64, Seq<u8>>,
    at: int,
    with_tail: bool,
)
    requires
        0 <= at,
    ensures
        match naming::dotdot_in(list, disk, at, with_tail) {
            Ends::At(k) => {
                &&& at <= k < list.len()
                &&& list[k] != HOLE
                &&& dotdot_of(disk[list[k]], with_tail) is At
                &&& forall|j: int|
                    at <= j < k && #[trigger] list[j] != HOLE ==> dotdot_of(
                        disk[list[j]],
                        with_tail,
                    ) is Nowhere
            },
            Ends::Malformed(k) => at <= k < list.len() && dotdot_of(
                disk[list[k]],
                with_tail,
            ) is Malformed,
            Ends::Nowhere => forall|j: int|
                at <= j < list.len() && #[trigger] list[j] != HOLE ==> dotdot_of(
                    disk[list[j]],
                    with_tail,
                ) is Nowhere,
        },
    decreases list.len() - at,
{
    if at < list.len() {
        law_first_dotdot_is_found(list, disk, at + 1, with_tail);
    }
}

/// Where a block has a `..`.
pub open spec fn dotdot_of(block: Seq<u8>, with_tail: bool) -> Found {
    dir::dotdot_from(block, 0, dir::limit_of(block.len(), with_tail))
}

/// A directory with an index is tried at its first block alone, and any other at
/// all of its blocks.
pub proof fn law_indexed_directories_are_tried_at_the_root(list: Seq<u64>)
    ensures
        naming::blocks_to_try(list, false) == list,
        list.len() > 1 ==> naming::blocks_to_try(list, true) == seq![list[0]],
        list.len() <= 1 ==> naming::blocks_to_try(list, true) == list,
{
    if list.len() > 1 {
        assert(list.take(1) =~= seq![list[0]]);
    }
}

} // verus!
