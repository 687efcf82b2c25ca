//! The engine's laws, stated and proved once over the specifications that
//! the executable functions are verified against.
use vstd::prelude::*;
use crate::edits::{filter_hash, lookup_or_empty, remove_hash_from_group};
use crate::groups::StoreRootV;
use crate::hashing::command_hash;
use crate::model::ResolvedCommandV;
use crate::resolver::{find_spec, is_index_id, lemma_first_match_skip, resolve_spec};
use crate::store::{
    lemma_lookup_names, lemma_lookup_remove, lookup, names_of, remove_file, store_wf, GroupFileV,
};
use crate::text::{dec_str, lemma_dec_str_digits, lemma_parse_dec_str};

verus! {

/// Law: the derived hash is a deterministic pure function of the command
/// text alone — re-deriving it from identical text yields the identical
/// hash, in any invocation.
pub proof fn lemma_hash_deterministic(t1: Seq<char>, t2: Seq<char>)
    requires
        t1 == t2,
    ensures
        command_hash(t1) == command_hash(t2),
{
}

/// Law: resolution is order-stable within one invocation — two resolutions
/// of the same stores assign identical entries and identical indices.
pub proof fn lemma_resolve_stable(
    roots: Seq<StoreRootV>,
    r1: Seq<ResolvedCommandV>,
    r2: Seq<ResolvedCommandV>,
)
    requires
        r1 == resolve_spec(roots),
        r2 == resolve_spec(roots),
    ensures
        r1 == r2,
{
}

/// Law: the merged listing assigns every entry its 1-based position as its
/// index.
pub proof fn lemma_indices_are_positions(roots: Seq<StoreRootV>, i: int)
    requires
        0 <= i < resolve_spec(roots).len(),
    ensures
        resolve_spec(roots)[i].index == i + 1,
{
}

/// Law (index round trip): for every entry of the merged listing, resolving
/// the decimal rendering of its index finds exactly that entry.
pub proof fn lemma_index_round_trip(roots: Seq<StoreRootV>, i: int)
    requires
        0 <= i < resolve_spec(roots).len(),
        resolve_spec(roots).len() <= usize::MAX,
    ensures
        find_spec(resolve_spec(roots), dec_str((i + 1) as nat)) == Option::Some(
            resolve_spec(roots)[i],
        ),
{
    let entries = resolve_spec(roots);
    let id = dec_str((i + 1) as nat);
    lemma_dec_str_digits((i + 1) as nat);
    lemma_parse_dec_str((i + 1) as nat);
    assert(is_index_id(id));
}

/// Law (hash round trip): resolving an entry's stored hash finds that entry,
/// provided the hash is not read as a position (it is not digits only) and
/// no earlier entry's hash opens with it — the first match in merge order
/// wins.
pub proof fn lemma_hash_round_trip(roots: Seq<StoreRootV>, i: int)
    requires
        0 <= i < resolve_spec(roots).len(),
        !is_index_id(resolve_spec(roots)[i].command.hash),
        forall|j: int|
            0 <= j < i ==> !resolve_spec(roots)[i].command.hash.is_prefix_of(
                (#[trigger] resolve_spec(roots)[j]).command.hash,
            ),
    ensures
        find_spec(resolve_spec(roots), resolve_spec(roots)[i].command.hash) == Option::Some(
            resolve_spec(roots)[i],
        ),
{
    let entries = resolve_spec(roots);
    let h = entries[i].command.hash;
    lemma_first_match_skip(entries, h, i);
    assert(entries.skip(i)[0] == entries[i]);
    assert(h.is_prefix_of(h)) by {
        assert(h =~= h.subrange(0, h.len() as int));
    }
}

/// Law: removing the last command of a group removes the group's file
/// entirely — the group is absent from the store and from a subsequent
/// listing of group names.
pub proof fn lemma_remove_last_command_drops_group(files: Seq<GroupFileV>, e: ResolvedCommandV)
    requires
        store_wf(files),
        filter_hash(lookup_or_empty(files, e.group), e.command.hash).len() == 0,
    ensures
        lookup(remove_hash_from_group(files, e.group, e.command.hash), e.group) is None,
        !names_of(remove_hash_from_group(files, e.group, e.command.hash)).contains(e.group),
{
    lemma_lookup_remove(files, e.group, e.group);
    lemma_lookup_names(remove_file(files, e.group), e.group);
}

} // verus!
