//! Laws that tie the components together, stated over the same spec
//! functions the public contracts use.

use vstd::prelude::*;

use crate::digits::spec_width;
use crate::engine::{
    lemma_insert_sorted_at, lemma_spec_sort_len, lemma_spec_sort_membership, sorted_by_key,
    spec_intents, spec_new_name, spec_sort, EntryModel,
};
use crate::extract::{is_residual, lemma_extract_new_name, spec_extract};
use crate::keys::{key_le, key_lt};

verus! {

/// A weakly key-sorted sequence is already its own stable sort.
pub proof fn lemma_sort_of_sorted(s: Seq<EntryModel>)
    requires
        sorted_by_key(s),
    ensures
        spec_sort(s) == s,
    decreases s.len(),
{
    if s.len() == 0 {
        assert(spec_sort(s) =~= s);
    } else {
        let front = s.drop_last();
        let e = s.last();
        assert(sorted_by_key(front)) by {
            assert(forall|i: int| 0 <= i < front.len() ==> #[trigger] front[i] == s[i]);
        }
        lemma_sort_of_sorted(front);
        assert forall|m: int| 0 <= m < front.len() implies !key_lt(
            e.key,
            #[trigger] front[m].key,
        ) by {
            assert(front[m] == s[m]);
            assert(key_le(s[m].key, e.key));
        }
        lemma_insert_sorted_at(e, front, front.len() as int);
        assert(front.insert(front.len() as int, e) =~= s);
    }
}

/// The directory as one run of the engine leaves it, read back in the
/// order the run wrote it: each entry carries the new name as its
/// filename, its rank as its one-component key, and its residual
/// unchanged.
pub open spec fn renamed_listing(s: Seq<EntryModel>, min_width: nat) -> Seq<EntryModel> {
    let ints = spec_intents(s, min_width);
    Seq::new(
        ints.len(),
        |i: int|
            EntryModel {
                original: ints[i].new_name,
                key: seq![i as u32],
                residual: spec_sort(s)[i].residual,
            },
    )
}

/// Idempotence of the engine: every filename the engine writes parses
/// back to its rank as a one-component key with its residual unchanged,
/// and a second run over the renamed directory, under the same
/// configuration, gives every entry the name it already has — zero
/// further renames. Ranks must fit in a key component (`u32`) for the
/// names to parse back exactly.
pub proof fn lemma_engine_idempotent(s: Seq<EntryModel>, min_width: nat)
    requires
        forall|i: int| 0 <= i < s.len() ==> is_residual(#[trigger] s[i].residual),
        s.len() <= u32::MAX,
    ensures
        forall|i: int|
            0 <= i < spec_intents(s, min_width).len() ==> spec_extract(
                #[trigger] spec_intents(s, min_width)[i].new_name,
            ) == Some((seq![i as u32], spec_sort(s)[i].residual)),
        spec_intents(renamed_listing(s, min_width), min_width).len() == spec_intents(
            s,
            min_width,
        ).len(),
        forall|i: int|
            0 <= i < spec_intents(renamed_listing(s, min_width), min_width).len()
                ==> #[trigger] spec_intents(renamed_listing(s, min_width), min_width)[i].new_name
                == spec_intents(renamed_listing(s, min_width), min_width)[i].original,
{
    let n = s.len() as int;
    let ints = spec_intents(s, min_width);
    let w = spec_width(s.len(), min_width);
    lemma_spec_sort_len(s);
    let sorted = spec_sort(s);
    assert(ints.len() == n);

    assert forall|i: int| 0 <= i < n implies spec_extract(#[trigger] ints[i].new_name) == Some(
        (seq![i as u32], sorted[i].residual),
    ) by {
        lemma_spec_sort_membership(s, i);
        let j = choose|j: int| 0 <= j < s.len() && #[trigger] s[j] == sorted[i];
        assert(is_residual(s[j].residual));
        assert(is_residual(sorted[i].residual));
        lemma_extract_new_name(i, w as int, sorted[i].residual);
        assert(ints[i].new_name == spec_new_name(i, w as int, sorted[i].residual));
    }

    let s2 = renamed_listing(s, min_width);
    assert(s2.len() == n);
    assert(sorted_by_key(s2)) by {
        assert forall|i: int, j: int| 0 <= i < j < s2.len() implies key_le(
            #[trigger] s2[i].key,
            #[trigger] s2[j].key,
        ) by {
            assert(s2[i].key == seq![i as u32]);
            assert(s2[j].key == seq![j as u32]);
            assert(seq![i as u32].len() == 1);
            assert(seq![j as u32].len() == 1);
            assert(seq![i as u32][0] == i as u32);
            assert(seq![j as u32][0] == j as u32);
            assert((j as u32) > (i as u32));
            assert(!key_lt(seq![j as u32], seq![i as u32]));
        }
    }
    lemma_sort_of_sorted(s2);
    lemma_spec_sort_len(s2);
    let ints2 = spec_intents(s2, min_width);
    assert(ints2.len() == n);
    assert forall|i: int| 0 <= i < ints2.len() implies #[trigger] ints2[i].new_name
        == ints2[i].original by {
        assert(spec_sort(s2) == s2);
        assert(ints2[i].original == s2[i].original);
        assert(ints2[i].new_name == spec_new_name(
            i,
            spec_width(s2.len(), min_width) as int,
            spec_sort(s2)[i].residual,
        ));
        assert(spec_sort(s2)[i].residual == sorted[i].residual);
        assert(s2[i].original == ints[i].new_name);
        assert(ints[i].new_name == spec_new_name(i, w as int, sorted[i].residual));
        assert(spec_width(s2.len(), min_width) == w);
    }
}

} // verus!
