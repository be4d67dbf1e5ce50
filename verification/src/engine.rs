//! The reindexing engine: orders parsed entries by key with a stable
//! insertion sort, computes the padded index width, and emits one rename
//! intent per entry together with the action each intent calls for.

use vstd::prelude::*;

use crate::digits::{compute_width, spec_padded, spec_width, zero_pad};
use crate::extract::{extract_index_from_file_name, separator, spec_extract};
use crate::keys::{
    key_le, key_lt, lemma_key_lt_irreflexive, lemma_key_lt_transitive,
    lemma_proper_prefix_lt, is_proper_prefix, IndexedFileName, KeyOrder,
};

verus! {

/// The two options the tool runs under, fixed at start time.
pub struct Config {
    pub dry_run: bool,
    pub min_index_width: usize,
}

impl Default for Config {
    /// Renames are performed (not previewed) and indices are padded to at
    /// least two digits unless asked otherwise.
    fn default() -> (c: Config)
        ensures
            c.dry_run == false,
            c.min_index_width == 2,
    {
        Config { dry_run: false, min_index_width: 2 }
    }
}

/// A directory entry whose filename matched the `<index>-<name>`
/// convention: the full original filename (the handle a later rename
/// needs) and its parsed key and residual.
pub struct ParsedEntry {
    pub original: String,
    pub indexed: IndexedFileName,
}

/// The mathematical content of a parsed entry.
#[verifier::ext_equal]
pub ghost struct EntryModel {
    pub original: Seq<char>,
    pub key: Seq<u32>,
    pub residual: Seq<char>,
}

impl View for ParsedEntry {
    type V = EntryModel;

    open spec fn view(&self) -> EntryModel {
        EntryModel {
            original: self.original@,
            key: self.indexed.indices@,
            residual: self.indexed.name@,
        }
    }
}

/// The models of a sequence of parsed entries.
pub open spec fn models(s: Seq<ParsedEntry>) -> Seq<EntryModel> {
    s.map_values(|e: ParsedEntry| e@)
}

/// Parse one directory entry's filename, keeping the original name as the
/// handle for a later rename; `None` when it does not match the convention.
pub fn parse_entry(file_name: &str) -> (r: Option<ParsedEntry>)
    ensures
        match r {
            None => spec_extract(file_name@) is None,
            Some(e) => e@.original == file_name@ && spec_extract(file_name@) == Some(
                (e@.key, e@.residual),
            ),
        },
{
    match extract_index_from_file_name(file_name) {
        None => None,
        Some(indexed) => Some(ParsedEntry { original: file_name.to_owned(), indexed }),
    }
}

/// Insert an entry into an already key-sorted sequence, after every entry
/// whose key is not greater: the position that keeps a sort built this way
/// stable.
pub open spec fn insert_sorted(e: EntryModel, s: Seq<EntryModel>) -> Seq<EntryModel>
    decreases s.len(),
{
    if s.len() == 0 {
        seq![e]
    } else if key_lt(e.key, s[0].key) {
        seq![e] + s
    } else {
        seq![s[0]] + insert_sorted(e, s.drop_first())
    }
}

/// The stable sort of a sequence of entries by key: entries are inserted
/// left to right, each after all entries with a key not greater than its
/// own, so equal keys keep their input order.
pub open spec fn spec_sort(s: Seq<EntryModel>) -> Seq<EntryModel>
    decreases s.len(),
{
    if s.len() == 0 {
        Seq::empty()
    } else {
        insert_sorted(s.last(), spec_sort(s.drop_last()))
    }
}

/// Sortedness by key, weakly: no later entry's key is below an earlier one's.
pub open spec fn sorted_by_key(s: Seq<EntryModel>) -> bool {
    forall|i: int, j: int| 0 <= i < j < s.len() ==> key_le(#[trigger] s[i].key, #[trigger] s[j].key)
}

proof fn lemma_insert_sorted_len(e: EntryModel, s: Seq<EntryModel>)
    ensures
        insert_sorted(e, s).len() == s.len() + 1,
    decreases s.len(),
{
    if s.len() > 0 && !key_lt(e.key, s[0].key) {
        lemma_insert_sorted_len(e, s.drop_first());
    }
}

/// The sort neither drops nor invents entries: length is preserved.
pub proof fn lemma_spec_sort_len(s: Seq<EntryModel>)
    ensures
        spec_sort(s).len() == s.len(),
    decreases s.len(),
{
    if s.len() > 0 {
        lemma_spec_sort_len(s.drop_last());
        lemma_insert_sorted_len(s.last(), spec_sort(s.drop_last()));
    }
}

/// Where the insertion lands when the first `j` entries have keys not above
/// the new entry's and the entry at `j` (if any) has a key above it.
pub(crate) proof fn lemma_insert_sorted_at(e: EntryModel, s: Seq<EntryModel>, j: int)
    requires
        0 <= j <= s.len(),
        forall|m: int| 0 <= m < j ==> !key_lt(e.key, #[trigger] s[m].key),
        j < s.len() ==> key_lt(e.key, s[j].key),
    ensures
        insert_sorted(e, s) == s.insert(j, e),
    decreases j,
{
    if s.len() == 0 {
        assert(insert_sorted(e, s) =~= s.insert(0, e));
    } else if j == 0 {
        assert(key_lt(e.key, s[0].key));
        assert(seq![e] + s =~= s.insert(0, e));
    } else {
        assert(!key_lt(e.key, s[0].key));
        lemma_insert_sorted_at(e, s.drop_first(), j - 1);
        assert(seq![s[0]] + s.drop_first().insert(j - 1, e) =~= s.insert(j, e));
    }
}

/// Every entry of an insertion result is the inserted entry or one of the
/// sequence's own.
proof fn lemma_insert_sorted_membership(e: EntryModel, s: Seq<EntryModel>, i: int)
    requires
        0 <= i < insert_sorted(e, s).len(),
    ensures
        insert_sorted(e, s)[i] == e || exists|j: int|
            0 <= j < s.len() && s[j] == #[trigger] insert_sorted(e, s)[i],
    decreases s.len(),
{
    lemma_insert_sorted_len(e, s);
    if s.len() == 0 {
    } else if key_lt(e.key, s[0].key) {
        if i > 0 {
            assert(insert_sorted(e, s)[i] == s[i - 1]);
        }
    } else {
        if i == 0 {
            assert(insert_sorted(e, s)[0] == s[0]);
        } else {
            lemma_insert_sorted_membership(e, s.drop_first(), i - 1);
            assert(insert_sorted(e, s)[i] == insert_sorted(e, s.drop_first())[i - 1]);
            if insert_sorted(e, s.drop_first())[i - 1] != e {
                let j = choose|j: int|
                    0 <= j < s.drop_first().len() && s.drop_first()[j] == insert_sorted(
                        e,
                        s.drop_first(),
                    )[i - 1];
                assert(s[j + 1] == insert_sorted(e, s)[i]);
            }
        }
    }
}

/// Every entry of the sorted sequence is one of the input's.
pub proof fn lemma_spec_sort_membership(s: Seq<EntryModel>, i: int)
    requires
        0 <= i < spec_sort(s).len(),
    ensures
        exists|j: int| 0 <= j < s.len() && #[trigger] s[j] == spec_sort(s)[i],
    decreases s.len(),
{
    lemma_spec_sort_len(s);
    if s.len() > 0 {
        let front = s.drop_last();
        let sorted_front = spec_sort(front);
        lemma_spec_sort_len(front);
        lemma_insert_sorted_membership(s.last(), sorted_front, i);
        if spec_sort(s)[i] == s.last() {
            assert(s[s.len() - 1] == spec_sort(s)[i]);
        } else {
            let j = choose|j: int|
                0 <= j < sorted_front.len() && sorted_front[j] == spec_sort(s)[i];
            lemma_spec_sort_membership(front, j);
            let k = choose|k: int| 0 <= k < front.len() && front[k] == sorted_front[j];
            assert(s[k] == spec_sort(s)[i]);
        }
    }
}

/// Inserting into a key-sorted sequence keeps it key-sorted.
proof fn lemma_insert_sorted_sorted(e: EntryModel, s: Seq<EntryModel>)
    requires
        sorted_by_key(s),
    ensures
        sorted_by_key(insert_sorted(e, s)),
    decreases s.len(),
{
    let r = insert_sorted(e, s);
    lemma_insert_sorted_len(e, s);
    if s.len() == 0 {
    } else if key_lt(e.key, s[0].key) {
        assert forall|i: int, j: int| 0 <= i < j < r.len() implies key_le(r[i].key, r[j].key) by {
            if i == 0 {
                assert(r[0] == e);
                assert(r[j] == s[j - 1]);
                lemma_key_lt_irreflexive(s[j - 1].key);
                if key_lt(s[j - 1].key, e.key) {
                    lemma_key_lt_transitive(s[j - 1].key, e.key, s[0].key);
                    if j > 1 {
                        assert(key_le(s[0].key, s[j - 1].key));
                    }
                }
            } else {
                assert(r[i] == s[i - 1] && r[j] == s[j - 1]);
            }
        }
    } else {
        let tail = s.drop_first();
        assert(sorted_by_key(tail)) by {
            assert forall|i: int, j: int| 0 <= i < j < tail.len() implies key_le(
                tail[i].key,
                tail[j].key,
            ) by {
                assert(tail[i] == s[i + 1] && tail[j] == s[j + 1]);
            }
        }
        lemma_insert_sorted_sorted(e, tail);
        let rt = insert_sorted(e, tail);
        lemma_insert_sorted_len(e, tail);
        assert forall|i: int, j: int| 0 <= i < j < r.len() implies key_le(r[i].key, r[j].key) by {
            if i == 0 {
                assert(r[j] == rt[j - 1]);
                lemma_insert_sorted_membership(e, tail, j - 1);
                if rt[j - 1] == e {
                    assert(!key_lt(e.key, s[0].key));
                } else {
                    let m = choose|m: int| 0 <= m < tail.len() && tail[m] == rt[j - 1];
                    assert(tail[m] == s[m + 1]);
                    assert(key_le(s[0].key, s[m + 1].key));
                }
            } else {
                assert(r[i] == rt[i - 1] && r[j] == rt[j - 1]);
            }
        }
    }
}

/// The sorted sequence is key-sorted.
pub proof fn lemma_spec_sort_sorted(s: Seq<EntryModel>)
    ensures
        sorted_by_key(spec_sort(s)),
    decreases s.len(),
{
    if s.len() > 0 {
        lemma_spec_sort_sorted(s.drop_last());
        lemma_insert_sorted_sorted(s.last(), spec_sort(s.drop_last()));
    }
}

/// In the sorted order a key never stands after a proper prefix-extension
/// of itself: an entry whose key is a proper prefix of another's sorts
/// before it, whatever the components beyond the prefix.
pub proof fn lemma_sort_respects_prefix_order(s: Seq<EntryModel>, i: int, j: int)
    requires
        0 <= i < j < spec_sort(s).len(),
    ensures
        !is_proper_prefix(spec_sort(s)[j].key, spec_sort(s)[i].key),
{
    lemma_spec_sort_sorted(s);
    if is_proper_prefix(spec_sort(s)[j].key, spec_sort(s)[i].key) {
        lemma_proper_prefix_lt(spec_sort(s)[j].key, spec_sort(s)[i].key);
        assert(key_le(spec_sort(s)[i].key, spec_sort(s)[j].key));
    }
}

/// Insert one entry into the key-sorted vector at the stable position.
fn insert_entry(out: &mut Vec<ParsedEntry>, e: ParsedEntry)
    ensures
        models(final(out)@) == insert_sorted(e@, models(old(out)@)),
{
    let ghost s0 = models(out@);
    let mut j: usize = 0;
    while j < out.len() && e.indexed.cmp(&out[j].indexed) != KeyOrder::Less
        invariant
            s0 == models(out@),
            j <= out@.len(),
            forall|m: int| 0 <= m < j ==> !key_lt(e@.key, #[trigger] s0[m].key),
        decreases out@.len() - j,
    {
        proof {
            assert(s0[j as int].key == out@[j as int]@.key);
        }
        j = j + 1;
    }
    proof {
        if j < out@.len() {
            assert(s0[j as int].key == out@[j as int]@.key);
            assert(key_lt(e@.key, s0[j as int].key));
        }
        lemma_insert_sorted_at(e@, s0, j as int);
    }
    out.insert(j, e);
    proof {
        assert(models(out@) =~= s0.insert(j as int, e@));
    }
}

/// Sort the parsed entries by key, stably: the result is exactly the
/// insertion sort of the input, so equal keys keep the order the directory
/// listing supplied.
pub fn sort_entries(entries: Vec<ParsedEntry>) -> (r: Vec<ParsedEntry>)
    ensures
        models(r@) == spec_sort(models(entries@)),
{
    let ghost orig = models(entries@);
    let mut input = entries;
    let mut out: Vec<ParsedEntry> = Vec::new();
    let ghost mut done: int = 0int;
    proof {
        assert(models(input@) =~= orig.skip(0));
        assert(models(out@) =~= Seq::<EntryModel>::empty());
        assert(spec_sort(orig.take(0)) =~= Seq::<EntryModel>::empty()) by {
            assert(orig.take(0) =~= Seq::<EntryModel>::empty());
        }
    }
    while input.len() > 0
        invariant
            0 <= done <= orig.len(),
            models(input@) == orig.skip(done),
            models(out@) == spec_sort(orig.take(done)),
        decreases input@.len(),
    {
        proof {
            assert(models(input@).len() == input@.len());
        }
        let ghost old_in = input@;
        let e = input.remove(0);
        proof {
            assert(models(old_in)[0] == old_in[0]@);
            assert(e@ == orig.skip(done)[0]);
            assert(e@ == orig[done]);
            old_in.remove_ensures(0);
            assert(models(input@) =~= orig.skip(done + 1)) by {
                assert(models(input@).len() == input@.len());
                assert forall|m: int| 0 <= m < input@.len() implies models(input@)[m] == orig.skip(
                    done + 1,
                )[m] by {
                    assert(input@[m] == old_in[m + 1]);
                    assert(models(input@)[m] == input@[m]@);
                    assert(models(old_in)[m + 1] == old_in[m + 1]@);
                    assert(models(old_in)[m + 1] == orig.skip(done)[m + 1]);
                    assert(orig.skip(done)[m + 1] == orig[done + 1 + m]);
                    assert(orig.skip(done + 1)[m] == orig[done + 1 + m]);
                }
            }
        }
        insert_entry(&mut out, e);
        proof {
            assert(orig.take(done + 1).drop_last() =~= orig.take(done));
            assert(orig.take(done + 1).last() == orig[done]);
            assert(spec_sort(orig.take(done + 1)) == insert_sorted(
                orig[done],
                spec_sort(orig.take(done)),
            ));
            done = done + 1;
        }
    }
    proof {
        assert(orig.take(done) =~= orig) by {
            assert(models(input@).len() == input@.len());
        }
    }
    out
}

/// One rename intent: the filename an entry has now and the filename its
/// rank gives it.
pub struct RenameIntent {
    pub original: String,
    pub new_name: String,
}

/// The mathematical content of a rename intent.
#[verifier::ext_equal]
pub ghost struct IntentModel {
    pub original: Seq<char>,
    pub new_name: Seq<char>,
}

impl View for RenameIntent {
    type V = IntentModel;

    open spec fn view(&self) -> IntentModel {
        IntentModel { original: self.original@, new_name: self.new_name@ }
    }
}

/// The models of a sequence of rename intents.
pub open spec fn intent_models(s: Seq<RenameIntent>) -> Seq<IntentModel> {
    s.map_values(|x: RenameIntent| x@)
}

/// The filename rank `rank` gets under width `width`: the zero-padded rank,
/// the separator, and the entry's residual name.
pub open spec fn spec_new_name(rank: int, width: int, residual: Seq<char>) -> Seq<char> {
    spec_padded(rank, width) + seq![separator()] + residual
}

/// What one run of the engine emits for a batch of parsed entries: in
/// sorted order, each entry paired with the name its rank gives it, under
/// the width the batch's size and the configured floor call for.
pub open spec fn spec_intents(s: Seq<EntryModel>, min_width: nat) -> Seq<IntentModel> {
    let sorted = spec_sort(s);
    let w = spec_width(s.len(), min_width);
    Seq::new(
        sorted.len(),
        |i: int|
            IntentModel {
                original: sorted[i].original,
                new_name: spec_new_name(i, w as int, sorted[i].residual),
            },
    )
}

/// Render the filename for one rank: zero-padded rank, separator, residual.
pub fn render_new_name(rank: usize, width: usize, residual: &str) -> (r: String)
    ensures
        r@ == spec_new_name(rank as int, width as int, residual@),
{
    let mut s = zero_pad(rank, width);
    proof {
        reveal_strlit("-");
        assert("-"@ =~= seq![separator()]);
    }
    s.append("-");
    let r = s.concat(residual);
    proof {
        assert(r@ =~= spec_new_name(rank as int, width as int, residual@));
    }
    r
}

/// The reindexing engine: sort the matched entries by key, compute the
/// padded width from the batch size and the configured floor, and emit one
/// rename intent per entry, in rank order.
pub fn reindex(entries: Vec<ParsedEntry>, config: &Config) -> (r: Vec<RenameIntent>)
    ensures
        intent_models(r@) == spec_intents(models(entries@), config.min_index_width as nat),
{
    let ghost ms = models(entries@);
    let n = entries.len();
    let sorted = sort_entries(entries);
    let width = compute_width(n, config.min_index_width);
    proof {
        assert(ms.len() == n);
        lemma_spec_sort_len(ms);
    }
    let mut intents: Vec<RenameIntent> = Vec::new();
    let mut i: usize = 0;
    while i < sorted.len()
        invariant
            models(sorted@) == spec_sort(ms),
            width as nat == spec_width(ms.len(), config.min_index_width as nat),
            sorted@.len() == spec_sort(ms).len(),
            i <= sorted@.len(),
            intent_models(intents@).len() == i as int,
            forall|j: int|
                0 <= j < i ==> #[trigger] intent_models(intents@)[j] == spec_intents(
                    ms,
                    config.min_index_width as nat,
                )[j],
        decreases sorted@.len() - i,
    {
        let e = &sorted[i];
        let new_name = render_new_name(i, width, e.indexed.name.as_str());
        let original = e.original.clone();
        proof {
            assert(models(sorted@)[i as int] == sorted@[i as int]@);
        }
        let ghost old_intents = intents@;
        let ghost orig_v = original@;
        let ghost new_v = new_name@;
        intents.push(RenameIntent { original, new_name });
        proof {
            let mw = config.min_index_width as nat;
            assert forall|j: int| 0 <= j < i + 1 implies #[trigger] intent_models(intents@)[j]
                == spec_intents(ms, mw)[j] by {
                assert(intent_models(intents@)[j] == intents@[j]@);
                if j < i {
                    assert(intents@[j] == old_intents[j]);
                    assert(intent_models(old_intents)[j] == old_intents[j]@);
                } else {
                    assert(intents@[j]@.original == orig_v);
                    assert(intents@[j]@.new_name == new_v);
                    assert(spec_sort(ms)[j] == sorted@[j]@);
                    assert(orig_v == sorted@[j]@.original);
                    assert(new_v == spec_new_name(
                        j,
                        spec_width(ms.len(), mw) as int,
                        sorted@[j]@.residual,
                    ));
                    assert(intents@[j]@ =~= spec_intents(ms, mw)[j]);
                }
            }
        }
        i = i + 1;
    }
    proof {
        assert(intent_models(intents@) =~= spec_intents(ms, config.min_index_width as nat));
    }
    intents
}

/// What is to happen for one intent, as a tagged outcome rather than a
/// sentinel string.
#[derive(PartialEq, Eq, Structural, Clone, Copy, Debug)]
pub enum PlannedAction {
    /// Dry run and the name would change: report the would-be rename only.
    WouldRename,
    /// Dry run and the name is already correct: nothing at all.
    Unchanged,
    /// Real run and the name is already correct: report, touch nothing.
    AlreadyCorrect,
    /// Real run and the name differs: perform the rename.
    Rename,
}

/// The action one intent calls for under the given mode.
pub open spec fn spec_plan_action(
    original: Seq<char>,
    new_name: Seq<char>,
    dry_run: bool,
) -> PlannedAction {
    if dry_run {
        if new_name == original {
            PlannedAction::Unchanged
        } else {
            PlannedAction::WouldRename
        }
    } else {
        if new_name == original {
            PlannedAction::AlreadyCorrect
        } else {
            PlannedAction::Rename
        }
    }
}

/// Decide what to do for one intent: preview or nothing under a dry run,
/// report or rename on a real run.
pub fn plan_action(intent: &RenameIntent, dry_run: bool) -> (a: PlannedAction)
    ensures
        a == spec_plan_action(intent@.original, intent@.new_name, dry_run),
{
    let same = intent.new_name == intent.original;
    if dry_run {
        if same {
            PlannedAction::Unchanged
        } else {
            PlannedAction::WouldRename
        }
    } else {
        if same {
            PlannedAction::AlreadyCorrect
        } else {
            PlannedAction::Rename
        }
    }
}

/// A dry run never calls for a rename: whatever the names, the planned
/// action under `dry_run` is preview or silence, never the filesystem.
pub proof fn lemma_dry_run_never_renames(original: Seq<char>, new_name: Seq<char>)
    ensures
        spec_plan_action(original, new_name, true) != PlannedAction::Rename,
        spec_plan_action(original, new_name, true) != PlannedAction::AlreadyCorrect,
{
}

} // verus!
