//! Copy-on-write upsert.
//!
//! For each target data file that overlaps the key range of the source, its batches are matched
//! against the source. Where a matched row changed, the file is rewritten: its new content is the
//! unchanged rows, the changed rows as the source has them, and the rows that matched nothing.
//! When all files are done, the source rows that matched nothing are inserted.
use arrow_array::BooleanArray;
use arrow_schema::ArrowError;
use vstd::prelude::*;

use crate::columnar::{
    arrow_error_text, copy_batch, error_text, filter_batch, is_mask, mask_cells, mask_from,
    mask_true_count, mask_value, true_bits, Batch,
};
use crate::data_file::DataFile;
use crate::error::{Error, ErrorKind, Result};
use crate::matcher::{
    as_ints, changed_bits, comparison_failure, comparison_is_sure, flags_after,
    lemma_pairs_in_bounds, lemma_pairs_step, match_of, matched_bits, pair_sources, pair_targets,
    row_changed, unmatched_bits, UpsertMatcher,
};
use crate::model::{
    all_keyable, count_true, in_columns, is_whole, lemma_last_index_of, lemma_selected, selected, BatchModel,
};
use crate::planner::{key_column_indices, schema_indices, KeyColumn};
use crate::upsert::{UpsertFileDelta, UpsertResult};

verus! {

/// What decides how a target batch is merged with the source.
pub struct MergeModel {
    /// The source batch.
    pub source: BatchModel,
    /// The positions of the key columns.
    pub keys: Seq<usize>,
    /// The positions of the columns that are compared for changes.
    pub non_keys: Seq<usize>,
    /// Whether a matched row that did not change is left as it is.
    pub skip_unchanged: bool,
}

impl MergeModel {
    /// The source row that target row `t` matches.
    pub open spec fn match_of(self, target: BatchModel, t: int) -> Option<int> {
        match_of(self.source.keys(self.keys), target.keys(self.keys), t)
    }

    /// Target row `t`, which matches source row `s`, is replaced.
    pub open spec fn replaces(self, target: BatchModel, s: int, t: int) -> bool {
        !self.skip_unchanged || row_changed(self.source, target, self.non_keys, s, t)
    }

    /// The target rows that match and stay as they are.
    pub open spec fn kept(self, target: BatchModel) -> Seq<bool> {
        Seq::new(
            target.rows,
            |t: int| self.match_of(target, t) matches Some(s) && !self.replaces(target, s, t),
        )
    }

    /// The target rows that match and are replaced.
    pub open spec fn replaced(self, target: BatchModel) -> Seq<bool> {
        Seq::new(
            target.rows,
            |t: int| self.match_of(target, t) matches Some(s) && self.replaces(target, s, t),
        )
    }

    /// The target rows that match nothing.
    pub open spec fn unmatched(self, target: BatchModel) -> Seq<bool> {
        Seq::new(target.rows, |t: int| self.match_of(target, t) is None)
    }

    /// Source row `s` replaces a row of the target batch.
    pub open spec fn updates(self, target: BatchModel, s: int) -> bool {
        exists|t: int|
            0 <= t < target.rows && #[trigger] self.match_of(target, t) == Some(s) && self.replaces(
                target,
                s,
                t,
            )
    }

    /// The source rows that replace a row of the target batch.
    pub open spec fn updated(self, target: BatchModel) -> Seq<bool> {
        Seq::new(self.source.rows, |s: int| self.updates(target, s))
    }

    /// The batches that a target batch becomes in a rewritten file: itself where nothing matches;
    /// else the unchanged rows, the replacing source rows and the unmatched rows, without the
    /// empty ones among these.
    pub open spec fn merged(self, target: BatchModel) -> Seq<BatchModel> {
        if count_true(self.kept(target)) + count_true(self.replaced(target)) == 0 {
            seq![target]
        } else {
            part(target, self.kept(target)) + part(self.source, self.updated(target)) + part(
                target,
                self.unmatched(target),
            )
        }
    }
}

/// The rows that a mask selects as a batch, or no batch where it selects none.
pub open spec fn part(batch: BatchModel, mask: Seq<bool>) -> Seq<BatchModel> {
    if count_true(mask) == 0 {
        Seq::empty()
    } else {
        seq![batch.select(selected(mask))]
    }
}

/// The batches' models.
pub open spec fn models(batches: Seq<Batch>) -> Seq<BatchModel> {
    batches.map_values(|b: Batch| b@)
}

/// A mask without nulls selects where its bits are true.
pub proof fn lemma_mask_bits(mask: BooleanArray, bits: Seq<bool>)
    requires
        is_mask(mask, bits),
    ensures
        true_bits(mask_cells(mask)) == bits,
        mask_cells(mask).len() == bits.len(),
{
    assert(true_bits(mask_cells(mask)) =~= bits);
}

/// A mask of `len` positions that is true at those positions that `indices` lists where `mask` has
/// the value `wanted`.
fn scatter(
    indices: &Vec<u32>,
    mask: &BooleanArray,
    wanted: bool,
    len: usize,
    Ghost(bits): Ghost<Seq<bool>>,
) -> (scattered: Vec<bool>)
    requires
        is_mask(*mask, bits),
        bits.len() == indices@.len(),
        forall|j: int| 0 <= j < indices@.len() ==> #[trigger] indices@[j] < len,
    ensures
        scattered@.len() == len,
        forall|i: int|
            0 <= i < len ==> (#[trigger] scattered@[i] <==> exists|j: int|
                0 <= j < bits.len() && #[trigger] indices@[j] == i && bits[j] == wanted),
{
    let mut scattered: Vec<bool> = Vec::new();
    let mut i: usize = 0;
    while i < len
        invariant
            i <= len,
            scattered@.len() == i,
            forall|p: int| 0 <= p < i ==> !#[trigger] scattered@[p],
        decreases len - i,
    {
        scattered.push(false);
        i += 1;
    }
    let mut j: usize = 0;
    while j < indices.len()
        invariant
            is_mask(*mask, bits),
            bits.len() == indices@.len(),
            forall|p: int| 0 <= p < indices@.len() ==> #[trigger] indices@[p] < len,
            scattered@.len() == len,
            j <= indices@.len(),
            forall|i: int|
                0 <= i < len ==> (#[trigger] scattered@[i] <==> exists|p: int|
                    0 <= p < j && #[trigger] indices@[p] == i && bits[p] == wanted),
        decreases indices@.len() - j,
    {
        assert(mask_cells(*mask)[j as int] == Some(bits[j as int]));
        let ghost before = scattered@;
        if mask_value(mask, j) == wanted {
            scattered.set(indices[j] as usize, true);
        }
        assert forall|i: int| 0 <= i < len implies (#[trigger] scattered@[i] <==> exists|p: int|
            0 <= p < j + 1 && #[trigger] indices@[p] == i && bits[p] == wanted) by {
            if before[i] {
                let p = choose|p: int| 0 <= p < j && #[trigger] indices@[p] == i && bits[p] == wanted;
                assert(indices@[p] == i && p < j + 1);
            }
            if scattered@[i] && !before[i] {
                assert(indices@[j as int] == i);
            }
            if exists|p: int| 0 <= p < j + 1 && #[trigger] indices@[p] == i && bits[p] == wanted {
                let p = choose|p: int|
                    0 <= p < j + 1 && #[trigger] indices@[p] == i && bits[p] == wanted;
                if p < j {
                    assert(before[i]);
                }
            }
        }
        j += 1;
    }
    scattered
}

impl MergeModel {
    /// For each of the pairs that the first `rows` target rows make, whether the target row is
    /// replaced.
    pub open spec fn pair_bits(self, target: BatchModel, rows: nat) -> Seq<bool> {
        let sk = self.source.keys(self.keys);
        let tk = target.keys(self.keys);
        Seq::new(
            pair_targets(sk, tk, rows).len(),
            |j: int| self.replaces(target, pair_sources(sk, tk, rows)[j], pair_targets(sk, tk, rows)[j]),
        )
    }
}

/// Each pair is kept or replaced.
proof fn lemma_pair_counts(m: MergeModel, target: BatchModel, i: nat)
    requires
        i <= target.rows,
    ensures
        pair_targets(m.source.keys(m.keys), target.keys(m.keys), i).len() == count_true(
            m.kept(target).take(i as int),
        ) + count_true(m.replaced(target).take(i as int)),
        count_true(m.pair_bits(target, i)) == count_true(m.replaced(target).take(i as int)),
    decreases i,
{
    let sk = m.source.keys(m.keys);
    let tk = target.keys(m.keys);
    if i > 0 {
        let p = (i - 1) as nat;
        lemma_pair_counts(m, target, p);
        lemma_pairs_step(sk, tk, p);
        assert(m.kept(target).take(i as int).drop_last() =~= m.kept(target).take(p as int));
        assert(m.replaced(target).take(i as int).drop_last() =~= m.replaced(target).take(p as int));
        match m.match_of(target, p as int) {
            Some(s) => {
                assert(m.pair_bits(target, i).drop_last() =~= m.pair_bits(target, p));
                assert(m.pair_bits(target, i).last() == m.replaces(target, s, p as int));
            },
            None => {
                assert(m.pair_bits(target, i) =~= m.pair_bits(target, p));
            },
        }
    }
}

/// Where unchanged rows are skipped, as many target rows are replaced as pairs differ.
pub proof fn lemma_changed_count(m: MergeModel, target: BatchModel)
    requires
        m.skip_unchanged,
    ensures
        count_true(
            changed_bits(
                m.source,
                target,
                m.non_keys,
                pair_sources(m.source.keys(m.keys), target.keys(m.keys), target.rows),
                pair_targets(m.source.keys(m.keys), target.keys(m.keys), target.rows),
            ),
        ) == count_true(m.replaced(target)),
{
    let sources = pair_sources(m.source.keys(m.keys), target.keys(m.keys), target.rows);
    let targets = pair_targets(m.source.keys(m.keys), target.keys(m.keys), target.rows);
    lemma_pair_counts(m, target, target.rows);
    assert(m.pair_bits(target, target.rows) =~= changed_bits(
        m.source,
        target,
        m.non_keys,
        sources,
        targets,
    ));
    assert(m.replaced(target).take(target.rows as int) =~= m.replaced(target));
}

/// The masks of kept target rows and of replacing source rows, seen from the pairs.
proof fn lemma_pair_masks(m: MergeModel, target: BatchModel)
    ensures
        forall|t: int|
            0 <= t < target.rows ==> (#[trigger] m.kept(target)[t] <==> exists|j: int|
                0 <= j < m.pair_bits(target, target.rows).len() && #[trigger] pair_targets(
                    m.source.keys(m.keys),
                    target.keys(m.keys),
                    target.rows,
                )[j] == t && !m.pair_bits(target, target.rows)[j]),
        forall|s: int|
            0 <= s < m.source.rows ==> (#[trigger] m.updated(target)[s] <==> exists|j: int|
                0 <= j < m.pair_bits(target, target.rows).len() && #[trigger] pair_sources(
                    m.source.keys(m.keys),
                    target.keys(m.keys),
                    target.rows,
                )[j] == s && m.pair_bits(target, target.rows)[j]),
{
    let sk = m.source.keys(m.keys);
    let tk = target.keys(m.keys);
    let bits = matched_bits(sk, tk, target.rows);
    let targets = pair_targets(sk, tk, target.rows);
    let sources = pair_sources(sk, tk, target.rows);
    let pairs = m.pair_bits(target, target.rows);
    lemma_selected(bits);
    assert forall|j: int| 0 <= j < targets.len() implies m.match_of(target, targets[j]) == Some(
        #[trigger] sources[j],
    ) && pairs[j] == m.replaces(target, sources[j], targets[j]) by {
        assert(bits[targets[j]]);
    }
    assert forall|t: int| 0 <= t < target.rows implies (#[trigger] m.kept(target)[t] <==> exists|j: int|
        0 <= j < pairs.len() && #[trigger] targets[j] == t && !pairs[j]) by {
        if m.kept(target)[t] {
            assert(bits[t]);
            let j = choose|j: int| 0 <= j < targets.len() && targets[j] == t;
            assert(m.match_of(target, targets[j]) == Some(sources[j]));
            assert(targets[j] == t && !pairs[j]);
        }
        if exists|j: int| 0 <= j < pairs.len() && #[trigger] targets[j] == t && !pairs[j] {
            let j = choose|j: int| 0 <= j < pairs.len() && #[trigger] targets[j] == t && !pairs[j];
            assert(m.match_of(target, targets[j]) == Some(sources[j]));
        }
    }
    assert forall|s: int| 0 <= s < m.source.rows implies (#[trigger] m.updated(target)[s] <==> exists|j: int|
        0 <= j < pairs.len() && #[trigger] sources[j] == s && pairs[j]) by {
        if m.updates(target, s) {
            let t = choose|t: int|
                0 <= t < target.rows && #[trigger] m.match_of(target, t) == Some(s) && m.replaces(target, s, t);
            assert(bits[t]);
            let j = choose|j: int| 0 <= j < targets.len() && targets[j] == t;
            assert(m.match_of(target, targets[j]) == Some(sources[j]));
            assert(sources[j] == s && pairs[j]);
        }
        if exists|j: int| 0 <= j < pairs.len() && #[trigger] sources[j] == s && pairs[j] {
            let j = choose|j: int| 0 <= j < pairs.len() && #[trigger] sources[j] == s && pairs[j];
            assert(m.match_of(target, targets[j]) == Some(s));
            assert(0 <= targets[j] < target.rows);
            assert(m.updates(target, s));
        }
    }
}

/// A mask selects nothing exactly where it is nowhere true.
pub proof fn lemma_count_true(mask: Seq<bool>)
    ensures
        count_true(mask) > 0 <==> exists|i: int| 0 <= i < mask.len() && #[trigger] mask[i],
        count_true(mask) <= mask.len(),
{
    lemma_selected(mask);
    if exists|i: int| 0 <= i < mask.len() && #[trigger] mask[i] {
        let i = choose|i: int| 0 <= i < mask.len() && #[trigger] mask[i];
        assert(selected(mask).contains(i));
    }
    if count_true(mask) > 0 {
        assert(mask[selected(mask)[0]]);
    }
}

/// A source row replaces a target row exactly where a target row is replaced.
proof fn lemma_updates_iff_replaced(m: MergeModel, target: BatchModel)
    ensures
        count_true(m.updated(target)) > 0 <==> count_true(m.replaced(target)) > 0,
{
    let sk = m.source.keys(m.keys);
    let tk = target.keys(m.keys);
    lemma_count_true(m.updated(target));
    lemma_count_true(m.replaced(target));
    if count_true(m.replaced(target)) > 0 {
        let t = choose|t: int| 0 <= t < m.replaced(target).len() && #[trigger] m.replaced(target)[t];
        let s = m.match_of(target, t)->0;
        lemma_last_index_of(sk, tk[t]);
        assert(m.match_of(target, t) == Some(s));
        assert(m.updates(target, s));
        assert(m.updated(target)[s]);
    }
    if count_true(m.updated(target)) > 0 {
        let s = choose|s: int| 0 <= s < m.updated(target).len() && #[trigger] m.updated(target)[s];
        let t = choose|t: int|
            0 <= t < target.rows && #[trigger] m.match_of(target, t) == Some(s) && m.replaces(target, s, t);
        assert(m.replaced(target)[t]);
    }
}

fn filter_failure(error: &ArrowError) -> (failure: Error)
    ensures
        failure.says(ErrorKind::Unexpected, arrow_error_text(*error)),
{
    Error::new(ErrorKind::Unexpected, error_text(error))
}

/// The rows of a batch that a mask selects.
fn filter_rows(batch: &Batch, mask: &BooleanArray, Ghost(bits): Ghost<Seq<bool>>) -> (filtered: Result<
    Batch,
>)
    requires
        is_mask(*mask, bits),
        bits.len() == batch@.rows,
        count_true(bits) > 0,
        batch@.selectable() || is_whole(bits),
    ensures
        filtered matches Ok(f) && f@ == batch@.select(selected(bits)),
{
    proof {
        lemma_mask_bits(*mask, bits);
    }
    match filter_batch(batch, mask) {
        Ok(filtered) => Ok(filtered),
        Err(e) => Err(filter_failure(&e)),
    }
}

/// What a target batch becomes in a rewritten file.
struct Merged {
    /// The batches that take its place.
    parts: Vec<Batch>,
    /// How many of its rows were replaced.
    updated: usize,
}

/// Matches a target batch and merges it with the source.
fn merge_batch(matcher: &mut UpsertMatcher, batch: &Batch, skip_unchanged: bool) -> (result: Result<Merged>)
    requires
        old(matcher).wf(),
        old(matcher).fits(batch@),
        merge_model(*old(matcher), skip_unchanged).can_divide(batch@),
    ensures
        final(matcher).wf(),
        final(matcher).source_model() == old(matcher).source_model(),
        final(matcher).key_indices() == old(matcher).key_indices(),
        final(matcher).non_key_indices() == old(matcher).non_key_indices(),
        merge_model(*old(matcher), skip_unchanged).surely_matches(batch@) ==> result is Ok,
        match result {
            Ok(merged) => {
                let m = merge_model(*old(matcher), skip_unchanged);
                &&& old(matcher).failure(batch@) is None
                &&& final(matcher).matched() == flags_after(
                    old(matcher).matched(),
                    old(matcher).source_keys(),
                    batch@.keys(old(matcher).key_indices()),
                    batch@.rows,
                )
                &&& models(merged.parts@) == m.merged(batch@)
                &&& merged.updated == count_true(m.replaced(batch@))
            },
            Err(e) => old(matcher).failure(batch@) matches Some(prefix) && e.reports(prefix),
        },
{
    let ghost m = merge_model(*matcher, skip_unchanged);
    let ghost sk = m.source.keys(m.keys);
    let ghost tk = batch@.keys(m.keys);
    let rows: usize = batch.num_rows();
    let result = matcher.match_batch(batch)?;
    let n_matched: usize = result.matched_target_indices.len();
    let ghost targets = pair_targets(sk, tk, batch@.rows);
    let ghost sources = pair_sources(sk, tk, batch@.rows);
    let ghost pairs = m.pair_bits(batch@, batch@.rows);
    let source_len: usize = matcher.source_len();
    proof {
        assert(as_ints(result.matched_target_indices@).len() == n_matched);
        assert(as_ints(result.matched_source_indices@).len() == result.matched_source_indices@.len());
        lemma_pairs_in_bounds(sk, tk, batch@.rows);
        lemma_pair_counts(m, batch@, batch@.rows);
        lemma_pair_masks(m, batch@);
        lemma_updates_iff_replaced(m, batch@);
        assert(m.kept(batch@).take(batch@.rows as int) =~= m.kept(batch@));
        assert(m.replaced(batch@).take(batch@.rows as int) =~= m.replaced(batch@));
        assert forall|j: int| 0 <= j < n_matched implies #[trigger] result.matched_target_indices@[j]
            == targets[j] by {
            assert(as_ints(result.matched_target_indices@)[j] == result.matched_target_indices@[j]);
        }
        assert forall|j: int| 0 <= j < n_matched implies #[trigger] result.matched_source_indices@[j]
            == sources[j] by {
            assert(as_ints(result.matched_source_indices@)[j] == result.matched_source_indices@[j]);
        }
    }
    let mut parts: Vec<Batch> = Vec::new();
    if n_matched == 0 {
        parts.push(copy_batch(batch));
        assert(models(parts@) =~= seq![batch@]);
        return Ok(Merged { parts, updated: 0 });
    }
    let changed_mask = if skip_unchanged {
        assert(pairs =~= changed_bits(m.source, batch@, m.non_keys, sources, targets));
        result.changed_mask
    } else {
        let mut bits: Vec<bool> = Vec::new();
        let mut i: usize = 0;
        while i < n_matched
            invariant
                i <= n_matched,
                bits@ == Seq::new(i as nat, |p: int| true),
            decreases n_matched - i,
        {
            bits.push(true);
            assert(bits@ =~= Seq::new((i + 1) as nat, |p: int| true));
            i += 1;
        }
        assert(bits@ =~= pairs);
        mask_from(bits)
    };
    proof {
        lemma_mask_bits(changed_mask, pairs);
    }
    let has_changed: usize = mask_true_count(&changed_mask);

    // Matched rows that did not change: taken from the target.
    if has_changed < n_matched {
        let bits = scatter(&result.matched_target_indices, &changed_mask, false, rows, Ghost(pairs));
        proof {
            assert forall|t: int| 0 <= t < rows implies bits@[t] == m.kept(batch@)[t] by {
                if bits@[t] {
                    let j = choose|j: int|
                        0 <= j < pairs.len() && #[trigger] result.matched_target_indices@[j] == t && pairs[j]
                            == false;
                    assert(targets[j] == t);
                }
                if m.kept(batch@)[t] {
                    let j = choose|j: int| 0 <= j < pairs.len() && #[trigger] targets[j] == t && !pairs[j];
                    assert(result.matched_target_indices@[j] == t);
                }
            }
            assert(bits@ =~= m.kept(batch@));
        }
        let unchanged_in_target = mask_from(bits);
        let kept = filter_rows(batch, &unchanged_in_target, Ghost(m.kept(batch@)))?;
        parts.push(kept);
    }
    assert(models(parts@) =~= part(batch@, m.kept(batch@)));

    // Matched rows that changed: taken from the source.
    let ghost first = parts@;
    if has_changed > 0 {
        let bits = scatter(&result.matched_source_indices, &changed_mask, true, source_len, Ghost(pairs));
        proof {
            assert forall|s: int| 0 <= s < source_len implies bits@[s] == m.updated(batch@)[s] by {
                if bits@[s] {
                    let j = choose|j: int|
                        0 <= j < pairs.len() && #[trigger] result.matched_source_indices@[j] == s && pairs[j]
                            == true;
                    assert(sources[j] == s);
                }
                if m.updated(batch@)[s] {
                    let j = choose|j: int| 0 <= j < pairs.len() && #[trigger] sources[j] == s && pairs[j];
                    assert(result.matched_source_indices@[j] == s);
                }
            }
            assert(bits@ =~= m.updated(batch@));
        }
        let changed_in_source = mask_from(bits);
        let updated = filter_rows(matcher.source(), &changed_in_source, Ghost(m.updated(batch@)))?;
        parts.push(updated);
    }
    assert(models(parts@) =~= models(first) + part(m.source, m.updated(batch@)));

    // Rows that matched nothing: kept as they are.
    let ghost second = parts@;
    proof {
        assert(unmatched_bits(sk, tk, batch@.rows) =~= m.unmatched(batch@));
        lemma_mask_bits(result.unmatched_target_mask, m.unmatched(batch@));
    }
    if mask_true_count(&result.unmatched_target_mask) > 0 {
        let unmatched = filter_rows(batch, &result.unmatched_target_mask, Ghost(m.unmatched(batch@)))?;
        parts.push(unmatched);
    }
    assert(models(parts@) =~= models(second) + part(batch@, m.unmatched(batch@)));
    Ok(Merged { parts, updated: has_changed })
}

/// How the matcher's source is merged.
pub open spec fn merge_model(matcher: UpsertMatcher, skip_unchanged: bool) -> MergeModel {
    MergeModel {
        source: matcher.source_model(),
        keys: matcher.key_indices(),
        non_keys: matcher.non_key_indices(),
        skip_unchanged,
    }
}

impl MergeModel {
    /// The rows of a target batch and of the source can be parted as the merge parts them: unless
    /// a part takes all rows or none, rows can be selected from the batch that it is taken from.
    pub open spec fn can_divide(self, target: BatchModel) -> bool {
        &&& target.selectable() || is_whole(self.kept(target)) && is_whole(self.unmatched(target))
        &&& self.source.selectable() || is_whole(self.updated(target))
    }

    /// How matching a target batch fails, if it does.
    pub open spec fn failure(self, target: BatchModel) -> Option<Seq<char>> {
        if target.types(self.keys) != self.source.types(self.keys) {
            Some("RowConverter convert error: "@)
        } else {
            comparison_failure(
                self.source,
                self.source.keys(self.keys),
                target,
                target.keys(self.keys),
                self.non_keys,
            )
        }
    }

    /// How matching the batches of a file fails, if it does: the failure of the first batch that
    /// cannot be matched.
    pub open spec fn file_failure(self, file: Seq<BatchModel>) -> Option<Seq<char>>
        decreases file.len(),
    {
        if file.len() == 0 {
            None
        } else {
            match self.file_failure(file.drop_last()) {
                Some(prefix) => Some(prefix),
                None => self.failure(file.last()),
            }
        }
    }

    /// Matching a target batch cannot fail: its key columns have the types of those of the source,
    /// and its non-key columns can surely be compared.
    pub open spec fn surely_matches(self, target: BatchModel) -> bool {
        &&& target.types(self.keys) == self.source.types(self.keys)
        &&& comparison_is_sure(
            self.source,
            self.source.keys(self.keys),
            target,
            target.keys(self.keys),
            self.non_keys,
        )
    }

    /// The content of a file once it is rewritten.
    pub open spec fn merged_file(self, file: Seq<BatchModel>) -> Seq<BatchModel>
        decreases file.len(),
    {
        if file.len() == 0 {
            Seq::empty()
        } else {
            self.merged_file(file.drop_last()) + self.merged(file.last())
        }
    }

    /// The number of rows of a file that are replaced.
    pub open spec fn updates_in(self, file: Seq<BatchModel>) -> nat
        decreases file.len(),
    {
        if file.len() == 0 {
            0
        } else {
            self.updates_in(file.drop_last()) + count_true(self.replaced(file.last()))
        }
    }

    /// The matched flags of the source rows once the batches of a file are matched too.
    pub open spec fn flags_after(self, flags: Seq<bool>, file: Seq<BatchModel>) -> Seq<bool>
        decreases file.len(),
    {
        if file.len() == 0 {
            flags
        } else {
            flags_after(
                self.flags_after(flags, file.drop_last()),
                self.source.keys(self.keys),
                file.last().keys(self.keys),
                file.last().rows,
            )
        }
    }
}

/// The number of rows in some batches.
pub open spec fn total_rows(file: Seq<BatchModel>) -> nat
    decreases file.len(),
{
    if file.len() == 0 {
        0
    } else {
        total_rows(file.drop_last()) + file.last().rows
    }
}

/// The rows that a file's replaced rows are counted among.
pub proof fn lemma_updates_bounded(m: MergeModel, file: Seq<BatchModel>)
    ensures
        m.updates_in(file) <= total_rows(file),
    decreases file.len(),
{
    if file.len() > 0 {
        lemma_updates_bounded(m, file.drop_last());
        lemma_count_true(m.replaced(file.last()));
    }
}

/// A prefix of a file has no more rows than the file.
pub proof fn lemma_total_rows_prefix(file: Seq<BatchModel>, k: int)
    requires
        0 <= k <= file.len(),
    ensures
        total_rows(file.take(k)) <= total_rows(file),
    decreases file.len(),
{
    if k < file.len() {
        lemma_total_rows_prefix(file.drop_last(), k);
        assert(file.drop_last().take(k) =~= file.take(k));
    } else {
        assert(file.take(k) =~= file);
    }
}

/// A failure among the first batches of a file is the failure of the file.
pub proof fn lemma_file_failure_prefix(m: MergeModel, file: Seq<BatchModel>, k: int)
    requires
        0 <= k <= file.len(),
    ensures
        m.file_failure(file.take(k)) matches Some(prefix) ==> m.file_failure(file) == Some(prefix),
    decreases file.len(),
{
    if k < file.len() {
        lemma_file_failure_prefix(m, file.drop_last(), k);
        assert(file.drop_last().take(k) =~= file.take(k));
    } else {
        assert(file.take(k) =~= file);
    }
}

/// A copy-on-write upsert in progress.
///
/// The caller reads the target files and hands their batches over one file at a time, writes what
/// [`CowExecutor::process_file`] and [`CowExecutor::insert_batch`] return, and reports the files
/// that it wrote.
pub struct CowExecutor {
    matcher: UpsertMatcher,
    skip_unchanged: bool,
    added_data_files: Vec<DataFile>,
    deleted_data_files: Vec<DataFile>,
    rows_updated: u64,
    files_rewritten: u64,
}

impl CowExecutor {
    /// How target batches are merged.
    pub closed spec fn merge(&self) -> MergeModel {
        merge_model(self.matcher, self.skip_unchanged)
    }

    /// For each source row whether a target row matched it.
    pub closed spec fn matched(&self) -> Seq<bool> {
        self.matcher.matched()
    }

    /// The files written so far.
    pub closed spec fn added(&self) -> Seq<DataFile> {
        self.added_data_files@
    }

    /// The files replaced so far.
    pub closed spec fn deleted(&self) -> Seq<DataFile> {
        self.deleted_data_files@
    }

    /// The number of rows replaced so far.
    pub closed spec fn updated(&self) -> nat {
        self.rows_updated as nat
    }

    /// The number of files rewritten so far.
    pub closed spec fn rewritten(&self) -> nat {
        self.files_rewritten as nat
    }

    /// The matcher is in order.
    pub closed spec fn wf(&self) -> bool {
        self.matcher.wf()
    }

    /// The batch can be matched and merged: it has the columns that are read, key columns that are
    /// not nested, a row count that fits, and rows that can be parted as the merge parts them.
    pub open spec fn fits(&self, batch: BatchModel) -> bool {
        &&& in_columns(self.merge().keys, batch)
        &&& in_columns(self.merge().non_keys, batch)
        &&& all_keyable(batch.types(self.merge().keys))
        &&& batch.rows <= 0x1_0000_0000
        &&& self.merge().can_divide(batch)
    }

    /// The executor has just started.
    pub open spec fn is_new(&self) -> bool {
        &&& self.matched() == Seq::new(self.merge().source.rows, |s: int| false)
        &&& self.added().len() == 0
        &&& self.deleted().len() == 0
        &&& self.updated() == 0
        &&& self.rewritten() == 0
    }

    /// Processing a file makes the executor into `after`.
    pub open spec fn after_file(&self, after: Self, file: Seq<BatchModel>) -> bool {
        &&& after.merge() == self.merge()
        &&& after.matched() == self.merge().flags_after(self.matched(), file)
        &&& after.updated() == self.updated() + self.merge().updates_in(file)
        &&& after.rewritten() == self.rewritten()
        &&& after.added() == self.added()
        &&& after.deleted() == self.deleted()
    }

    /// Taking note of a rewritten file makes the executor into `after`.
    pub open spec fn after_rewrite(&self, after: Self, written: Seq<DataFile>, original: Option<DataFile>) -> bool {
        &&& after.merge() == self.merge()
        &&& after.matched() == self.matched()
        &&& after.updated() == self.updated()
        &&& after.rewritten() == self.rewritten() + 1
        &&& after.added() == self.added() + written
        &&& after.deleted() == match original {
            Some(file) => self.deleted().push(file),
            None => self.deleted(),
        }
    }

    /// Taking note of inserted rows makes the executor into `after`.
    pub open spec fn after_inserts(&self, after: Self, written: Seq<DataFile>) -> bool {
        &&& after.merge() == self.merge()
        &&& after.matched() == self.matched()
        &&& after.updated() == self.updated()
        &&& after.rewritten() == self.rewritten()
        &&& after.added() == self.added() + written
        &&& after.deleted() == self.deleted()
    }

    /// The delta holds the files written and replaced, and the counts.
    pub open spec fn yields(&self, delta: UpsertFileDelta) -> bool {
        &&& delta.added_data_files@ == self.added()
        &&& delta.deleted_data_files@ == self.deleted()
        &&& delta.stats.rows_updated == self.updated()
        &&& delta.stats.rows_inserted == count_true(self.matched().map_values(|m: bool| !m))
        &&& delta.stats.files_affected == self.rewritten()
        &&& delta.stats.files_added == self.added().len()
        &&& delta.stats.files_removed == self.deleted().len()
    }

    /// Starts an upsert of the source.
    pub fn new(
        source: &Batch,
        key_columns: &[KeyColumn],
        non_key_column_indices: &[usize],
        skip_unchanged: bool,
    ) -> (executor: Result<Self>)
        requires
            in_columns(schema_indices(key_columns@), source@),
            in_columns(non_key_column_indices@, source@),
            all_keyable(source@.types(schema_indices(key_columns@))),
            source@.rows <= 0x1_0000_0000,
        ensures
            executor matches Ok(x) && {
                &&& x.wf()
                &&& x.merge() == (MergeModel {
                    source: source@,
                    keys: schema_indices(key_columns@),
                    non_keys: non_key_column_indices@,
                    skip_unchanged,
                })
                &&& x.is_new()
            },
    {
        let key_indices = key_column_indices(key_columns);
        let matcher = UpsertMatcher::new(source, key_indices.as_slice(), non_key_column_indices)?;
        Ok(
            CowExecutor {
                matcher,
                skip_unchanged,
                added_data_files: Vec::new(),
                deleted_data_files: Vec::new(),
                rows_updated: 0,
                files_rewritten: 0,
            },
        )
    }

    /// Matches the batches of a target file. Returns the content with which the file is to be
    /// rewritten, or `None` where no row of it changed.
    pub fn process_file(&mut self, batches: &[Batch]) -> (content: Result<Option<Vec<Batch>>>)
        requires
            old(self).wf(),
            forall|i: int| 0 <= i < batches@.len() ==> old(self).fits((#[trigger] batches@[i])@),
            old(self).updated() + total_rows(models(batches@)) <= u64::MAX,
        ensures
            final(self).wf(),
            final(self).merge() == old(self).merge(),
            final(self).added() == old(self).added(),
            final(self).deleted() == old(self).deleted(),
            final(self).rewritten() == old(self).rewritten(),
            (forall|i: int|
                0 <= i < batches@.len() ==> old(self).merge().surely_matches((#[trigger] batches@[i])@))
                ==> content is Ok,
            match content {
                Ok(rewrite) => {
                    let file = models(batches@);
                    &&& old(self).merge().file_failure(file) is None
                    &&& old(self).after_file(*final(self), file)
                    &&& rewrite is Some <==> old(self).merge().updates_in(file) > 0
                    &&& rewrite matches Some(parts) ==> models(parts@) == old(self).merge().merged_file(
                        file,
                    )
                },
                Err(e) => old(self).merge().file_failure(models(batches@)) matches Some(prefix)
                    && e.reports(prefix),
            },
    {
        let ghost m = self.merge();
        let ghost file = models(batches@);
        let ghost before = *self;
        let mut rewrite: Vec<Batch> = Vec::new();
        let mut has_changes = false;
        let mut i: usize = 0;
        while i < batches.len()
            invariant
                self.wf(),
                before == *old(self),
                before.wf(),
                self.merge() == m,
                before.merge() == m,
                self.added() == before.added(),
                self.deleted() == before.deleted(),
                self.rewritten() == before.rewritten(),
                file == models(batches@),
                forall|j: int| 0 <= j < batches@.len() ==> before.fits((#[trigger] batches@[j])@),
                before.updated() + total_rows(file) <= u64::MAX,
                i <= batches@.len(),
                m.file_failure(file.take(i as int)) is None,
                self.matched() == m.flags_after(before.matched(), file.take(i as int)),
                self.updated() == before.updated() + m.updates_in(file.take(i as int)),
                has_changes <==> m.updates_in(file.take(i as int)) > 0,
                models(rewrite@) == m.merged_file(file.take(i as int)),
            decreases batches@.len() - i,
        {
            proof {
                assert(file.take(i + 1).drop_last() =~= file.take(i as int));
                assert(file.take(i + 1).last() == batches@[i as int]@);
                lemma_file_failure_prefix(m, file, i + 1);
                lemma_updates_bounded(m, file.take(i + 1));
                lemma_total_rows_prefix(file, i + 1);
                assert(before.fits(batches@[i as int]@));
            }
            let merged = merge_batch(&mut self.matcher, &batches[i], self.skip_unchanged)?;
            let mut parts = merged.parts;
            let ghost earlier = rewrite@;
            let ghost new_parts = parts@;
            rewrite.append(&mut parts);
            assert(models(rewrite@) =~= models(earlier) + models(new_parts));
            if merged.updated > 0 {
                has_changes = true;
                self.rows_updated = self.rows_updated + merged.updated as u64;
            }
            i += 1;
        }
        assert(file.take(i as int) =~= file);
        if has_changes {
            Ok(Some(rewrite))
        } else {
            Ok(None)
        }
    }

    /// Takes note of a rewritten file: the files that hold its new content, and the file itself
    /// where it is known.
    pub fn record_rewrite(&mut self, written: Vec<DataFile>, original: Option<DataFile>)
        requires
            old(self).wf(),
            old(self).rewritten() < u64::MAX,
        ensures
            final(self).wf(),
            old(self).after_rewrite(*final(self), written@, original),
    {
        let mut written = written;
        self.added_data_files.append(&mut written);
        match original {
            Some(file) => {
                self.deleted_data_files.push(file);
            },
            None => {},
        }
        self.files_rewritten = self.files_rewritten + 1;
    }

    /// The source rows that matched nothing, to be inserted, or `None` where all matched.
    ///
    /// Rows must be selectable from the source, unless all of them matched or none did.
    pub fn insert_batch(&self) -> (insert: Result<Option<Batch>>)
        requires
            self.wf(),
            self.merge().source.selectable() || is_whole(self.matched().map_values(|m: bool| !m)),
        ensures
            insert matches Ok(batch) && match batch {
                Some(b) => count_true(self.matched().map_values(|m: bool| !m)) > 0 && b@
                    == self.merge().source.select(selected(self.matched().map_values(|m: bool| !m))),
                None => count_true(self.matched().map_values(|m: bool| !m)) == 0,
            },
    {
        let mask = self.matcher.unmatched_source_mask();
        let ghost bits = self.matched().map_values(|m: bool| !m);
        proof {
            lemma_mask_bits(mask, bits);
            self.matcher.lemma_one_flag_per_row();
        }
        if mask_true_count(&mask) > 0 {
            let insert = filter_rows(self.matcher.source(), &mask, Ghost(bits))?;
            Ok(Some(insert))
        } else {
            Ok(None)
        }
    }

    /// Takes note of the files that hold the inserted rows.
    pub fn record_inserts(&mut self, written: Vec<DataFile>)
        requires
            old(self).wf(),
        ensures
            final(self).wf(),
            old(self).after_inserts(*final(self), written@),
    {
        let mut written = written;
        self.added_data_files.append(&mut written);
    }

    /// The files written and replaced, and the counts.
    pub fn finish(self) -> (delta: UpsertFileDelta)
        requires
            self.wf(),
        ensures
            self.yields(delta),
    {
        let mask = self.matcher.unmatched_source_mask();
        proof {
            lemma_mask_bits(mask, self.matched().map_values(|m: bool| !m));
        }
        let stats = UpsertResult {
            rows_updated: self.rows_updated,
            rows_inserted: mask_true_count(&mask) as u64,
            files_affected: self.files_rewritten,
            files_added: self.added_data_files.len() as u64,
            files_removed: self.deleted_data_files.len() as u64,
        };
        UpsertFileDelta {
            added_data_files: self.added_data_files,
            deleted_data_files: self.deleted_data_files,
            stats,
        }
    }
}

}
