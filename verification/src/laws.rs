//! What holds of an upsert as a whole.
use vstd::multiset::Multiset;
use vstd::prelude::*;

use crate::contents::{
    lemma_count_set, lemma_masked_agree, lemma_masked_all, lemma_masked_contains,
    lemma_masked_either, lemma_masked_len, lemma_masked_none, lemma_masked_set, lemma_masked_split,
    lemma_rows_of_concat, lemma_rows_of_contains, lemma_rows_of_one, lemma_select_rows, masked,
    rows_of,
};
use crate::cow_executor::{lemma_count_true, part, total_rows, MergeModel};
use crate::matcher::{
    as_indices, hits, lemma_pairs_in_bounds, match_of, matched_bits, pair_sources, pair_targets,
    row_changed,
};
use crate::model::{
    count_true, distinct, in_columns, lemma_count_complement, lemma_last_index_of, lemma_selected, selected,
    BatchModel, Row,
};
use crate::mor_executor::{
    delete_batch, first_occurrences, lemma_first_occurrences, PartitionModel,
};
use crate::planner::{schema_indices, KeyColumn};

verus! {

impl MergeModel {
    /// The source and the target batch have the same number of columns, and each column is a key
    /// column or is compared for changes.
    pub open spec fn covers(self, target: BatchModel) -> bool {
        &&& target.columns.len() == self.source.columns.len()
        &&& forall|c: int|
            0 <= c < target.columns.len() ==> #[trigger] self.reads(c)
    }

    /// The column is a key column or is compared for changes.
    pub open spec fn reads(self, c: int) -> bool {
        ||| exists|k: int| 0 <= k < self.keys.len() && #[trigger] self.keys[k] == c
        ||| exists|k: int| 0 <= k < self.non_keys.len() && #[trigger] self.non_keys[k] == c
    }

    /// The source rows that match a row of the target batch.
    pub open spec fn hit(self, target: BatchModel) -> Seq<bool> {
        Seq::new(
            self.source.rows,
            |s: int| hits(self.source.keys(self.keys), target.keys(self.keys), target.rows, s),
        )
    }

    /// Where two rows of the target batch match one source row, both are replaced.
    pub open spec fn settles(self, target: BatchModel) -> bool {
        forall|t: int, u: int|
            0 <= t < u < target.rows && #[trigger] self.match_of(target, t) is Some && #[trigger] self.match_of(
                target,
                u,
            ) == self.match_of(target, t) ==> self.replaced(target)[t] && self.replaced(target)[u]
    }

    /// The target rows whose key is not among those of the source.
    pub open spec fn untouched(self, target: BatchModel) -> Multiset<Row> {
        masked(target.all_rows(), self.unmatched(target))
    }

    /// The rows of a file whose key is not among those of the source.
    pub open spec fn untouched_in(self, file: Seq<BatchModel>) -> Multiset<Row>
        decreases file.len(),
    {
        if file.len() == 0 {
            Multiset::empty()
        } else {
            self.untouched_in(file.drop_last()).add(self.untouched(file.last()))
        }
    }
}

/// Rows with equal keys that did not change are equal.
proof fn lemma_unchanged_row(m: MergeModel, target: BatchModel, s: int, t: int)
    requires
        m.covers(target),
        m.source.project(m.keys, s) == target.project(m.keys, t),
        m.source.project(m.non_keys, s) == target.project(m.non_keys, t),
    ensures
        target.row(t) == m.source.row(s),
{
    assert forall|c: int| 0 <= c < target.columns.len() implies target.row(t)[c] == m.source.row(s)[c] by {
        assert(m.reads(c));
        if exists|k: int| 0 <= k < m.keys.len() && #[trigger] m.keys[k] == c {
            let k = choose|k: int| 0 <= k < m.keys.len() && #[trigger] m.keys[k] == c;
            assert(m.source.project(m.keys, s)[k] == target.project(m.keys, t)[k]);
        } else {
            let k = choose|k: int| 0 <= k < m.non_keys.len() && #[trigger] m.non_keys[k] == c;
            assert(m.source.project(m.non_keys, s)[k] == target.project(m.non_keys, t)[k]);
        }
    }
    assert(target.row(t) =~= m.source.row(s));
}

/// A matched target row has the key of the source row that it matches.
proof fn lemma_match(m: MergeModel, target: BatchModel, t: int)
    ensures
        m.match_of(target, t) matches Some(s) ==> {
            &&& 0 <= t < target.rows
            &&& 0 <= s < m.source.rows
            &&& t < target.keys(m.keys).len()
            &&& s < m.source.keys(m.keys).len()
            &&& m.source.keys(m.keys)[s] == target.keys(m.keys)[t]
            &&& m.source.project(m.keys, s) == target.project(m.keys, t)
        },
{
    if 0 <= t < target.keys(m.keys).len() {
        lemma_last_index_of(m.source.keys(m.keys), target.keys(m.keys)[t]);
    }
}

spec fn replaces_below(m: MergeModel, target: BatchModel, i: nat) -> Seq<bool> {
    Seq::new(
        m.source.rows,
        |s: int|
            exists|t: int|
                0 <= t < i && #[trigger] m.match_of(target, t) == Some(s) && m.replaces(target, s, t),
    )
}

spec fn hit_below(m: MergeModel, target: BatchModel, i: nat) -> Seq<bool> {
    Seq::new(
        m.source.rows,
        |s: int| exists|t: int| 0 <= t < i && #[trigger] m.match_of(target, t) == Some(s),
    )
}

/// The kept rows of the first `i` target rows and the source rows that replace the others among
/// them are the source rows that they match.
proof fn lemma_matched_rows(m: MergeModel, target: BatchModel, i: nat)
    requires
        m.covers(target),
        m.settles(target),
        i <= target.rows,
    ensures
        masked(target.all_rows().take(i as int), m.kept(target)).add(
            masked(m.source.all_rows(), replaces_below(m, target, i)),
        ) == masked(m.source.all_rows(), hit_below(m, target, i)),
    decreases i,
{
    let src = m.source.all_rows();
    let rows = target.all_rows();
    if i == 0 {
        lemma_masked_none(src, replaces_below(m, target, i));
        lemma_masked_none(src, hit_below(m, target, i));
        assert(masked(rows.take(0), m.kept(target)).add(masked(src, replaces_below(m, target, i)))
            =~= masked(src, hit_below(m, target, i)));
    } else {
        let p = (i - 1) as nat;
        lemma_matched_rows(m, target, p);
        assert(rows.take(i as int).drop_last() =~= rows.take(p as int));
        lemma_match(m, target, p as int);
        let r0 = replaces_below(m, target, p);
        let r1 = replaces_below(m, target, i);
        let h0 = hit_below(m, target, p);
        let h1 = hit_below(m, target, i);
        assert forall|s: int| 0 <= s < m.source.rows implies h1[s] == (h0[s] || m.match_of(target, p as int)
            == Some(s)) by {
            if h0[s] {
                let t = choose|t: int| 0 <= t < p && #[trigger] m.match_of(target, t) == Some(s);
                assert(0 <= t < i && m.match_of(target, t) == Some(s));
            }
        }
        assert forall|s: int| 0 <= s < m.source.rows implies r1[s] == (r0[s] || (m.match_of(
            target,
            p as int,
        ) == Some(s) && m.replaces(target, s, p as int))) by {
            if r0[s] {
                let t = choose|t: int|
                    0 <= t < p && #[trigger] m.match_of(target, t) == Some(s) && m.replaces(target, s, t);
                assert(0 <= t < i && m.match_of(target, t) == Some(s));
            }
        }
        match m.match_of(target, p as int) {
            None => {
                assert(h1 =~= h0);
                assert(r1 =~= r0);
            },
            Some(s) if h0[s] => {
                let t = choose|t: int| 0 <= t < p && #[trigger] m.match_of(target, t) == Some(s);
                assert(m.replaced(target)[t] && m.replaced(target)[p as int]);
                assert(h1 =~= h0);
                assert(r0[s]);
                assert(r1 =~= r0);
            },
            Some(s) => {
                assert(h1 =~= h0.update(s, true));
                lemma_masked_set(src, h0, s);
                if m.replaces(target, s, p as int) {
                    assert(!r0[s]) by {
                        if r0[s] {
                            let t = choose|t: int|
                                0 <= t < p && #[trigger] m.match_of(target, t) == Some(s) && m.replaces(
                                    target,
                                    s,
                                    t,
                                );
                            assert(h0[s]);
                        }
                    }
                    assert(r1 =~= r0.update(s, true));
                    lemma_masked_set(src, r0, s);
                } else {
                    assert(r1 =~= r0);
                    lemma_unchanged_row(m, target, s, p as int);
                    assert(src[s] == m.source.row(s));
                    assert(rows.take(i as int).last() == src[s]);
                }
            },
        }
        assert(masked(rows.take(i as int), m.kept(target)).add(masked(src, r1)) =~= masked(src, h1));
    }
}

/// A batch that is merged into a rewritten file holds its kept rows, the source rows that replace
/// others, and the rows that match nothing.
proof fn lemma_merged_parts(m: MergeModel, target: BatchModel)
    requires
        m.source.wf(),
        target.wf(),
    ensures
        rows_of(m.merged(target)) == masked(target.all_rows(), m.kept(target)).add(
            masked(m.source.all_rows(), m.updated(target)),
        ).add(m.untouched(target)),
{
    let src = m.source.all_rows();
    let rows = target.all_rows();
    lemma_part_rows(target, m.kept(target));
    lemma_part_rows(m.source, m.updated(target));
    lemma_part_rows(target, m.unmatched(target));
    lemma_count_true(m.kept(target));
    lemma_count_true(m.replaced(target));
    if count_true(m.kept(target)) + count_true(m.replaced(target)) == 0 {
        lemma_rows_of_one(target);
        assert forall|t: int| 0 <= t < rows.len() implies #[trigger] m.unmatched(target)[t] by {
            assert(!m.kept(target)[t]);
            assert(!m.replaced(target)[t]);
        }
        lemma_masked_all(rows, m.unmatched(target));
        assert forall|s: int| 0 <= s < src.len() implies !#[trigger] m.updated(target)[s] by {
            if m.updates(target, s) {
                let t = choose|t: int|
                    0 <= t < target.rows && #[trigger] m.match_of(target, t) == Some(s) && m.replaces(
                        target,
                        s,
                        t,
                    );
                assert(m.unmatched(target)[t]);
            }
        }
        lemma_masked_none(src, m.updated(target));
        lemma_masked_none(rows, m.kept(target));
        assert(rows_of(m.merged(target)) =~= masked(rows, m.kept(target)).add(
            masked(src, m.updated(target)),
        ).add(m.untouched(target)));
    } else {
        let kept = part(target, m.kept(target));
        let updated = part(m.source, m.updated(target));
        let unmatched = part(target, m.unmatched(target));
        lemma_rows_of_concat(kept, updated);
        lemma_rows_of_concat(kept + updated, unmatched);
    }
}

/// A batch that is merged into a rewritten file holds the rows that match nothing, and the source
/// rows that match the others.
proof fn lemma_merged_rows(m: MergeModel, target: BatchModel)
    requires
        m.source.wf(),
        target.wf(),
        m.covers(target),
        m.settles(target),
    ensures
        rows_of(m.merged(target)) == m.untouched(target).add(masked(m.source.all_rows(), m.hit(target))),
{
    lemma_merged_parts(m, target);
    lemma_matched_rows(m, target, target.rows);
    assert(target.all_rows().take(target.rows as int) =~= target.all_rows());
    assert(replaces_below(m, target, target.rows) =~= m.updated(target));
    lemma_hit_below(m, target);
    assert(rows_of(m.merged(target)) =~= m.untouched(target).add(
        masked(m.source.all_rows(), m.hit(target)),
    ));
}

/// The rows of the part of a batch that a mask selects.
proof fn lemma_part_rows(batch: BatchModel, mask: Seq<bool>)
    requires
        batch.wf(),
        mask.len() == batch.rows,
    ensures
        rows_of(part(batch, mask)) == masked(batch.all_rows(), mask),
{
    lemma_select_rows(batch, mask);
    lemma_count_true(mask);
    if count_true(mask) == 0 {
        lemma_masked_none(batch.all_rows(), mask);
    } else {
        lemma_rows_of_one(batch.select(selected(mask)));
    }
}

/// A batch none of whose rows is replaced holds what it would hold in a rewritten file.
proof fn lemma_unreplaced_rows(m: MergeModel, target: BatchModel)
    requires
        m.source.wf(),
        target.wf(),
        count_true(m.replaced(target)) == 0,
    ensures
        target.all_rows().to_multiset() == rows_of(m.merged(target)),
{
    let src = m.source.all_rows();
    let rows = target.all_rows();
    lemma_merged_parts(m, target);
    lemma_count_true(m.replaced(target));
    assert forall|s: int| 0 <= s < src.len() implies !#[trigger] m.updated(target)[s] by {
        if m.updates(target, s) {
            let t = choose|t: int|
                0 <= t < target.rows && #[trigger] m.match_of(target, t) == Some(s) && m.replaces(target, s, t);
            assert(m.replaced(target)[t]);
        }
    }
    lemma_masked_none(src, m.updated(target));
    let all = Seq::new(target.rows, |t: int| true);
    lemma_masked_all(rows, all);
    assert forall|t: int| 0 <= t < rows.len() implies #[trigger] all[t] == (m.kept(target)[t] || m.unmatched(
        target,
    )[t]) by {
        assert(!m.replaced(target)[t]);
    }
    lemma_masked_split(rows, m.kept(target), m.unmatched(target), all);
    assert(rows.to_multiset() =~= rows_of(m.merged(target)));
}

impl MergeModel {
    /// A row of the file matches source row `s`.
    pub open spec fn hit_in(self, file: Seq<BatchModel>, s: int) -> bool {
        exists|b: int| 0 <= b < file.len() && self.hit(#[trigger] file[b])[s]
    }

    /// A row of the table matches source row `s`.
    pub open spec fn hit_anywhere(self, files: Seq<Seq<BatchModel>>, s: int) -> bool {
        exists|f: int| 0 <= f < files.len() && self.hit_in(#[trigger] files[f], s)
    }

    /// Each source row is matched by rows of one batch at most, and by more than one of them only
    /// where it replaces them all.
    pub open spec fn matches_once(self, files: Seq<Seq<BatchModel>>) -> bool {
        &&& forall|f: int, b: int|
            0 <= f < files.len() && 0 <= b < files[f].len() ==> self.settles(#[trigger] files[f][b])
        &&& forall|f: int, b: int, c: int, s: int|
            0 <= f < files.len() && 0 <= b < c < files[f].len() && 0 <= s < self.source.rows ==> !(
            #[trigger] self.hit(files[f][b])[s] && #[trigger] self.hit(files[f][c])[s])
        &&& forall|f: int, g: int, s: int|
            0 <= f < g < files.len() && 0 <= s < self.source.rows ==> !(#[trigger] self.hit_in(files[f], s)
                && #[trigger] self.hit_in(files[g], s))
    }

    /// The source and every batch are well formed, and each column is read.
    pub open spec fn reads_all(self, files: Seq<Seq<BatchModel>>) -> bool {
        &&& self.source.wf()
        &&& forall|f: int, b: int|
            0 <= f < files.len() && 0 <= b < files[f].len() ==> (#[trigger] files[f][b]).wf() && self.covers(
                files[f][b],
            )
    }

    /// The rows of a table whose key is not among those of the source.
    pub open spec fn untouched_rows(self, files: Seq<Seq<BatchModel>>) -> Multiset<Row>
        decreases files.len(),
    {
        if files.len() == 0 {
            Multiset::empty()
        } else {
            self.untouched_rows(files.drop_last()).add(self.untouched_in(files.last()))
        }
    }

    /// The matched flags of the source rows once all files are matched.
    pub open spec fn flags_of(self, files: Seq<Seq<BatchModel>>) -> Seq<bool>
        decreases files.len(),
    {
        if files.len() == 0 {
            Seq::new(self.source.rows, |s: int| false)
        } else {
            self.flags_after(self.flags_of(files.drop_last()), files.last())
        }
    }

    /// The content of the files once those with a replaced row are rewritten.
    pub open spec fn rewritten_rows(self, files: Seq<Seq<BatchModel>>) -> Multiset<Row>
        decreases files.len(),
    {
        if files.len() == 0 {
            Multiset::empty()
        } else {
            self.rewritten_rows(files.drop_last()).add(
                if self.updates_in(files.last()) > 0 {
                    rows_of(self.merged_file(files.last()))
                } else {
                    rows_of(files.last())
                },
            )
        }
    }

    /// The source rows that are inserted once all files are matched.
    pub open spec fn inserted_rows(self, files: Seq<Seq<BatchModel>>) -> Multiset<Row> {
        rows_of(part(self.source, self.flags_of(files).map_values(|m: bool| !m)))
    }
}

/// Equal parts added on both sides.
proof fn lemma_add_step(
    a: Multiset<Row>,
    f: Multiset<Row>,
    u: Multiset<Row>,
    f0: Multiset<Row>,
    b: Multiset<Row>,
    v: Multiset<Row>,
    h: Multiset<Row>,
    f1: Multiset<Row>,
)
    requires
        a.add(f) == u.add(f0),
        b == v.add(h),
        f1 == f0.add(h),
    ensures
        a.add(b).add(f) == u.add(v).add(f1),
{
    assert forall|r: Row| #[trigger] a.add(b).add(f).count(r) == u.add(v).add(f1).count(r) by {
        assert(a.add(f).count(r) == a.count(r) + f.count(r));
        assert(u.add(f0).count(r) == u.count(r) + f0.count(r));
        assert(v.add(h).count(r) == v.count(r) + h.count(r));
        assert(f0.add(h).count(r) == f0.count(r) + h.count(r));
        assert(a.add(b).add(f).count(r) == a.count(r) + b.count(r) + f.count(r));
        assert(u.add(v).add(f1).count(r) == u.count(r) + v.count(r) + f1.count(r));
    }
    assert(a.add(b).add(f) =~= u.add(v).add(f1));
}

/// The flags after a file: those before it, and those of the rows that the file matches.
proof fn lemma_file_flags(m: MergeModel, flags: Seq<bool>, file: Seq<BatchModel>)
    requires
        flags.len() == m.source.rows,
    ensures
        m.flags_after(flags, file).len() == flags.len(),
        forall|s: int|
            0 <= s < flags.len() ==> #[trigger] m.flags_after(flags, file)[s] == (flags[s] || m.hit_in(file, s)),
    decreases file.len(),
{
    if file.len() > 0 {
        let rest = file.drop_last();
        let n = file.len() - 1;
        lemma_file_flags(m, flags, rest);
        assert forall|s: int| 0 <= s < flags.len() implies #[trigger] m.flags_after(flags, file)[s] == (
        flags[s] || m.hit_in(file, s)) by {
            assert(m.flags_after(flags, file)[s] == (m.flags_after(flags, rest)[s] || m.hit(file[n])[s]));
            if m.hit_in(rest, s) {
                let b = choose|b: int| 0 <= b < rest.len() && m.hit(#[trigger] rest[b])[s];
                assert(m.hit(file[b])[s]);
            }
            if m.hit_in(file, s) && !m.hit(file[n])[s] {
                let b = choose|b: int| 0 <= b < file.len() && m.hit(#[trigger] file[b])[s];
                assert(m.hit(rest[b])[s]);
            }
        }
    }
}

/// The flags after all files: those of the rows that the table matches.
pub proof fn lemma_table_flags(m: MergeModel, files: Seq<Seq<BatchModel>>)
    ensures
        m.flags_of(files).len() == m.source.rows,
        forall|s: int|
            0 <= s < m.source.rows ==> #[trigger] m.flags_of(files)[s] == m.hit_anywhere(files, s),
    decreases files.len(),
{
    if files.len() > 0 {
        let rest = files.drop_last();
        let n = files.len() - 1;
        lemma_table_flags(m, rest);
        lemma_file_flags(m, m.flags_of(rest), files[n]);
        assert forall|s: int| 0 <= s < m.source.rows implies #[trigger] m.flags_of(files)[s]
            == m.hit_anywhere(files, s) by {
            if m.hit_anywhere(rest, s) {
                let f = choose|f: int| 0 <= f < rest.len() && m.hit_in(#[trigger] rest[f], s);
                assert(m.hit_in(files[f], s));
            }
            if m.hit_anywhere(files, s) && !m.hit_in(files[n], s) {
                let f = choose|f: int| 0 <= f < files.len() && m.hit_in(#[trigger] files[f], s);
                assert(m.hit_in(rest[f], s));
            }
        }
    }
}

/// A file after the upsert holds its rows that match nothing, and the source rows that it matches.
proof fn lemma_file_rows(m: MergeModel, file: Seq<BatchModel>, flags: Seq<bool>)
    requires
        m.source.wf(),
        forall|b: int|
            0 <= b < file.len() ==> (#[trigger] file[b]).wf() && m.covers(file[b]) && m.settles(file[b]),
        forall|b: int, c: int, s: int|
            0 <= b < c < file.len() && 0 <= s < m.source.rows ==> !(#[trigger] m.hit(file[b])[s]
                && #[trigger] m.hit(file[c])[s]),
        flags.len() == m.source.rows,
        forall|s: int| 0 <= s < m.source.rows && #[trigger] flags[s] ==> !m.hit_in(file, s),
    ensures
        rows_of(m.merged_file(file)).add(masked(m.source.all_rows(), flags)) == m.untouched_in(file).add(
            masked(m.source.all_rows(), m.flags_after(flags, file)),
        ),
        m.updates_in(file) == 0 ==> rows_of(file).add(masked(m.source.all_rows(), flags)) == m.untouched_in(
            file,
        ).add(masked(m.source.all_rows(), m.flags_after(flags, file))),
    decreases file.len(),
{
    let src = m.source.all_rows();
    if file.len() == 0 {
        assert(rows_of(m.merged_file(file)).add(masked(src, flags)) =~= m.untouched_in(file).add(
            masked(src, flags),
        ));
    } else {
        let rest = file.drop_last();
        let n = file.len() - 1;
        let last = file[n];
        assert forall|b: int| 0 <= b < rest.len() implies (#[trigger] rest[b]).wf() && m.covers(rest[b])
            && m.settles(rest[b]) by {
            assert(rest[b] == file[b]);
        }
        assert forall|b: int, c: int, s: int|
            0 <= b < c < rest.len() && 0 <= s < m.source.rows implies !(#[trigger] m.hit(rest[b])[s]
            && #[trigger] m.hit(rest[c])[s]) by {
            assert(rest[b] == file[b] && rest[c] == file[c]);
        }
        assert forall|s: int| 0 <= s < m.source.rows && #[trigger] flags[s] implies !m.hit_in(rest, s) by {
            if m.hit_in(rest, s) {
                let b = choose|b: int| 0 <= b < rest.len() && m.hit(#[trigger] rest[b])[s];
                assert(m.hit(file[b])[s]);
            }
        }
        lemma_file_rows(m, rest, flags);
        lemma_file_flags(m, flags, rest);
        let f0 = m.flags_after(flags, rest);
        let f1 = m.flags_after(flags, file);
        let hit = m.hit(last);
        assert forall|s: int| 0 <= s < src.len() implies #[trigger] f1[s] == (f0[s] || hit[s]) by {}
        assert forall|s: int| 0 <= s < src.len() implies !(#[trigger] f0[s] && hit[s]) by {
            if f0[s] && hit[s] {
                assert(m.hit(file[n])[s]);
                assert(m.hit_in(file, s));
                let b = choose|b: int| 0 <= b < rest.len() && m.hit(#[trigger] rest[b])[s];
                assert(m.hit(file[b])[s]);
            }
        }
        lemma_masked_split(src, f0, hit, f1);
        lemma_merged_rows(m, last);
        lemma_rows_of_concat(m.merged_file(rest), m.merged(last));
        lemma_add_step(
            rows_of(m.merged_file(rest)),
            masked(src, flags),
            m.untouched_in(rest),
            masked(src, f0),
            rows_of(m.merged(last)),
            m.untouched(last),
            masked(src, hit),
            masked(src, f1),
        );
        if m.updates_in(file) == 0 {
            lemma_unreplaced_rows(m, last);
            lemma_add_step(
                rows_of(rest),
                masked(src, flags),
                m.untouched_in(rest),
                masked(src, f0),
                last.all_rows().to_multiset(),
                m.untouched(last),
                masked(src, hit),
                masked(src, f1),
            );
        }
    }
}

/// The files after the upsert hold the rows that match nothing, and the source rows that match the
/// others.
proof fn lemma_table_rows(m: MergeModel, files: Seq<Seq<BatchModel>>)
    requires
        m.reads_all(files),
        m.matches_once(files),
    ensures
        m.rewritten_rows(files) == m.untouched_rows(files).add(
            masked(m.source.all_rows(), m.flags_of(files)),
        ),
    decreases files.len(),
{
    let src = m.source.all_rows();
    if files.len() == 0 {
        lemma_masked_none(src, m.flags_of(files));
        assert(m.rewritten_rows(files) =~= m.untouched_rows(files).add(masked(src, m.flags_of(files))));
    } else {
        let rest = files.drop_last();
        let n = files.len() - 1;
        let last = files[n];
        assert forall|f: int, b: int| 0 <= f < rest.len() && 0 <= b < rest[f].len() implies (
        #[trigger] rest[f][b]).wf() && m.covers(rest[f][b]) && m.settles(rest[f][b]) by {
            assert(rest[f][b] == files[f][b]);
        }
        assert forall|f: int, b: int, c: int, s: int|
            0 <= f < rest.len() && 0 <= b < c < rest[f].len() && 0 <= s < m.source.rows implies !(
        #[trigger] m.hit(rest[f][b])[s] && #[trigger] m.hit(rest[f][c])[s]) by {
            assert(rest[f] == files[f]);
        }
        assert forall|f: int, g: int, s: int|
            0 <= f < g < rest.len() && 0 <= s < m.source.rows implies !(#[trigger] m.hit_in(rest[f], s)
            && #[trigger] m.hit_in(rest[g], s)) by {
            assert(rest[f] == files[f] && rest[g] == files[g]);
        }
        assert forall|b: int| 0 <= b < last.len() implies (#[trigger] last[b]).wf() && m.covers(last[b])
            && m.settles(last[b]) by {
            assert(files[n][b].wf());
        }
        lemma_table_rows(m, rest);
        lemma_table_flags(m, rest);
        let flags = m.flags_of(rest);
        assert forall|s: int| 0 <= s < m.source.rows && #[trigger] flags[s] implies !m.hit_in(last, s) by {
            let f = choose|f: int| 0 <= f < rest.len() && m.hit_in(#[trigger] rest[f], s);
            assert(m.hit_in(files[f], s));
            assert(!(m.hit_in(files[f], s) && m.hit_in(files[n], s)));
        }
        lemma_file_rows(m, last, flags);
        let after = if m.updates_in(last) > 0 {
            rows_of(m.merged_file(last))
        } else {
            rows_of(last)
        };
        assert forall|r: Row| #[trigger] m.rewritten_rows(files).count(r) == m.untouched_rows(files).add(
            masked(src, m.flags_of(files)),
        ).count(r) by {
            assert(after.add(masked(src, flags)).count(r) == m.untouched_in(last).add(
                masked(src, m.flags_of(files)),
            ).count(r));
        }
        assert(m.rewritten_rows(files) =~= m.untouched_rows(files).add(masked(src, m.flags_of(files))));
    }
}

/// A copy-on-write upsert makes the table hold the rows whose key is not among those of the
/// source, and the rows of the source, each as often as before: whether or not unchanged rows are
/// skipped, and whichever files are rewritten.
///
/// A source row that rows of several batches match, or that several rows of one batch match without
/// all being replaced, is left in the table more than once.
pub proof fn copy_on_write_upserts(m: MergeModel, files: Seq<Seq<BatchModel>>)
    requires
        m.reads_all(files),
        m.matches_once(files),
    ensures
        m.rewritten_rows(files).add(m.inserted_rows(files)) == m.untouched_rows(files).add(
            m.source.all_rows().to_multiset(),
        ),
{
    let src = m.source.all_rows();
    let flags = m.flags_of(files);
    let unmatched = flags.map_values(|x: bool| !x);
    let all = Seq::new(m.source.rows, |s: int| true);
    lemma_table_flags(m, files);
    lemma_table_rows(m, files);
    lemma_part_rows(m.source, unmatched);
    lemma_masked_split(src, flags, unmatched, all);
    lemma_masked_all(src, all);
    assert(m.rewritten_rows(files).add(m.inserted_rows(files)) =~= m.untouched_rows(files).add(
        src.to_multiset(),
    ));
}

/// A batch that is merged into a rewritten file holds the rows that match nothing, and source rows
/// that it matches.
proof fn lemma_merged_contains(m: MergeModel, target: BatchModel, row: Row)
    requires
        m.source.wf(),
        target.wf(),
        m.covers(target),
    ensures
        rows_of(m.merged(target)).count(row) > 0 <==> m.untouched(target).count(row) > 0 || masked(
            m.source.all_rows(),
            m.hit(target),
        ).count(row) > 0,
{
    let src = m.source.all_rows();
    let rows = target.all_rows();
    let kept = m.kept(target);
    let updated = m.updated(target);
    lemma_merged_parts(m, target);
    lemma_hit_below(m, target);
    lemma_masked_contains(rows, kept, row);
    lemma_masked_contains(src, updated, row);
    lemma_masked_contains(src, m.hit(target), row);
    if masked(rows, kept).count(row) > 0 {
        let t = choose|t: int| 0 <= t < rows.len() && kept[t] && #[trigger] rows[t] == row;
        let s = m.match_of(target, t)->0;
        lemma_match(m, target, t);
        lemma_unchanged_row(m, target, s, t);
        assert(m.match_of(target, t) == Some(s));
        assert(m.hit(target)[s] && src[s] == row);
    }
    if masked(src, updated).count(row) > 0 {
        let s = choose|s: int| 0 <= s < src.len() && updated[s] && #[trigger] src[s] == row;
        assert(m.hit(target)[s] && src[s] == row);
    }
    if masked(src, m.hit(target)).count(row) > 0 {
        let s = choose|s: int| 0 <= s < src.len() && m.hit(target)[s] && #[trigger] src[s] == row;
        assert(hit_below(m, target, target.rows)[s]);
        let t = choose|t: int| 0 <= t < target.rows && #[trigger] m.match_of(target, t) == Some(s);
        if m.replaces(target, s, t) {
            assert(updated[s] && src[s] == row);
        } else {
            lemma_match(m, target, t);
            lemma_unchanged_row(m, target, s, t);
            assert(kept[t] && rows[t] == row);
        }
    }
}

/// A file after the upsert holds its rows that match nothing, and source rows that it matches.
proof fn lemma_file_contains(m: MergeModel, file: Seq<BatchModel>, flags: Seq<bool>, row: Row)
    requires
        m.source.wf(),
        forall|b: int| 0 <= b < file.len() ==> (#[trigger] file[b]).wf() && m.covers(file[b]),
        flags.len() == m.source.rows,
    ensures
        rows_of(m.merged_file(file)).count(row) > 0 || masked(m.source.all_rows(), flags).count(row) > 0
            <==> m.untouched_in(file).count(row) > 0 || masked(
            m.source.all_rows(),
            m.flags_after(flags, file),
        ).count(row) > 0,
        m.updates_in(file) == 0 ==> rows_of(file) == rows_of(m.merged_file(file)),
    decreases file.len(),
{
    let src = m.source.all_rows();
    if file.len() > 0 {
        let rest = file.drop_last();
        let last = file[file.len() - 1];
        assert forall|b: int| 0 <= b < rest.len() implies (#[trigger] rest[b]).wf() && m.covers(rest[b]) by {
            assert(rest[b] == file[b]);
        }
        lemma_file_contains(m, rest, flags, row);
        lemma_file_flags(m, flags, rest);
        lemma_merged_contains(m, last, row);
        lemma_rows_of_concat(m.merged_file(rest), m.merged(last));
        let f0 = m.flags_after(flags, rest);
        let f1 = m.flags_after(flags, file);
        assert forall|s: int| 0 <= s < src.len() implies #[trigger] f1[s] == (f0[s] || m.hit(last)[s]) by {}
        lemma_masked_either(src, f0, m.hit(last), f1, row);
        if m.updates_in(file) == 0 {
            lemma_unreplaced_rows(m, last);
        }
    }
}

proof fn lemma_rewritten_contains(m: MergeModel, files: Seq<Seq<BatchModel>>, row: Row)
    requires
        m.reads_all(files),
    ensures
        m.rewritten_rows(files).count(row) > 0 <==> m.untouched_rows(files).count(row) > 0 || masked(
            m.source.all_rows(),
            m.flags_of(files),
        ).count(row) > 0,
    decreases files.len(),
{
    let src = m.source.all_rows();
    if files.len() == 0 {
        lemma_masked_none(src, m.flags_of(files));
    } else {
        let rest = files.drop_last();
        let n = files.len() - 1;
        let last = files[n];
        assert forall|f: int, b: int| 0 <= f < rest.len() && 0 <= b < rest[f].len() implies (
        #[trigger] rest[f][b]).wf() && m.covers(rest[f][b]) by {
            assert(rest[f][b] == files[f][b]);
        }
        assert forall|b: int| 0 <= b < last.len() implies (#[trigger] last[b]).wf() && m.covers(last[b]) by {
            assert(files[n][b].wf());
        }
        lemma_rewritten_contains(m, rest, row);
        lemma_table_flags(m, rest);
        let none = Seq::new(m.source.rows, |s: int| false);
        let flags = m.flags_of(rest);
        lemma_file_contains(m, last, none, row);
        lemma_masked_none(src, none);
        lemma_file_flags(m, none, last);
        lemma_file_flags(m, flags, last);
        let hit = m.flags_after(none, last);
        let after = m.flags_of(files);
        assert forall|s: int| 0 <= s < src.len() implies #[trigger] after[s] == (flags[s] || hit[s]) by {}
        lemma_masked_either(src, flags, hit, after, row);
    }
}

/// Whatever the keys of the table: after a copy-on-write upsert the table holds a row exactly where
/// it held the row before under a key that is not among those of the source, or the source has the
/// row.
pub proof fn upserted_table_holds(m: MergeModel, files: Seq<Seq<BatchModel>>, row: Row)
    requires
        m.reads_all(files),
    ensures
        m.rewritten_rows(files).add(m.inserted_rows(files)).count(row) > 0 <==> m.untouched_rows(files).count(
            row,
        ) > 0 || m.source.all_rows().contains(row),
{
    let src = m.source.all_rows();
    let flags = m.flags_of(files);
    let unmatched = flags.map_values(|x: bool| !x);
    let all = Seq::new(m.source.rows, |s: int| true);
    lemma_table_flags(m, files);
    lemma_rewritten_contains(m, files, row);
    lemma_part_rows(m.source, unmatched);
    lemma_masked_either(src, flags, unmatched, all, row);
    lemma_masked_contains(src, all, row);
    if src.contains(row) {
        let s = choose|s: int| 0 <= s < src.len() && src[s] == row;
        assert(all[s] && src[s] == row);
    }
}

/// A target file and the partition that it belongs to.
pub struct TargetFile {
    /// The partition.
    pub partition: PartitionModel,
    /// The content.
    pub batches: Seq<BatchModel>,
}

/// The contents of the files.
pub open spec fn contents(files: Seq<TargetFile>) -> Seq<Seq<BatchModel>> {
    files.map_values(|f: TargetFile| f.batches)
}

impl MergeModel {
    /// The source rows that the files of a partition match, once for each match.
    pub open spec fn matches_by_partition(self, files: Seq<TargetFile>, partition: PartitionModel) -> Seq<u32>
        decreases files.len(),
    {
        if files.len() == 0 {
            Seq::empty()
        } else if files.last().partition == partition {
            self.matches_by_partition(files.drop_last(), partition) + as_indices(
                self.matches_in(files.last().batches),
            )
        } else {
            self.matches_by_partition(files.drop_last(), partition)
        }
    }

    /// A row of the partition with the given key is deleted: the partition's delete batch holds
    /// the key.
    pub open spec fn deletes_key(
        self,
        key_columns: Seq<KeyColumn>,
        files: Seq<TargetFile>,
        partition: PartitionModel,
        key: Row,
    ) -> bool {
        delete_batch(
            self.source,
            key_columns,
            first_occurrences(self.matches_by_partition(files, partition)),
        ).all_rows().contains(key)
    }

    /// The rows of a batch of the partition that no delete removes.
    pub open spec fn survivors(
        self,
        key_columns: Seq<KeyColumn>,
        files: Seq<TargetFile>,
        partition: PartitionModel,
        batch: BatchModel,
    ) -> Multiset<Row> {
        masked(
            batch.all_rows(),
            Seq::new(
                batch.rows,
                |t: int| !self.deletes_key(key_columns, files, partition, batch.project(self.keys, t)),
            ),
        )
    }

    /// The rows of some batches of the partition that no delete removes.
    pub open spec fn survivors_in(
        self,
        key_columns: Seq<KeyColumn>,
        files: Seq<TargetFile>,
        partition: PartitionModel,
        batches: Seq<BatchModel>,
    ) -> Multiset<Row>
        decreases batches.len(),
    {
        if batches.len() == 0 {
            Multiset::empty()
        } else {
            self.survivors_in(key_columns, files, partition, batches.drop_last()).add(
                self.survivors(key_columns, files, partition, batches.last()),
            )
        }
    }

    /// The rows of the first `n` files that no delete removes.
    pub open spec fn surviving_rows(
        self,
        key_columns: Seq<KeyColumn>,
        files: Seq<TargetFile>,
        n: nat,
    ) -> Multiset<Row>
        decreases n,
    {
        if n == 0 {
            Multiset::empty()
        } else {
            self.surviving_rows(key_columns, files, (n - 1) as nat).add(
                self.survivors_in(
                    key_columns,
                    files,
                    files[n - 1].partition,
                    files[n - 1].batches,
                ),
            )
        }
    }
}

/// The pairs of a batch hold the source row that each matched target row matches, and no others.
proof fn lemma_pair_sources(m: MergeModel, target: BatchModel)
    ensures
        forall|t: int|
            0 <= t < target.rows && (#[trigger] m.match_of(target, t)) is Some ==> pair_sources(
                m.source.keys(m.keys),
                target.keys(m.keys),
                target.rows,
            ).contains(m.match_of(target, t)->0),
        forall|s: int| #[trigger]
            pair_sources(m.source.keys(m.keys), target.keys(m.keys), target.rows).contains(s) ==> 0 <= s
                < m.source.keys(m.keys).len(),
{
    let sk = m.source.keys(m.keys);
    let tk = target.keys(m.keys);
    let bits = matched_bits(sk, tk, target.rows);
    let targets = pair_targets(sk, tk, target.rows);
    let sources = pair_sources(sk, tk, target.rows);
    lemma_selected(bits);
    lemma_pairs_in_bounds(sk, tk, target.rows);
    assert forall|t: int| 0 <= t < target.rows && (#[trigger] m.match_of(target, t)) is Some implies sources.contains(
        m.match_of(target, t)->0,
    ) by {
        assert(bits[t]);
        let j = choose|j: int| 0 <= j < targets.len() && targets[j] == t;
        assert(sources[j] == m.match_of(target, t)->0);
    }
}

/// The matches of a file hold the matches of each of its batches, and source rows only.
proof fn lemma_matches_in(m: MergeModel, file: Seq<BatchModel>, b: int, t: int)
    ensures
        0 <= b < file.len() && 0 <= t < file[b].rows && m.match_of(file[b], t) is Some ==> m.matches_in(
            file,
        ).contains(m.match_of(file[b], t)->0),
        forall|s: int| #[trigger]
            m.matches_in(file).contains(s) ==> 0 <= s < m.source.keys(m.keys).len(),
    decreases file.len(),
{
    if file.len() > 0 {
        let rest = file.drop_last();
        let last = file.last();
        let sources = pair_sources(m.source.keys(m.keys), last.keys(m.keys), last.rows);
        lemma_matches_in(m, rest, b, t);
        lemma_pair_sources(m, last);
        let all = m.matches_in(file);
        assert(all == m.matches_in(rest) + sources);
        if 0 <= b < file.len() && 0 <= t < file[b].rows && m.match_of(file[b], t) is Some {
            let s = m.match_of(file[b], t)->0;
            if b < rest.len() {
                assert(rest[b] == file[b]);
                let i = choose|i: int| 0 <= i < m.matches_in(rest).len() && m.matches_in(rest)[i] == s;
                assert(all[i] == s);
            } else {
                assert(sources.contains(s));
                let i = choose|i: int| 0 <= i < sources.len() && sources[i] == s;
                assert(all[m.matches_in(rest).len() + i] == s);
            }
        }
        assert forall|s: int| #[trigger] all.contains(s) implies 0 <= s < m.source.keys(m.keys).len() by {
            let i = choose|i: int| 0 <= i < all.len() && all[i] == s;
            if i < m.matches_in(rest).len() {
                assert(m.matches_in(rest).contains(s));
            } else {
                assert(sources[i - m.matches_in(rest).len()] == s);
                assert(sources.contains(s));
            }
        }
    }
}

/// What is recorded for a partition holds the matches of each of its files, and source rows only.
proof fn lemma_matches_by_partition(m: MergeModel, files: Seq<TargetFile>, f: int, b: int, t: int, p: PartitionModel)
    requires
        m.source.rows <= 0x1_0000_0000,
    ensures
        0 <= f < files.len() && files[f].partition == p && 0 <= b < files[f].batches.len() && 0 <= t
            < files[f].batches[b].rows && m.match_of(files[f].batches[b], t) is Some
            ==> m.matches_by_partition(files, p).contains(
            (m.match_of(files[f].batches[b], t)->0) as u32,
        ),
        forall|u: u32| #[trigger]
            m.matches_by_partition(files, p).contains(u) ==> u < m.source.keys(m.keys).len(),
    decreases files.len(),
{
    if files.len() > 0 {
        let rest = files.drop_last();
        let last = files.last();
        lemma_matches_by_partition(m, rest, f, b, t, p);
        lemma_matches_in(m, last.batches, b, t);
        let before = m.matches_by_partition(rest, p);
        let all = m.matches_by_partition(files, p);
        let found = m.matches_in(last.batches);
        let new = as_indices(found);
        if last.partition == p {
            assert(all == before + new);
        }
        if 0 <= f < files.len() && files[f].partition == p && 0 <= b < files[f].batches.len() && 0 <= t
            < files[f].batches[b].rows && m.match_of(files[f].batches[b], t) is Some {
            let s = m.match_of(files[f].batches[b], t)->0;
            if f < rest.len() {
                assert(rest[f] == files[f]);
                let i = choose|i: int| 0 <= i < before.len() && before[i] == s as u32;
                assert(all[i] == s as u32);
            } else {
                assert(found.contains(s));
                let i = choose|i: int| 0 <= i < found.len() && found[i] == s;
                assert(new[i] == s as u32);
                assert(all[before.len() + i] == s as u32);
            }
        }
        assert forall|u: u32| #[trigger] all.contains(u) implies u < m.source.keys(m.keys).len() by {
            let i = choose|i: int| 0 <= i < all.len() && all[i] == u;
            if i < before.len() {
                assert(before[i] == u);
                assert(before.contains(u));
            } else {
                let s = found[i - before.len()];
                assert(found.contains(s));
                assert(new[i - before.len()] == s as u32);
            }
        }
    }
}

/// The deletes of a partition remove the rows of its files that match a source row, and no others.
proof fn lemma_deleted_iff_matched(
    m: MergeModel,
    key_columns: Seq<KeyColumn>,
    files: Seq<TargetFile>,
    f: int,
    b: int,
    t: int,
)
    requires
        m.source.rows <= 0x1_0000_0000,
        m.keys == schema_indices(key_columns),
        0 <= f < files.len(),
        0 <= b < files[f].batches.len(),
        0 <= t < files[f].batches[b].rows,
    ensures
        m.deletes_key(
            key_columns,
            files,
            files[f].partition,
            files[f].batches[b].project(m.keys, t),
        ) <==> m.match_of(files[f].batches[b], t) is Some,
{
    let p = files[f].partition;
    let target = files[f].batches[b];
    let key = target.project(m.keys, t);
    let sk = m.source.keys(m.keys);
    let tk = target.keys(m.keys);
    let recorded = m.matches_by_partition(files, p);
    let unique = first_occurrences(recorded);
    let deletes = delete_batch(m.source, key_columns, unique);
    lemma_matches_by_partition(m, files, f, b, t, p);
    lemma_first_occurrences(recorded);
    lemma_match(m, target, t);
    assert forall|r: int| 0 <= r < unique.len() implies #[trigger] deletes.all_rows()[r] == m.source.project(
        m.keys,
        unique[r] as int,
    ) by {
        assert(deletes.all_rows()[r] =~= m.source.project(m.keys, unique[r] as int));
    }
    if m.match_of(target, t) is Some {
        let s = m.match_of(target, t)->0;
        assert(unique.contains(s as u32));
        let r = choose|r: int| 0 <= r < unique.len() && unique[r] == s as u32;
        assert(deletes.all_rows()[r] == key);
    }
    if deletes.all_rows().contains(key) {
        let r = choose|r: int| 0 <= r < deletes.all_rows().len() && deletes.all_rows()[r] == key;
        assert(unique.contains(unique[r]));
        assert(recorded.contains(unique[r]));
        let s = unique[r] as int;
        assert(sk[s] == m.source.project(m.keys, s));
        lemma_last_index_of(sk, tk[t]);
    }
}

proof fn lemma_survivors_in(
    m: MergeModel,
    key_columns: Seq<KeyColumn>,
    files: Seq<TargetFile>,
    f: int,
    n: int,
)
    requires
        m.source.rows <= 0x1_0000_0000,
        m.keys == schema_indices(key_columns),
        0 <= f < files.len(),
        0 <= n <= files[f].batches.len(),
    ensures
        m.survivors_in(key_columns, files, files[f].partition, files[f].batches.take(n)) == m.untouched_in(
            files[f].batches.take(n),
        ),
    decreases n,
{
    let batches = files[f].batches;
    if n > 0 {
        lemma_survivors_in(m, key_columns, files, f, n - 1);
        assert(batches.take(n).drop_last() =~= batches.take(n - 1));
        let last = batches[n - 1];
        let kept = Seq::new(
            last.rows,
            |t: int| !m.deletes_key(key_columns, files, files[f].partition, last.project(m.keys, t)),
        );
        assert forall|t: int| 0 <= t < last.all_rows().len() implies #[trigger] kept[t] == m.unmatched(last)[t] by {
            lemma_deleted_iff_matched(m, key_columns, files, f, n - 1, t);
        }
        lemma_masked_agree(last.all_rows(), kept, m.unmatched(last));
    }
}

proof fn lemma_surviving_rows(m: MergeModel, key_columns: Seq<KeyColumn>, files: Seq<TargetFile>, n: nat)
    requires
        m.source.rows <= 0x1_0000_0000,
        m.keys == schema_indices(key_columns),
        n <= files.len(),
    ensures
        m.surviving_rows(key_columns, files, n) == m.untouched_rows(contents(files).take(n as int)),
    decreases n,
{
    if n > 0 {
        let i = n - 1;
        lemma_surviving_rows(m, key_columns, files, i as nat);
        assert(contents(files).take(n as int).drop_last() =~= contents(files).take(i));
        assert(contents(files).take(n as int).last() == files[i].batches);
        lemma_survivors_in(m, key_columns, files, i, files[i].batches.len() as int);
        assert(files[i].batches.take(files[i].batches.len() as int) =~= files[i].batches);
    }
}

/// A merge-on-read upsert makes the table hold the rows whose key is not among those of the
/// source, and the rows of the source: the equality deletes of each partition remove the rows of
/// its files that match a source row, and no others.
pub proof fn merge_on_read_upserts(m: MergeModel, key_columns: Seq<KeyColumn>, files: Seq<TargetFile>)
    requires
        m.source.rows <= 0x1_0000_0000,
        m.keys == schema_indices(key_columns),
    ensures
        m.surviving_rows(key_columns, files, files.len()).add(m.source.all_rows().to_multiset())
            == m.untouched_rows(contents(files)).add(m.source.all_rows().to_multiset()),
{
    lemma_surviving_rows(m, key_columns, files, files.len());
    assert(contents(files).take(files.len() as int) =~= contents(files));
}

/// The two write strategies make the table hold the same rows.
pub proof fn write_modes_agree(m: MergeModel, key_columns: Seq<KeyColumn>, files: Seq<TargetFile>)
    requires
        m.source.rows <= 0x1_0000_0000,
        m.keys == schema_indices(key_columns),
        m.reads_all(contents(files)),
        m.matches_once(contents(files)),
    ensures
        m.rewritten_rows(contents(files)).add(m.inserted_rows(contents(files))) == m.surviving_rows(
            key_columns,
            files,
            files.len(),
        ).add(m.source.all_rows().to_multiset()),
{
    copy_on_write_upserts(m, contents(files));
    merge_on_read_upserts(m, key_columns, files);
}

/// The number of rows of a table.
pub open spec fn table_size(files: Seq<Seq<BatchModel>>) -> nat
    decreases files.len(),
{
    if files.len() == 0 {
        0
    } else {
        table_size(files.drop_last()) + total_rows(files.last())
    }
}

impl MergeModel {
    /// No two rows of the target batch are replaced by one source row.
    pub open spec fn replaces_apart(self, target: BatchModel) -> bool {
        forall|t: int, u: int|
            0 <= t < u < target.rows && #[trigger] self.replaced(target)[t] && #[trigger] self.replaced(target)[u]
                ==> self.match_of(target, t) != self.match_of(target, u)
    }
}

/// Each target row is kept, replaced or unmatched, and as many source rows replace as rows are
/// replaced, where no two are replaced by one.
proof fn lemma_part_counts(m: MergeModel, target: BatchModel, i: nat)
    requires
        m.replaces_apart(target),
        i <= target.rows,
    ensures
        count_true(m.kept(target).take(i as int)) + count_true(replaces_below(m, target, i)) + count_true(
            m.unmatched(target).take(i as int),
        ) == i,
    decreases i,
{
    let r1 = replaces_below(m, target, i);
    if i == 0 {
        lemma_count_true(r1);
    } else {
        let p = (i - 1) as nat;
        let r0 = replaces_below(m, target, p);
        lemma_part_counts(m, target, p);
        assert(m.kept(target).take(i as int).drop_last() =~= m.kept(target).take(p as int));
        assert(m.unmatched(target).take(i as int).drop_last() =~= m.unmatched(target).take(p as int));
        lemma_match(m, target, p as int);
        assert forall|s: int| 0 <= s < m.source.rows implies r1[s] == (r0[s] || (m.match_of(
            target,
            p as int,
        ) == Some(s) && m.replaces(target, s, p as int))) by {
            if r0[s] {
                let t = choose|t: int|
                    0 <= t < p && #[trigger] m.match_of(target, t) == Some(s) && m.replaces(target, s, t);
                assert(0 <= t < i && m.match_of(target, t) == Some(s));
            }
        }
        if m.replaced(target)[p as int] {
            let s = m.match_of(target, p as int)->0;
            assert(!r0[s]) by {
                if r0[s] {
                    let t = choose|t: int|
                        0 <= t < p && #[trigger] m.match_of(target, t) == Some(s) && m.replaces(target, s, t);
                    assert(m.replaced(target)[t]);
                }
            }
            assert(r1 =~= r0.update(s, true));
            lemma_count_set(r0, s);
        } else {
            assert(r1 =~= r0);
        }
    }
}

/// The source rows that match a batch, seen from the target rows.
proof fn lemma_hit_below(m: MergeModel, target: BatchModel)
    ensures
        hit_below(m, target, target.rows) == m.hit(target),
{
    let sk = m.source.keys(m.keys);
    let tk = target.keys(m.keys);
    assert forall|s: int| 0 <= s < m.source.rows implies hit_below(m, target, target.rows)[s] == m.hit(
        target,
    )[s] by {
        if hit_below(m, target, target.rows)[s] {
            let t = choose|t: int| 0 <= t < target.rows && #[trigger] m.match_of(target, t) == Some(s);
            assert(match_of(sk, tk, t) == Some(s));
        }
        if hits(sk, tk, target.rows, s) {
            let t = choose|t: int| 0 <= t < target.rows && #[trigger] match_of(sk, tk, t) == Some(s);
            assert(m.match_of(target, t) == Some(s));
        }
    }
    assert(hit_below(m, target, target.rows) =~= m.hit(target));
}

/// A batch that is merged into a rewritten file keeps its number of rows.
proof fn lemma_merged_size(m: MergeModel, target: BatchModel)
    requires
        m.source.wf(),
        target.wf(),
        m.replaces_apart(target),
    ensures
        rows_of(m.merged(target)).len() == target.rows,
{
    lemma_merged_parts(m, target);
    lemma_part_counts(m, target, target.rows);
    assert(m.kept(target).take(target.rows as int) =~= m.kept(target));
    assert(m.unmatched(target).take(target.rows as int) =~= m.unmatched(target));
    assert(replaces_below(m, target, target.rows) =~= m.updated(target));
    lemma_masked_len(target.all_rows(), m.kept(target));
    lemma_masked_len(m.source.all_rows(), m.updated(target));
    lemma_masked_len(target.all_rows(), m.unmatched(target));
}

/// The number of rows of some batches, and of what they become in a rewritten file.
proof fn lemma_file_size(m: MergeModel, file: Seq<BatchModel>)
    requires
        m.source.wf(),
        forall|b: int| 0 <= b < file.len() ==> (#[trigger] file[b]).wf() && m.replaces_apart(file[b]),
    ensures
        rows_of(file).len() == total_rows(file),
        rows_of(m.merged_file(file)).len() == total_rows(file),
    decreases file.len(),
{
    if file.len() > 0 {
        let rest = file.drop_last();
        let last = file[file.len() - 1];
        assert forall|b: int| 0 <= b < rest.len() implies (#[trigger] rest[b]).wf() && m.replaces_apart(
            rest[b],
        ) by {
            assert(rest[b] == file[b]);
        }
        lemma_file_size(m, rest);
        lemma_merged_size(m, last);
        lemma_rows_of_concat(m.merged_file(rest), m.merged(last));
        last.all_rows().to_multiset_ensures();
    }
}

proof fn lemma_table_size(m: MergeModel, files: Seq<Seq<BatchModel>>)
    requires
        m.source.wf(),
        forall|f: int, b: int|
            0 <= f < files.len() && 0 <= b < files[f].len() ==> (#[trigger] files[f][b]).wf()
                && m.replaces_apart(files[f][b]),
    ensures
        m.rewritten_rows(files).len() == table_size(files),
    decreases files.len(),
{
    if files.len() > 0 {
        let rest = files.drop_last();
        let n = files.len() - 1;
        assert forall|f: int, b: int| 0 <= f < rest.len() && 0 <= b < rest[f].len() implies (
        #[trigger] rest[f][b]).wf() && m.replaces_apart(rest[f][b]) by {
            assert(rest[f][b] == files[f][b]);
        }
        lemma_table_size(m, rest);
        lemma_file_size(m, files[n]);
    }
}

/// Updates keep the number of rows of a table, and inserts add theirs: after a copy-on-write
/// upsert the rewritten and untouched files hold as many rows as before, and the inserted ones are
/// the source rows that matched nothing.
///
/// Two rows of one batch that one source row replaces become one row.
pub proof fn updates_keep_the_row_count(m: MergeModel, files: Seq<Seq<BatchModel>>)
    requires
        m.source.wf(),
        forall|f: int, b: int|
            0 <= f < files.len() && 0 <= b < files[f].len() ==> (#[trigger] files[f][b]).wf()
                && m.replaces_apart(files[f][b]),
    ensures
        m.rewritten_rows(files).len() == table_size(files),
        m.inserted_rows(files).len() == count_true(m.flags_of(files).map_values(|x: bool| !x)),
        m.inserted_rows(files).len() + count_true(m.flags_of(files)) == m.source.rows,
{
    let flags = m.flags_of(files);
    let unmatched = flags.map_values(|x: bool| !x);
    lemma_table_size(m, files);
    lemma_table_flags(m, files);
    lemma_part_rows(m.source, unmatched);
    lemma_masked_len(m.source.all_rows(), unmatched);
    lemma_count_complement(flags);
}

/// A source row that was matched stays matched.
pub proof fn matched_rows_stay_matched(m: MergeModel, flags: Seq<bool>, file: Seq<BatchModel>)
    ensures
        m.flags_after(flags, file).len() == flags.len(),
        forall|s: int| 0 <= s < flags.len() && flags[s] ==> #[trigger] m.flags_after(flags, file)[s],
    decreases file.len(),
{
    if file.len() > 0 {
        matched_rows_stay_matched(m, flags, file.drop_last());
    }
}

/// Where unchanged rows are skipped, a file whose matched rows are those of the source is not
/// rewritten.
pub proof fn unchanged_file_is_left_alone(m: MergeModel, file: Seq<BatchModel>)
    requires
        m.skip_unchanged,
        forall|b: int, t: int, s: int|
            0 <= b < file.len() && #[trigger] m.match_of(file[b], t) == Some(s) ==> !#[trigger] row_changed(
                m.source,
                file[b],
                m.non_keys,
                s,
                t,
            ),
    ensures
        m.updates_in(file) == 0,
    decreases file.len(),
{
    if file.len() > 0 {
        let rest = file.drop_last();
        assert forall|b: int, t: int, s: int|
            0 <= b < rest.len() && #[trigger] m.match_of(rest[b], t) == Some(s) implies !#[trigger] row_changed(
            m.source,
            rest[b],
            m.non_keys,
            s,
            t,
        ) by {
            assert(rest[b] == file[b]);
        }
        unchanged_file_is_left_alone(m, rest);
        let last = file[file.len() - 1];
        lemma_count_true(m.replaced(last));
        if count_true(m.replaced(last)) > 0 {
            let t = choose|t: int| 0 <= t < m.replaced(last).len() && #[trigger] m.replaced(last)[t];
            let s = m.match_of(last, t)->0;
            assert(m.match_of(file[file.len() - 1], t) == Some(s));
            assert(row_changed(m.source, file[file.len() - 1], m.non_keys, s, t));
        }
    }
}

/// The rows of a table.
pub open spec fn table_rows(files: Seq<Seq<BatchModel>>) -> Multiset<Row>
    decreases files.len(),
{
    if files.len() == 0 {
        Multiset::empty()
    } else {
        table_rows(files.drop_last()).add(rows_of(files.last()))
    }
}

/// A table holds a row exactly where one of its files does.
pub proof fn lemma_table_contains(files: Seq<Seq<BatchModel>>, row: Row)
    ensures
        table_rows(files).count(row) > 0 <==> exists|f: int, b: int, t: int|
            0 <= f < files.len() && 0 <= b < files[f].len() && 0 <= t < files[f][b].rows
                && #[trigger] files[f][b].row(t) == row,
    decreases files.len(),
{
    if files.len() > 0 {
        let rest = files.drop_last();
        let n = files.len() - 1;
        lemma_table_contains(rest, row);
        lemma_rows_of_contains(files[n], row);
        if table_rows(files).count(row) > 0 {
            if table_rows(rest).count(row) > 0 {
                let (f, b, t) = choose|f: int, b: int, t: int|
                    0 <= f < rest.len() && 0 <= b < rest[f].len() && 0 <= t < rest[f][b].rows
                        && #[trigger] rest[f][b].row(t) == row;
                assert(files[f][b].row(t) == row);
            } else {
                let (b, t) = choose|b: int, t: int|
                    0 <= b < files[n].len() && 0 <= t < files[n][b].rows && #[trigger] files[n][b].row(t)
                        == row;
                assert(files[n][b].row(t) == row);
            }
        }
        if exists|f: int, b: int, t: int|
            0 <= f < files.len() && 0 <= b < files[f].len() && 0 <= t < files[f][b].rows
                && #[trigger] files[f][b].row(t) == row {
            let (f, b, t) = choose|f: int, b: int, t: int|
                0 <= f < files.len() && 0 <= b < files[f].len() && 0 <= t < files[f][b].rows
                    && #[trigger] files[f][b].row(t) == row;
            if f < n {
                assert(rest[f][b].row(t) == row);
            } else {
                assert(files[n][b].row(t) == row);
            }
        }
    }
}

/// The key of a row.
pub open spec fn key_of(row: Row, keys: Seq<usize>) -> Row {
    Seq::new(keys.len(), |k: int| row[keys[k] as int])
}

/// The key columns are columns of every batch, and there is one.
pub open spec fn has_keys(m: MergeModel, files: Seq<Seq<BatchModel>>) -> bool {
    &&& m.keys.len() > 0
    &&& in_columns(m.keys, m.source)
    &&& in_columns(m.non_keys, m.source)
    &&& m.reads_all(files)
}

proof fn lemma_key_of(batch: BatchModel, keys: Seq<usize>, t: int)
    requires
        in_columns(keys, batch),
        keys.len() > 0,
        0 <= t < batch.rows,
    ensures
        key_of(batch.row(t), keys) == batch.project(keys, t),
        batch.keys(keys)[t] == batch.project(keys, t),
{
    assert(key_of(batch.row(t), keys) =~= batch.project(keys, t));
}

/// A row that matches nothing has no source row's key.
proof fn lemma_untouched_key(m: MergeModel, files: Seq<Seq<BatchModel>>, row: Row, s: int)
    requires
        has_keys(m, files),
        m.untouched_rows(files).count(row) > 0,
        0 <= s < m.source.rows,
    ensures
        key_of(row, m.keys) != m.source.project(m.keys, s),
    decreases files.len(),
{
    if files.len() > 0 {
        let rest = files.drop_last();
        let last = files.last();
        assert forall|f: int, b: int| 0 <= f < rest.len() && 0 <= b < rest[f].len() implies (
        #[trigger] rest[f][b]).wf() && m.covers(rest[f][b]) by {
            assert(rest[f][b] == files[f][b]);
        }
        if m.untouched_rows(rest).count(row) > 0 {
            lemma_untouched_key(m, rest, row, s);
        } else {
            assert forall|b: int| 0 <= b < last.len() implies m.covers(#[trigger] last[b]) by {
                assert(files[files.len() - 1][b].wf());
            }
            lemma_untouched_key_in(m, last, row, s);
        }
    }
}

proof fn lemma_untouched_key_in(m: MergeModel, file: Seq<BatchModel>, row: Row, s: int)
    requires
        m.keys.len() > 0,
        in_columns(m.keys, m.source),
        forall|b: int| 0 <= b < file.len() ==> m.covers(#[trigger] file[b]),
        m.untouched_in(file).count(row) > 0,
        0 <= s < m.source.rows,
    ensures
        key_of(row, m.keys) != m.source.project(m.keys, s),
    decreases file.len(),
{
    if file.len() > 0 {
        let rest = file.drop_last();
        let last = file[file.len() - 1];
        if m.untouched_in(rest).count(row) > 0 {
            assert forall|b: int| 0 <= b < rest.len() implies m.covers(#[trigger] rest[b]) by {
                assert(rest[b] == file[b]);
            }
            lemma_untouched_key_in(m, rest, row, s);
        } else {
            lemma_masked_contains(last.all_rows(), m.unmatched(last), row);
            let t = choose|t: int|
                0 <= t < last.all_rows().len() && m.unmatched(last)[t] && #[trigger] last.all_rows()[t]
                    == row;
            assert(in_columns(m.keys, last)) by {
                assert(m.covers(last));
            }
            lemma_key_of(last, m.keys, t);
            lemma_last_index_of(m.source.keys(m.keys), last.keys(m.keys)[t]);
            assert(m.match_of(last, t) is None);
            assert(m.source.keys(m.keys)[s] == m.source.project(m.keys, s));
        }
    }
}

/// The row has the key of a source row.
pub open spec fn has_source_key(m: MergeModel, row: Row) -> bool {
    exists|s: int| 0 <= s < m.source.rows && #[trigger] m.source.project(m.keys, s) == key_of(row, m.keys)
}

/// The rows that an upsert leaves: those of the files that it reads, as it leaves them, the inserted
/// ones, and those that it does not read.
pub open spec fn left_rows(
    m: MergeModel,
    files: Seq<Seq<BatchModel>>,
    unread: Seq<Seq<BatchModel>>,
) -> Multiset<Row> {
    m.rewritten_rows(files).add(m.inserted_rows(files)).add(table_rows(unread))
}

/// The rows of the file with a match are those of the source, where the table holds only what an
/// upsert left.
proof fn lemma_left_file(
    m: MergeModel,
    before: Seq<Seq<BatchModel>>,
    unread: Seq<Seq<BatchModel>>,
    after: Seq<Seq<BatchModel>>,
    f: int,
)
    requires
        m.skip_unchanged,
        has_keys(m, before),
        has_keys(m, after),
        distinct(m.source.keys(m.keys)),
        forall|row: Row| #[trigger]
            table_rows(unread).count(row) > 0 ==> !has_source_key(m, row),
        forall|row: Row| #[trigger]
            table_rows(after).count(row) > 0 ==> left_rows(m, before, unread).count(row) > 0,
        0 <= f < after.len(),
    ensures
        m.updates_in(after[f]) == 0,
{
    let src = m.source.all_rows();
    let sk = m.source.keys(m.keys);
    let file = after[f];
    assert forall|b: int, t: int, s: int|
        0 <= b < file.len() && #[trigger] m.match_of(file[b], t) == Some(s) implies !#[trigger] row_changed(
        m.source,
        file[b],
        m.non_keys,
        s,
        t,
    ) by {
        let target = after[f][b];
        let row = target.row(t);
        assert(target.wf() && m.covers(target));
        lemma_match(m, target, t);
        lemma_table_contains(after, row);
        assert(after[f][b].row(t) == row);
        assert(table_rows(after).count(row) > 0);
        lemma_key_of(target, m.keys, t);
        assert(m.source.project(m.keys, s) == key_of(row, m.keys));
        assert(has_source_key(m, row));
        upserted_table_holds(m, before, row);
        if m.untouched_rows(before).count(row) > 0 {
            lemma_untouched_key(m, before, row, s);
        } else {
            assert(src.contains(row));
            let other = choose|i: int| 0 <= i < src.len() && src[i] == row;
            assert(m.source.row(other) == row);
            lemma_key_of(m.source, m.keys, other);
            assert(sk[other] == sk[s]);
            assert(other == s);
            assert(m.source.project(m.non_keys, s) =~= target.project(m.non_keys, t)) by {
                assert forall|k: int| 0 <= k < m.non_keys.len() implies m.source.project(m.non_keys, s)[k]
                    == target.project(m.non_keys, t)[k] by {
                    assert(m.source.row(s)[m.non_keys[k] as int] == row[m.non_keys[k] as int]);
                }
            }
        }
    }
    unchanged_file_is_left_alone(m, file);
}

/// Files without a replaced row stay as they are.
pub proof fn unreplaced_files_keep_their_rows(m: MergeModel, files: Seq<Seq<BatchModel>>)
    requires
        forall|f: int| 0 <= f < files.len() ==> m.updates_in(#[trigger] files[f]) == 0,
    ensures
        m.rewritten_rows(files) == table_rows(files),
    decreases files.len(),
{
    if files.len() > 0 {
        let rest = files.drop_last();
        assert forall|f: int| 0 <= f < rest.len() implies m.updates_in(#[trigger] rest[f]) == 0 by {
            assert(rest[f] == files[f]);
        }
        unreplaced_files_keep_their_rows(m, rest);
        assert(m.updates_in(files[files.len() - 1]) == 0);
    }
}

/// A repeated upsert changes nothing: where unchanged rows are skipped, an upsert of the source that
/// reads files of a table in which an upsert of it left its rows, among them every row with a key
/// of the source, rewrites none of them and inserts nothing. The rows that the first upsert did not
/// read have no key of the source.
pub proof fn repeated_upsert_changes_nothing(
    m: MergeModel,
    before: Seq<Seq<BatchModel>>,
    unread: Seq<Seq<BatchModel>>,
    after: Seq<Seq<BatchModel>>,
)
    requires
        m.skip_unchanged,
        has_keys(m, before),
        has_keys(m, after),
        distinct(m.source.keys(m.keys)),
        forall|row: Row| #[trigger] table_rows(unread).count(row) > 0 ==> !has_source_key(m, row),
        forall|row: Row| #[trigger]
            table_rows(after).count(row) > 0 ==> left_rows(m, before, unread).count(row) > 0,
        forall|row: Row| #[trigger]
            left_rows(m, before, unread).count(row) > 0 && has_source_key(m, row) ==> table_rows(
                after,
            ).count(row) > 0,
    ensures
        forall|f: int| 0 <= f < after.len() ==> m.updates_in(#[trigger] after[f]) == 0,
        m.rewritten_rows(after) == table_rows(after),
        count_true(m.flags_of(after).map_values(|x: bool| !x)) == 0,
        m.inserted_rows(after).len() == 0,
{
    let src = m.source.all_rows();
    let sk = m.source.keys(m.keys);
    assert forall|f: int| 0 <= f < after.len() implies m.updates_in(#[trigger] after[f]) == 0 by {
        lemma_left_file(m, before, unread, after, f);
    }
    unreplaced_files_keep_their_rows(m, after);
    let flags = m.flags_of(after);
    let unmatched = flags.map_values(|x: bool| !x);
    lemma_table_flags(m, after);
    assert forall|s: int| 0 <= s < m.source.rows implies #[trigger] flags[s] by {
        let row = m.source.row(s);
        assert(src[s] == row);
        assert(src.contains(row));
        upserted_table_holds(m, before, row);
        lemma_key_of(m.source, m.keys, s);
        assert(m.source.project(m.keys, s) == key_of(row, m.keys));
        assert(has_source_key(m, row));
        assert(left_rows(m, before, unread).count(row) > 0);
        lemma_table_contains(after, row);
        let (f, b, t) = choose|f: int, b: int, t: int|
            0 <= f < after.len() && 0 <= b < after[f].len() && 0 <= t < after[f][b].rows
                && #[trigger] after[f][b].row(t) == row;
        let target = after[f][b];
        assert(target.wf() && m.covers(target));
        lemma_key_of(target, m.keys, t);
        lemma_last_index_of(sk, target.keys(m.keys)[t]);
        assert(sk[s] == target.keys(m.keys)[t]);
        lemma_match(m, target, t);
        assert(m.match_of(target, t) == Some(s));
        assert(match_of(sk, target.keys(m.keys), t) == Some(s));
        assert(m.hit(after[f][b])[s]);
        assert(m.hit_in(after[f], s));
    }
    lemma_count_true(unmatched);
    lemma_part_rows(m.source, unmatched);
    lemma_masked_len(src, unmatched);
}

}
