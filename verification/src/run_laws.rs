//! What holds of runs of the executors, whether or not their outcome is committed at once.
use vstd::multiset::Multiset;
use vstd::prelude::*;

use crate::contents::rows_of;
use crate::cow_executor::{part, CowExecutor, MergeModel};
use crate::data_file::DataFile;
use crate::laws::{
    contents, has_keys, has_source_key, key_of, left_rows, lemma_table_contains,
    repeated_upsert_changes_nothing, table_rows, TargetFile,
};
use crate::model::{count_true, distinct, BatchModel, Row};
use crate::mor_executor::{
    delete_batch, first_occurrences, MorExecutor, PartitionDeletes, PartitionModel,
};
use crate::planner::{schema_indices, typed_keys, KeyColumn};
use crate::planning_laws::{pruned_keys, pruning_keeps_matches};
use crate::predicate::{NamedRow, PredicateModel};
use crate::upsert::{
    commits, scan_predicate, Overwrite, UpsertConfig, UpsertFileDelta, UpsertResult, UpsertWriteMode,
};

verus! {

/// A writer of files, as far as the counts show it: how many files it makes of some content.
pub type Writer = spec_fn(Seq<BatchModel>) -> nat;

/// A target file of a copy-on-write run.
pub struct CowStep {
    /// Its content.
    pub batches: Seq<BatchModel>,
    /// The file, where it is known.
    pub original: Option<DataFile>,
    /// The files that hold its new content where it is rewritten.
    pub written: Seq<DataFile>,
}

/// A copy-on-write run: the target files, the states of the executor from its start on, the files
/// of the inserted rows, the last state and the outcome.
pub struct CowRun {
    /// The target files.
    pub steps: Seq<CowStep>,
    /// The state before each file, and the one after the last.
    pub states: Seq<CowExecutor>,
    /// The files that hold the inserted rows.
    pub inserts: Seq<DataFile>,
    /// The state once the inserted rows are written.
    pub last: CowExecutor,
    /// The outcome.
    pub delta: UpsertFileDelta,
}

/// The executor processes the file, and takes note of the files written where it is rewritten.
pub open spec fn takes_file(before: CowExecutor, after: CowExecutor, step: CowStep) -> bool {
    if before.merge().updates_in(step.batches) > 0 {
        exists|between: CowExecutor| #[trigger]
            before.after_file(between, step.batches) && between.after_rewrite(
                after,
                step.written,
                step.original,
            )
    } else {
        before.after_file(after, step.batches)
    }
}

impl CowRun {
    /// The run goes from a new executor for the merge through all files to its outcome.
    pub open spec fn is_run(self, m: MergeModel) -> bool {
        &&& self.states.len() == self.steps.len() + 1
        &&& self.states[0].merge() == m
        &&& self.states[0].is_new()
        &&& forall|i: int|
            0 <= i < self.steps.len() ==> takes_file(
                #[trigger] self.states[i],
                self.states[i + 1],
                self.steps[i],
            )
        &&& if count_true(self.states.last().matched().map_values(|b: bool| !b)) > 0 {
            self.states.last().after_inserts(self.last, self.inserts)
        } else {
            self.last == self.states.last()
        }
        &&& self.last.yields(self.delta)
    }

    /// The contents of the target files.
    pub open spec fn files(self) -> Seq<Seq<BatchModel>> {
        self.steps.map_values(|step: CowStep| step.batches)
    }

    /// The rows of the table once the outcome is committed: those of the files that are not
    /// replaced, of the rewritten ones and of the inserted ones.
    pub open spec fn committed_rows(self, m: MergeModel) -> Multiset<Row> {
        m.rewritten_rows(self.files()).add(
            rows_of(part(m.source, self.last.matched().map_values(|b: bool| !b))),
        )
    }

    /// The other run has the same target files.
    pub open spec fn resembles(self, other: CowRun) -> bool {
        &&& self.steps.len() == other.steps.len()
        &&& forall|i: int|
            0 <= i < self.steps.len() ==> {
                &&& (#[trigger] self.steps[i]).batches == other.steps[i].batches
                &&& self.steps[i].original == other.steps[i].original
            }
    }

    /// The files of the run are written by the writer: those of each rewritten file, and those of
    /// the inserted rows.
    pub open spec fn is_written_by(self, m: MergeModel, writer: Writer) -> bool {
        let unmatched = self.last.matched().map_values(|b: bool| !b);
        &&& forall|i: int|
            0 <= i < self.steps.len() && m.updates_in((#[trigger] self.steps[i]).batches) > 0
                ==> self.steps[i].written.len() == writer(m.merged_file(self.steps[i].batches))
        &&& count_true(unmatched) > 0 ==> self.inserts.len() == writer(part(m.source, unmatched))
    }
}

/// The number of rows that are replaced in some files.
pub open spec fn replaced_rows(m: MergeModel, files: Seq<Seq<BatchModel>>) -> nat
    decreases files.len(),
{
    if files.len() == 0 {
        0
    } else {
        replaced_rows(m, files.drop_last()) + m.updates_in(files.last())
    }
}

/// The states of a run, as far as its files show them.
pub proof fn lemma_cow_states(m: MergeModel, a: CowRun, i: int)
    requires
        a.is_run(m),
        0 <= i <= a.steps.len(),
    ensures
        a.states[i].merge() == m,
        a.states[i].matched() == m.flags_of(a.files().take(i)),
        a.states[i].updated() == replaced_rows(m, a.files().take(i)),
    decreases i,
{
    if i > 0 {
        lemma_cow_states(m, a, i - 1);
        assert(takes_file(a.states[i - 1], a.states[i - 1 + 1], a.steps[i - 1]));
        assert(a.files().take(i).drop_last() =~= a.files().take(i - 1));
        assert(a.files().take(i).last() == a.steps[i - 1].batches);
    }
}

proof fn lemma_cow_states_agree(m: MergeModel, a: CowRun, b: CowRun, writer: Writer, i: int)
    requires
        a.is_run(m),
        b.is_run(m),
        a.resembles(b),
        0 <= i <= a.steps.len(),
    ensures
        a.states[i].rewritten() == b.states[i].rewritten(),
        a.states[i].deleted() == b.states[i].deleted(),
        a.is_written_by(m, writer) && b.is_written_by(m, writer) ==> a.states[i].added().len()
            == b.states[i].added().len(),
    decreases i,
{
    if i > 0 {
        lemma_cow_states_agree(m, a, b, writer, i - 1);
        lemma_cow_states(m, a, i - 1);
        lemma_cow_states(m, b, i - 1);
        assert(takes_file(a.states[i - 1], a.states[i - 1 + 1], a.steps[i - 1]));
        assert(takes_file(b.states[i - 1], b.states[i - 1 + 1], b.steps[i - 1]));
        assert(a.steps[i - 1].batches == b.steps[i - 1].batches);
    } else {
        assert(a.states[0].deleted() =~= b.states[0].deleted());
    }
}

/// A copy-on-write run counts the replaced rows of its files and the source rows that match none of
/// them, and leaves the table with the rows that the files have once rewritten and the inserted
/// ones.
pub proof fn copy_on_write_run(m: MergeModel, a: CowRun)
    requires
        a.is_run(m),
    ensures
        a.delta.stats.rows_updated == replaced_rows(m, a.files()),
        a.delta.stats.rows_inserted == count_true(m.flags_of(a.files()).map_values(|b: bool| !b)),
        a.committed_rows(m) == m.rewritten_rows(a.files()).add(m.inserted_rows(a.files())),
{
    let n = a.steps.len() as int;
    lemma_cow_states(m, a, n);
    assert(a.files().take(n) =~= a.files());
    assert(a.states.last() == a.states[n]);
}

/// Two copy-on-write runs over the same target files, one whose outcome is committed and one whose
/// outcome is handed to the caller, report the same rows and the same files replaced, and leave the
/// table with the same rows. Where both have their files from one writer, all counts agree: only
/// the names of the written files differ.
pub proof fn copy_on_write_runs_agree(
    m: MergeModel,
    a: CowRun,
    b: CowRun,
    writer: Writer,
    last_sequence_number: i64,
    overwrite: Overwrite,
    result: UpsertResult,
)
    requires
        a.is_run(m),
        b.is_run(m),
        a.resembles(b),
        commits(a.delta, UpsertWriteMode::CopyOnWrite, last_sequence_number, overwrite, result),
    ensures
        result.rows_updated == b.delta.stats.rows_updated,
        result.rows_inserted == b.delta.stats.rows_inserted,
        result.files_affected == b.delta.stats.files_affected,
        result.files_removed == b.delta.stats.files_removed,
        overwrite.deleted@ == b.delta.deleted_data_files@,
        a.committed_rows(m) == b.committed_rows(m),
        a.is_written_by(m, writer) && b.is_written_by(m, writer) ==> result == b.delta.stats
            && overwrite.added@.len() == b.delta.added_data_files@.len(),
{
    let n = a.steps.len() as int;
    assert(a.files() =~= b.files()) by {
        assert forall|i: int| 0 <= i < a.steps.len() implies a.files()[i] == b.files()[i] by {
            assert(a.steps[i].batches == b.steps[i].batches);
        }
    }
    copy_on_write_run(m, a);
    copy_on_write_run(m, b);
    lemma_cow_states(m, a, n);
    lemma_cow_states(m, b, n);
    lemma_cow_states_agree(m, a, b, writer, n);
    assert(a.states.last() == a.states[n]);
    assert(b.states.last() == b.states[n]);
}

/// The row as predicates see it, under the names of the table's columns.
pub open spec fn named_row(names: Seq<Seq<char>>, row: Row) -> NamedRow {
    Map::new(|name: Seq<char>| names.contains(name), |name: Seq<char>| row[names.index_of(name)])
}

/// The names are those of the table's columns, the key columns among them.
pub open spec fn are_column_names(names: Seq<Seq<char>>, key_columns: Seq<KeyColumn>) -> bool {
    &&& names.no_duplicates()
    &&& forall|k: int|
        0 <= k < key_columns.len() ==> {
            &&& (#[trigger] key_columns[k]).schema_index < names.len()
            &&& names[key_columns[k].schema_index as int] == key_columns[k].name@
        }
}

/// The predicate admits no row of the files, so that a scan may leave them out.
pub open spec fn left_out(
    predicate: PredicateModel,
    names: Seq<Seq<char>>,
    files: Seq<Seq<BatchModel>>,
) -> bool {
    forall|f: int, b: int, t: int|
        0 <= f < files.len() && 0 <= b < files[f].len() && 0 <= t < files[f][b].rows ==> !predicate.admits(
            named_row(names, #[trigger] files[f][b].row(t)),
        )
}

/// No row of the files that the scan leaves out has a key of the source.
pub proof fn no_match_is_left_out(
    m: MergeModel,
    config: UpsertConfig,
    key_columns: Seq<KeyColumn>,
    names: Seq<Seq<char>>,
    files: Seq<Seq<BatchModel>>,
    row: Row,
)
    requires
        has_keys(m, files),
        m.keys == schema_indices(key_columns),
        are_column_names(names, key_columns),
        config.pruning_predicate is None,
        typed_keys(m.source, key_columns),
        forall|s: int| 0 <= s < m.source.rows ==> #[trigger] pruned_keys(m.source, key_columns, s),
        left_out(scan_predicate(config, m.source, key_columns), names, files),
        table_rows(files).count(row) > 0,
    ensures
        !has_source_key(m, row),
{
    if has_source_key(m, row) {
        let s = choose|s: int|
            0 <= s < m.source.rows && #[trigger] m.source.project(m.keys, s) == key_of(row, m.keys);
        lemma_table_contains(files, row);
        let (f, b, t) = choose|f: int, b: int, t: int|
            0 <= f < files.len() && 0 <= b < files[f].len() && 0 <= t < files[f][b].rows
                && #[trigger] files[f][b].row(t) == row;
        let named = named_row(names, row);
        assert forall|k: int| 0 <= k < key_columns.len() implies {
            &&& named.contains_key((#[trigger] key_columns[k]).name@)
            &&& named[key_columns[k].name@] == m.source.columns[key_columns[k].schema_index as int].cells[s]
            &&& key_columns[k].schema_index < m.source.columns.len()
        } by {
            let c = key_columns[k].schema_index as int;
            assert(names[c] == key_columns[k].name@);
            assert(names.contains(names[c]));
            let i = names.index_of(names[c]);
            assert(names[i] == names[c]);
            assert(i == c);
            assert(m.keys[k] == key_columns[k].schema_index);
            assert(m.source.project(m.keys, s)[k] == key_of(row, m.keys)[k]);
        }
        assert(pruned_keys(m.source, key_columns, s));
        pruning_keeps_matches(m.source, key_columns, s, named);
        assert(!scan_predicate(config, m.source, key_columns).admits(
            named_row(names, files[f][b].row(t)),
        ));
    }
}

proof fn lemma_idle_states(m: MergeModel, a: CowRun, i: int)
    requires
        a.is_run(m),
        forall|f: int| 0 <= f < a.files().len() ==> m.updates_in(#[trigger] a.files()[f]) == 0,
        0 <= i <= a.steps.len(),
    ensures
        a.states[i].merge() == m,
        a.states[i].updated() == 0,
        a.states[i].rewritten() == 0,
        a.states[i].added().len() == 0,
        a.states[i].deleted().len() == 0,
    decreases i,
{
    if i > 0 {
        lemma_idle_states(m, a, i - 1);
        assert(takes_file(a.states[i - 1], a.states[i - 1 + 1], a.steps[i - 1]));
        assert(m.updates_in(a.files()[i - 1]) == 0);
        assert(a.files()[i - 1] == a.steps[i - 1].batches);
    }
}

/// To upsert a source twice is to upsert it once: where unchanged rows are skipped, a copy-on-write
/// run over the table that an earlier run left reports nothing, writes nothing and replaces
/// nothing, however the rows are spread over files by then and whatever files either scan leaves
/// out. The keys must be ones that the pruning predicate stands for: a null in a column that has
/// a predicate is not found again.
pub proof fn upserting_twice_changes_nothing(
    m: MergeModel,
    config: UpsertConfig,
    key_columns: Seq<KeyColumn>,
    names: Seq<Seq<char>>,
    a: CowRun,
    unread_by_a: Seq<Seq<BatchModel>>,
    b: CowRun,
    unread_by_b: Seq<Seq<BatchModel>>,
)
    requires
        a.is_run(m),
        b.is_run(m),
        m.skip_unchanged,
        m.keys == schema_indices(key_columns),
        distinct(m.source.keys(m.keys)),
        has_keys(m, a.files()),
        has_keys(m, unread_by_a),
        has_keys(m, b.files()),
        has_keys(m, unread_by_b),
        are_column_names(names, key_columns),
        config.pruning_predicate is None,
        typed_keys(m.source, key_columns),
        forall|s: int| 0 <= s < m.source.rows ==> #[trigger] pruned_keys(m.source, key_columns, s),
        left_out(scan_predicate(config, m.source, key_columns), names, unread_by_a),
        left_out(scan_predicate(config, m.source, key_columns), names, unread_by_b),
        table_rows(b.files()).add(table_rows(unread_by_b)) == a.committed_rows(m).add(
            table_rows(unread_by_a),
        ),
    ensures
        b.delta.stats == (UpsertResult {
            rows_updated: 0,
            rows_inserted: 0,
            files_affected: 0,
            files_added: 0,
            files_removed: 0,
        }),
        b.delta.added_data_files@.len() == 0,
        b.delta.deleted_data_files@.len() == 0,
        b.committed_rows(m) == table_rows(b.files()),
        b.committed_rows(m).add(table_rows(unread_by_b)) == a.committed_rows(m).add(
            table_rows(unread_by_a),
        ),
{
    let before = a.files();
    let after = b.files();
    copy_on_write_run(m, a);
    let left = left_rows(m, before, unread_by_a);
    assert(left == table_rows(after).add(table_rows(unread_by_b)));
    assert forall|row: Row| #[trigger] table_rows(unread_by_a).count(row) > 0 implies !has_source_key(
        m,
        row,
    ) by {
        no_match_is_left_out(m, config, key_columns, names, unread_by_a, row);
    }
    assert forall|row: Row| #[trigger] table_rows(after).count(row) > 0 implies left.count(row) > 0 by {}
    assert forall|row: Row| #[trigger] left.count(row) > 0 && has_source_key(m, row) implies table_rows(
        after,
    ).count(row) > 0 by {
        if table_rows(unread_by_b).count(row) > 0 {
            no_match_is_left_out(m, config, key_columns, names, unread_by_b, row);
        }
    }
    repeated_upsert_changes_nothing(m, before, unread_by_a, after);
    let n = b.steps.len() as int;
    lemma_idle_states(m, b, n);
    lemma_cow_states(m, b, n);
    assert(after.take(n) =~= after);
    assert(b.states.last() == b.states[n]);
    copy_on_write_run(m, b);
    assert(b.committed_rows(m) =~= table_rows(after));
}

/// A merge-on-read run: the target files, the states of the executor from its start on, the deletes
/// and the files that hold them, the files of the source rows, the last state and the outcome.
pub struct MorRun {
    /// The target files.
    pub steps: Seq<TargetFile>,
    /// The state before each file, and the one after the last.
    pub states: Seq<MorExecutor>,
    /// The deletes of each partition.
    pub deletes: Seq<PartitionDeletes>,
    /// The files that hold the deletes.
    pub delete_files: Seq<DataFile>,
    /// The files that hold the source rows.
    pub data_files: Seq<DataFile>,
    /// The state once the files are written.
    pub last: MorExecutor,
    /// The outcome.
    pub delta: UpsertFileDelta,
}

impl MorRun {
    /// The run goes from a new executor for the merge through all files to its outcome.
    pub open spec fn is_run(self, m: MergeModel, key_columns: Seq<KeyColumn>, partitioned: bool) -> bool {
        &&& self.states.len() == self.steps.len() + 1
        &&& self.states[0].merge() == m
        &&& self.states[0].is_partitioned() == partitioned
        &&& self.states[0].is_new()
        &&& forall|i: int|
            0 <= i < self.steps.len() ==> (#[trigger] self.states[i]).after_file(
                self.states[i + 1],
                self.steps[i].partition,
                self.steps[i].batches,
            )
        &&& self.states.last().are_all_deletes(key_columns, self.deletes)
        &&& self.states.last().after_writing(self.last, self.data_files, self.delete_files)
        &&& self.last.yields(self.delta)
    }

    /// The files of the run are written by the writer: those of the source rows, and those of the
    /// deletes of each partition.
    pub open spec fn is_written_by(self, m: MergeModel, writer: Writer) -> bool {
        &&& self.data_files.len() == writer(seq![m.source])
        &&& self.delete_files.len() == files_of_deletes(writer, self.deletes)
    }
}

/// The number of files that the writer makes of the deletes of each partition.
pub open spec fn files_of_deletes(writer: Writer, deletes: Seq<PartitionDeletes>) -> nat
    decreases deletes.len(),
{
    if deletes.len() == 0 {
        0
    } else {
        files_of_deletes(writer, deletes.drop_last()) + writer(seq![deletes.last().batch@])
    }
}

/// The two are the deletes of one partition: they hold the same keys.
pub open spec fn same_deletes(a: PartitionDeletes, b: PartitionDeletes) -> bool {
    &&& a.batch@ == b.batch@
    &&& match (a.partition, b.partition) {
        (Some(p), Some(q)) => p@ == q@,
        (None, None) => true,
        _ => false,
    }
}

/// The list holds the same deletes.
pub open spec fn among_deletes(one: PartitionDeletes, list: Seq<PartitionDeletes>) -> bool {
    exists|j: int| 0 <= j < list.len() && same_deletes(one, #[trigger] list[j])
}

proof fn lemma_mor_states(
    m: MergeModel,
    key_columns: Seq<KeyColumn>,
    partitioned: bool,
    a: MorRun,
    i: int,
)
    requires
        a.is_run(m, key_columns, partitioned),
        0 <= i <= a.steps.len(),
    ensures
        a.states[i].merge() == m,
        a.states[i].is_partitioned() == partitioned,
        a.states[i].matched() == m.flags_of(contents(a.steps).take(i)),
        a.states[i].updated() == replaced_rows(m, contents(a.steps).take(i)),
        forall|p: PartitionModel| #[trigger]
            a.states[i].matches_of(p) == m.matches_by_partition(a.steps.take(i), p),
        a.states[i].data_files().len() == 0,
        a.states[i].delete_files().len() == 0,
    decreases i,
{
    let files = contents(a.steps);
    if i > 0 {
        lemma_mor_states(m, key_columns, partitioned, a, i - 1);
        assert(a.states[i - 1].after_file(
            a.states[i - 1 + 1],
            a.steps[i - 1].partition,
            a.steps[i - 1].batches,
        ));
        assert(files.take(i).drop_last() =~= files.take(i - 1));
        assert(files.take(i).last() == a.steps[i - 1].batches);
        assert(a.steps.take(i).drop_last() =~= a.steps.take(i - 1));
        assert(a.steps.take(i).last() == a.steps[i - 1]);
    } else {
        assert forall|p: PartitionModel| #[trigger]
            a.states[0].matches_of(p) == m.matches_by_partition(a.steps.take(0), p) by {
            assert(a.states[0].matches_of(p) =~= m.matches_by_partition(a.steps.take(0), p));
        }
    }
}

/// A merge-on-read run counts the changed rows of its files and the source rows that match none of
/// them, and deletes for each partition the keys that its files match.
pub proof fn merge_on_read_run(m: MergeModel, key_columns: Seq<KeyColumn>, partitioned: bool, a: MorRun)
    requires
        a.is_run(m, key_columns, partitioned),
    ensures
        a.delta.stats.rows_updated == replaced_rows(m, contents(a.steps)),
        a.delta.stats.rows_inserted == m.source.rows - count_true(m.flags_of(contents(a.steps))),
        a.delta.added_data_files@ == a.data_files + a.delete_files,
        forall|p: PartitionModel| #[trigger]
            a.states.last().matches_of(p) == m.matches_by_partition(a.steps, p),
{
    let n = a.steps.len() as int;
    lemma_mor_states(m, key_columns, partitioned, a, n);
    assert(contents(a.steps).take(n) =~= contents(a.steps));
    assert(a.steps.take(n) =~= a.steps);
    assert(a.states.last() == a.states[n]);
    assert(a.last.data_files() =~= a.data_files);
    assert(a.last.delete_files() =~= a.delete_files);
}

/// The sum of the counts of some partitions.
spec fn summed(count: spec_fn(PartitionModel) -> nat, partitions: Seq<PartitionModel>) -> nat
    decreases partitions.len(),
{
    if partitions.len() == 0 {
        0
    } else {
        summed(count, partitions.drop_last()) + count(partitions.last())
    }
}

proof fn lemma_summed_remove(
    count: spec_fn(PartitionModel) -> nat,
    partitions: Seq<PartitionModel>,
    j: int,
)
    requires
        0 <= j < partitions.len(),
    ensures
        summed(count, partitions) == summed(count, partitions.remove(j)) + count(partitions[j]),
    decreases partitions.len(),
{
    let rest = partitions.drop_last();
    if j == partitions.len() - 1 {
        assert(partitions.remove(j) =~= rest);
    } else {
        lemma_summed_remove(count, rest, j);
        assert(partitions.remove(j).drop_last() =~= rest.remove(j));
    }
}

/// The sum does not depend on the order of the partitions.
proof fn lemma_summed_agree(
    count: spec_fn(PartitionModel) -> nat,
    p: Seq<PartitionModel>,
    q: Seq<PartitionModel>,
)
    requires
        p.no_duplicates(),
        q.no_duplicates(),
        forall|v: PartitionModel| p.contains(v) == q.contains(v),
    ensures
        summed(count, p) == summed(count, q),
    decreases p.len(),
{
    if p.len() == 0 {
        if q.len() > 0 {
            assert(q.contains(q[0]));
            assert(p.contains(q[0]));
        }
    } else {
        let n = p.len() - 1;
        let rest = p.drop_last();
        let v = p[n];
        assert(p.contains(v));
        let j = choose|j: int| 0 <= j < q.len() && q[j] == v;
        let others = q.remove(j);
        lemma_summed_remove(count, q, j);
        assert(others.no_duplicates());
        assert forall|w: PartitionModel| rest.contains(w) == others.contains(w) by {
            if rest.contains(w) {
                let i = choose|i: int| 0 <= i < rest.len() && rest[i] == w;
                assert(p[i] == w);
                assert(q.contains(w));
                let k = choose|k: int| 0 <= k < q.len() && q[k] == w;
                assert(k != j);
                let at = if k < j {
                    k
                } else {
                    k - 1
                };
                assert(others[at] == w);
            }
            if others.contains(w) {
                let i = choose|i: int| 0 <= i < others.len() && others[i] == w;
                let at = if i < j {
                    i
                } else {
                    i + 1
                };
                assert(q[at] == w);
                assert(p.contains(w));
                let k = choose|k: int| 0 <= k < p.len() && p[k] == w;
                assert(k != n);
                assert(rest[k] == w);
            }
        }
        lemma_summed_agree(count, rest, others);
    }
}

/// The files of the deletes, counted by partition.
proof fn lemma_files_of_deletes(
    key_columns: Seq<KeyColumn>,
    x: MorExecutor,
    writer: Writer,
    deletes: Seq<PartitionDeletes>,
    partitions: Seq<PartitionModel>,
)
    requires
        x.lists_deletes(key_columns, deletes, partitions),
    ensures
        files_of_deletes(writer, deletes) == summed(files_of_partition(key_columns, x, writer), partitions),
    decreases deletes.len(),
{
    if deletes.len() > 0 {
        let n = deletes.len() - 1;
        let rest = deletes.drop_last();
        let others = partitions.drop_last();
        assert(x.lists_deletes(key_columns, rest, others)) by {
            assert forall|i: int| 0 <= i < rest.len() implies (#[trigger] rest[i]).deletes(
                x.merge().source,
                key_columns,
                others[i],
                x.is_partitioned(),
                x.matches_of(others[i]),
            ) by {
                assert(deletes[i].deletes(
                    x.merge().source,
                    key_columns,
                    partitions[i],
                    x.is_partitioned(),
                    x.matches_of(partitions[i]),
                ));
            }
        }
        lemma_files_of_deletes(key_columns, x, writer, rest, others);
        assert(deletes[n].deletes(
            x.merge().source,
            key_columns,
            partitions[n],
            x.is_partitioned(),
            x.matches_of(partitions[n]),
        ));
    }
}

/// The number of files that the writer makes of the deletes of a partition.
spec fn files_of_partition(key_columns: Seq<KeyColumn>, x: MorExecutor, writer: Writer) -> spec_fn(
    PartitionModel,
) -> nat {
    |p: PartitionModel|
        writer(seq![delete_batch(x.merge().source, key_columns, first_occurrences(x.matches_of(p)))])
}

/// Every partition of the one list is in the other.
proof fn lemma_deletes_found(
    key_columns: Seq<KeyColumn>,
    x: MorExecutor,
    y: MorExecutor,
    a: Seq<PartitionDeletes>,
    b: Seq<PartitionDeletes>,
    writer: Writer,
)
    requires
        x.merge().source == y.merge().source,
        x.is_partitioned() == y.is_partitioned(),
        forall|p: PartitionModel| #[trigger] x.matches_of(p) == y.matches_of(p),
        x.are_all_deletes(key_columns, a),
        y.are_all_deletes(key_columns, b),
    ensures
        a.len() == b.len(),
        forall|i: int| 0 <= i < a.len() ==> among_deletes(#[trigger] a[i], b),
        files_of_deletes(writer, a) == files_of_deletes(writer, b),
{
    let p = choose|p: Seq<PartitionModel>|
        {
            &&& #[trigger] x.lists_deletes(key_columns, a, p)
            &&& p.no_duplicates()
            &&& x.have_matches(p)
        };
    let q = choose|q: Seq<PartitionModel>|
        {
            &&& #[trigger] y.lists_deletes(key_columns, b, q)
            &&& q.no_duplicates()
            &&& y.have_matches(q)
        };
    assert forall|v: PartitionModel| p.contains(v) == q.contains(v) by {
        assert(p.contains(v) <==> x.matches_of(v).len() > 0);
        assert(q.contains(v) <==> y.matches_of(v).len() > 0);
    }
    lemma_files_of_deletes(key_columns, x, writer, a, p);
    lemma_files_of_deletes(key_columns, y, writer, b, q);
    assert(files_of_partition(key_columns, x, writer) =~= files_of_partition(key_columns, y, writer));
    lemma_summed_agree(files_of_partition(key_columns, x, writer), p, q);
    assert(p.to_set() =~= q.to_set());
    p.unique_seq_to_set();
    q.unique_seq_to_set();
    assert forall|i: int| 0 <= i < a.len() implies among_deletes(#[trigger] a[i], b) by {
        assert(p.contains(p[i]));
        let j = choose|j: int| 0 <= j < q.len() && q[j] == p[i];
        assert(a[i].deletes(x.merge().source, key_columns, p[i], x.is_partitioned(), x.matches_of(p[i])));
        assert(b[j].deletes(y.merge().source, key_columns, q[j], y.is_partitioned(), y.matches_of(q[j])));
        assert(same_deletes(a[i], b[j]));
    }
}

/// Two merge-on-read runs over the same target files, one whose outcome is committed and one whose
/// outcome is handed to the caller, report the same rows, replace no file, and delete the same keys
/// in the same partitions. Both write all source rows. Where both have their files from one writer,
/// all counts agree.
pub proof fn merge_on_read_runs_agree(
    m: MergeModel,
    key_columns: Seq<KeyColumn>,
    partitioned: bool,
    a: MorRun,
    b: MorRun,
    writer: Writer,
    last_sequence_number: i64,
    overwrite: Overwrite,
    result: UpsertResult,
)
    requires
        a.is_run(m, key_columns, partitioned),
        b.is_run(m, key_columns, partitioned),
        a.steps == b.steps,
        commits(a.delta, UpsertWriteMode::MergeOnRead, last_sequence_number, overwrite, result),
    ensures
        result.rows_updated == b.delta.stats.rows_updated,
        result.rows_inserted == b.delta.stats.rows_inserted,
        result.files_removed == b.delta.stats.files_removed,
        overwrite.deleted@ == b.delta.deleted_data_files@,
        a.deletes.len() == b.deletes.len(),
        forall|i: int| 0 <= i < a.deletes.len() ==> among_deletes(#[trigger] a.deletes[i], b.deletes),
        a.last.merge().source == m.source,
        b.last.merge().source == m.source,
        a.is_written_by(m, writer) && b.is_written_by(m, writer) ==> result == b.delta.stats
            && overwrite.added@.len() == b.delta.added_data_files@.len(),
{
    let n = a.steps.len() as int;
    merge_on_read_run(m, key_columns, partitioned, a);
    merge_on_read_run(m, key_columns, partitioned, b);
    lemma_mor_states(m, key_columns, partitioned, a, n);
    lemma_mor_states(m, key_columns, partitioned, b, n);
    assert(a.states.last() == a.states[n]);
    assert(b.states.last() == b.states[n]);
    assert(a.last.data_files() =~= a.data_files);
    assert(b.last.data_files() =~= b.data_files);
    assert(a.last.delete_files() =~= a.delete_files);
    assert(b.last.delete_files() =~= b.delete_files);
    assert(a.delta.deleted_data_files@ =~= b.delta.deleted_data_files@);
    lemma_deletes_found(key_columns, a.states.last(), b.states.last(), a.deletes, b.deletes, writer);
}

}
