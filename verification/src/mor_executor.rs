//! Merge-on-read upsert.
//!
//! For each target data file that overlaps the key range of the source, its batches are matched
//! against the source, and the matched source rows are collected under the file's partition. When
//! all files are done, an equality-delete file is written for each partition with a match, and a
//! data file with all source rows.
use arrow_schema::Field;
use std::collections::{HashMap, HashSet};
use vstd::prelude::*;

use crate::columnar::{
    batch_column, batch_field, column_cells, column_type, error_text, field_model,
    makes_batch, mask_true_count, new_batch, new_field, null_count, take_fits, take_rows, Batch, Column,
};
use crate::cow_executor::{
    lemma_changed_count, lemma_file_failure_prefix, lemma_mask_bits, lemma_total_rows_prefix,
    lemma_updates_bounded, merge_model, models, total_rows, MergeModel,
};
use crate::data_file::{DataFile, LiteralModel, Struct};
use crate::error::{Error, ErrorKind, Result};
use crate::matcher::{
    as_indices, as_ints, changed_bits, lemma_pairs_in_bounds, pair_sources, pair_targets,
    UpsertMatcher,
};
use crate::model::{
    all_keyable, count_true, in_columns, lemma_count_complement, BatchModel, ColumnModel, FieldModel,
};
use crate::planner::{key_column_indices, schema_indices, KeyColumn};
use crate::text::{join2, join3};
use crate::upsert::{UpsertFileDelta, UpsertResult};

verus! {

/// The first occurrence of each element, in order.
pub open spec fn first_occurrences(s: Seq<u32>) -> Seq<u32>
    decreases s.len(),
{
    if s.len() == 0 {
        Seq::empty()
    } else if s.drop_last().contains(s.last()) {
        first_occurrences(s.drop_last())
    } else {
        first_occurrences(s.drop_last()).push(s.last())
    }
}

/// Leaving out repetitions leaves out no element and adds none.
pub proof fn lemma_first_occurrences(s: Seq<u32>)
    ensures
        forall|x: u32| #[trigger] first_occurrences(s).contains(x) <==> s.contains(x),
        first_occurrences(s).no_duplicates(),
        first_occurrences(s).len() <= s.len(),
        s.len() > 0 ==> first_occurrences(s).len() > 0,
    decreases s.len(),
{
    if s.len() > 0 {
        let rest = s.drop_last();
        lemma_first_occurrences(rest);
        let firsts = first_occurrences(rest);
        assert forall|x: u32| #[trigger] first_occurrences(s).contains(x) <==> s.contains(x) by {
            if s.contains(x) {
                let i = choose|i: int| 0 <= i < s.len() && s[i] == x;
                if i < rest.len() {
                    assert(rest[i] == x);
                    assert(firsts.contains(x));
                    let j = choose|j: int| 0 <= j < firsts.len() && firsts[j] == x;
                    assert(first_occurrences(s)[j] == x);
                } else if !rest.contains(x) {
                    assert(first_occurrences(s).last() == x);
                } else {
                    assert(firsts.contains(x));
                }
            }
            if first_occurrences(s).contains(x) {
                let j = choose|j: int| 0 <= j < first_occurrences(s).len() && first_occurrences(s)[j] == x;
                if j < firsts.len() {
                    assert(firsts[j] == x);
                    assert(firsts.contains(x));
                    assert(rest.contains(x));
                    let i = choose|i: int| 0 <= i < rest.len() && rest[i] == x;
                    assert(s[i] == x);
                } else {
                    assert(s.last() == x);
                }
            }
        }
        if !rest.contains(s.last()) {
            assert(!firsts.contains(s.last()));
            assert(first_occurrences(s).no_duplicates());
        } else {
            assert(firsts.contains(s.last()));
        }
    }
}

/// The first occurrence of each index, in order.
fn unique_indices(indices: &Vec<u32>) -> (unique: Vec<u32>)
    ensures
        unique@ == first_occurrences(indices@),
{
    broadcast use vstd::std_specs::hash::group_hash_axioms;

    let mut seen: HashSet<u32> = HashSet::new();
    let mut unique: Vec<u32> = Vec::new();
    let mut i: usize = 0;
    while i < indices.len()
        invariant
            i <= indices@.len(),
            unique@ == first_occurrences(indices@.take(i as int)),
            forall|x: u32| #[trigger] seen@.contains(x) <==> indices@.take(i as int).contains(x),
        decreases indices@.len() - i,
    {
        broadcast use vstd::std_specs::hash::group_hash_axioms;

        let index: u32 = indices[i];
        let ghost before = indices@.take(i as int);
        let ghost after = indices@.take(i + 1);
        assert(after.drop_last() =~= before);
        assert(after.last() == index);
        if seen.insert(index) {
            unique.push(index);
        }
        assert forall|x: u32| #[trigger] seen@.contains(x) <==> after.contains(x) by {
            if before.contains(x) {
                let j = choose|j: int| 0 <= j < before.len() && before[j] == x;
                assert(after[j] == x);
            }
            if x == index {
                assert(after[i as int] == x);
            }
            if after.contains(x) {
                let j = choose|j: int| 0 <= j < after.len() && after[j] == x;
                if j < i {
                    assert(before[j] == x);
                }
            }
        }
        i += 1;
    }
    assert(indices@.take(i as int) =~= indices@);
    unique
}

/// The batch of an equality-delete file: the key columns of the source at the given rows, under
/// the names of the key columns.
pub open spec fn delete_batch(
    source: BatchModel,
    key_columns: Seq<KeyColumn>,
    indices: Seq<u32>,
) -> BatchModel {
    BatchModel {
        columns: Seq::new(
            key_columns.len(),
            |k: int|
                ColumnModel {
                    field: FieldModel {
                        name: key_columns[k].name@,
                        metadata: Map::empty(),
                        ..source.columns[key_columns[k].schema_index as int].field
                    },
                    data_type: source.columns[key_columns[k].schema_index as int].data_type,
                    cells: Seq::new(
                        indices.len(),
                        |j: int| source.columns[key_columns[k].schema_index as int].cells[indices[j] as int],
                    ),
                },
        ),
        rows: indices.len(),
        metadata: Map::empty(),
    }
}

/// The first key column whose values at the given rows cannot be taken.
pub open spec fn untakable(
    source: BatchModel,
    key_columns: Seq<KeyColumn>,
    indices: Seq<u32>,
) -> Option<int>
    decreases key_columns.len(),
{
    if key_columns.len() == 0 {
        None
    } else {
        match untakable(source, key_columns.drop_last(), indices) {
            Some(k) => Some(k),
            None => {
                let column = source.columns[key_columns.last().schema_index as int];
                if take_fits(column.data_type, column.cells, indices) {
                    None
                } else {
                    Some(key_columns.len() - 1)
                }
            },
        }
    }
}

proof fn lemma_untakable_prefix(
    source: BatchModel,
    key_columns: Seq<KeyColumn>,
    indices: Seq<u32>,
    n: int,
)
    requires
        0 <= n <= key_columns.len(),
    ensures
        untakable(source, key_columns.take(n), indices) matches Some(k) ==> untakable(
            source,
            key_columns,
            indices,
        ) == Some(k),
    decreases key_columns.len(),
{
    if n < key_columns.len() {
        lemma_untakable_prefix(source, key_columns.drop_last(), indices, n);
        assert(key_columns.drop_last().take(n) =~= key_columns.take(n));
    } else {
        assert(key_columns.take(n) =~= key_columns);
    }
}

/// There is a key column, and the values of all key columns can always be taken: integers, dates and
/// dictionary-encoded values.
pub open spec fn are_surely_taken(source: BatchModel, key_columns: Seq<KeyColumn>) -> bool {
    &&& key_columns.len() > 0
    &&& forall|k: int|
        0 <= k < key_columns.len() ==> {
            let kind = source.columns[(#[trigger] key_columns[k]).schema_index as int].data_type.kind;
            kind.is_signed() || kind.is_unsigned() || kind is Dictionary || kind is TwiceEncoded
        }
}

/// Builds the batch of an equality-delete file from the source rows at `matched_indices`.
fn build_equality_delete_batch(
    source: &Batch,
    key_columns: &[KeyColumn],
    matched_indices: &Vec<u32>,
) -> (batch: Result<Batch>)
    requires
        source@.wf(),
        in_columns(schema_indices(key_columns@), source@),
        all_keyable(source@.types(schema_indices(key_columns@))),
        forall|j: int| 0 <= j < matched_indices@.len() ==> #[trigger] matched_indices@[j] < source@.rows,
    ensures
        match batch {
            Ok(b) => {
                &&& untakable(source@, key_columns@, matched_indices@) is None
                &&& key_columns@.len() > 0
                &&& b@ == delete_batch(source@, key_columns@, matched_indices@)
            },
            Err(e) => match untakable(source@, key_columns@, matched_indices@) {
                Some(k) => e.reports("Failed to take key column '"@ + key_columns@[k].name@ + "': "@),
                None => key_columns@.len() == 0 && e.reports("Failed to build equality-delete batch: "@),
            },
        },
        are_surely_taken(source@, key_columns@) ==> batch is Ok,
{
    broadcast use vstd::std_specs::hash::group_hash_axioms;

    let ghost indices = schema_indices(key_columns@);
    let mut columns: Vec<Column> = Vec::new();
    let mut fields: Vec<Field> = Vec::new();
    let mut k: usize = 0;
    while k < key_columns.len()
        invariant
            source@.wf(),
            indices == schema_indices(key_columns@),
            in_columns(indices, source@),
            all_keyable(source@.types(indices)),
            forall|j: int|
                0 <= j < matched_indices@.len() ==> #[trigger] matched_indices@[j] < source@.rows,
            k <= key_columns@.len(),
            columns@.len() == k,
            fields@.len() == k,
            untakable(source@, key_columns@.take(k as int), matched_indices@) is None,
            forall|i: int|
                0 <= i < k ==> {
                    &&& column_cells(#[trigger] columns@[i]) == delete_batch(
                        source@,
                        key_columns@,
                        matched_indices@,
                    ).columns[i].cells
                    &&& column_type(columns@[i])
                        == source@.columns[key_columns@[i].schema_index as int].data_type
                    &&& column_type(columns@[i])
                        == source@.columns[key_columns@[i].schema_index as int].field.data_type
                    &&& source@.columns[key_columns@[i].schema_index as int].field.nullable || null_count(
                        columns@[i],
                    ) == 0
                },
            forall|i: int|
                0 <= i < k ==> field_model(#[trigger] fields@[i]) == delete_batch(
                    source@,
                    key_columns@,
                    matched_indices@,
                ).columns[i].field,
        decreases key_columns@.len() - k,
    {
        let key = &key_columns[k];
        proof {
            assert(indices[k as int] == key.schema_index);
            assert(source@.types(indices)[k as int].kind.is_keyable());
            assert(key_columns@.take(k + 1).drop_last() =~= key_columns@.take(k as int));
            lemma_untakable_prefix(source@, key_columns@, matched_indices@, k + 1);
        }
        let column = batch_column(source, key.schema_index);
        match take_rows(&column, matched_indices) {
            Ok(taken) => {
                columns.push(taken);
            },
            Err(e) => {
                let prefix = join3("Failed to take key column '", key.name.as_str(), "': ");
                let detail = error_text(&e);
                return Err(
                    Error::new(ErrorKind::Unexpected, join2(prefix.as_str(), detail.as_str())),
                );
            },
        }
        fields.push(new_field(&key.name, &batch_field(source, key.schema_index)));
        k += 1;
    }
    proof {
        assert(key_columns@.take(k as int) =~= key_columns@);
        let model = delete_batch(source@, key_columns@, matched_indices@);
        if key_columns@.len() > 0 {
            assert(makes_batch(fields@, columns@)) by {
                assert forall|i: int| 0 <= i < columns@.len() implies {
                    &&& column_type(#[trigger] columns@[i]) == field_model(fields@[i]).data_type
                    &&& column_cells(columns@[i]).len() == column_cells(columns@[0]).len()
                    &&& field_model(fields@[i]).nullable || null_count(columns@[i]) == 0
                } by {
                    assert(column_cells(columns@[0]) == model.columns[0].cells);
                }
            }
        }
    }
    let ghost made = columns@;
    let ghost made_fields = fields@;
    match new_batch(fields, &columns, HashMap::new()) {
        Ok(batch) => {
            proof {
                let model = delete_batch(source@, key_columns@, matched_indices@);
                assert(column_cells(made[0]) == model.columns[0].cells);
                assert forall|i: int| 0 <= i < made.len() implies batch@.columns[i] == model.columns[i] by {
                    assert(column_cells(made[i]) == model.columns[i].cells);
                    assert(field_model(made_fields[i]) == model.columns[i].field);
                }
                assert(batch@.columns =~= model.columns);
                assert(batch@.metadata =~= model.metadata);
            }
            Ok(batch)
        },
        Err(e) => {
            let detail = error_text(&e);
            let message = join2("Failed to build equality-delete batch: ", detail.as_str());
            Err(Error::new(ErrorKind::Unexpected, message))
        },
    }
}

/// A partition of the target, and the source rows that its files matched.
struct PartitionMatches {
    partition: Struct,
    indices: Vec<u32>,
}

/// The value of a partition.
pub type PartitionModel = Seq<Option<LiteralModel>>;

/// The source rows recorded for a partition.
spec fn recorded(groups: Seq<PartitionMatches>, partition: PartitionModel) -> Seq<u32>
    decreases groups.len(),
{
    if groups.len() == 0 {
        Seq::empty()
    } else if groups.last().partition@ == partition {
        groups.last().indices@
    } else {
        recorded(groups.drop_last(), partition)
    }
}

/// What is recorded for the partition of a group is what the group holds.
proof fn lemma_recorded(groups: Seq<PartitionMatches>, g: int)
    requires
        0 <= g < groups.len(),
        forall|i: int, j: int|
            0 <= i < j < groups.len() ==> (#[trigger] groups[i]).partition@ != (
            #[trigger] groups[j]).partition@,
    ensures
        recorded(groups, groups[g].partition@) == groups[g].indices@,
    decreases groups.len(),
{
    if g < groups.len() - 1 {
        assert(groups[g].partition@ != groups[groups.len() - 1].partition@);
        lemma_recorded(groups.drop_last(), g);
    }
}

/// Nothing is recorded for a partition without a group.
proof fn lemma_unrecorded(groups: Seq<PartitionMatches>, partition: PartitionModel)
    requires
        forall|i: int| 0 <= i < groups.len() ==> (#[trigger] groups[i]).partition@ != partition,
    ensures
        recorded(groups, partition).len() == 0,
    decreases groups.len(),
{
    if groups.len() > 0 {
        assert(groups[groups.len() - 1].partition@ != partition);
        lemma_unrecorded(groups.drop_last(), partition);
    }
}

/// A changed group changes what is recorded for its partition only.
proof fn lemma_recorded_update(
    groups: Seq<PartitionMatches>,
    after: Seq<PartitionMatches>,
    g: int,
    partition: PartitionModel,
)
    requires
        0 <= g < groups.len() == after.len(),
        forall|i: int, j: int|
            0 <= i < j < groups.len() ==> (#[trigger] groups[i]).partition@ != (
            #[trigger] groups[j]).partition@,
        forall|i: int| 0 <= i < groups.len() && i != g ==> #[trigger] after[i] == groups[i],
        after[g].partition@ == groups[g].partition@,
    ensures
        recorded(after, partition) == if partition == groups[g].partition@ {
            after[g].indices@
        } else {
            recorded(groups, partition)
        },
    decreases groups.len(),
{
    let n = groups.len() - 1;
    if g == n {
        assert(after.drop_last() =~= groups.drop_last());
    } else {
        assert(after[n] == groups[n]);
        assert(groups[g].partition@ != groups[n].partition@);
        lemma_recorded_update(groups.drop_last(), after.drop_last(), g, partition);
    }
}

/// The equality deletes of one partition.
pub struct PartitionDeletes {
    /// The partition that the delete file belongs to, or `None` for a table without partitions.
    pub partition: Option<Struct>,
    /// The keys of the rows to delete.
    pub batch: Batch,
}

impl MergeModel {
    /// The source rows that the batches of a file match, in the order of the target rows.
    pub open spec fn matches_in(self, file: Seq<BatchModel>) -> Seq<int>
        decreases file.len(),
    {
        if file.len() == 0 {
            Seq::empty()
        } else {
            self.matches_in(file.drop_last()) + pair_sources(
                self.source.keys(self.keys),
                file.last().keys(self.keys),
                file.last().rows,
            )
        }
    }
}

/// A merge-on-read upsert in progress.
///
/// The caller reads the target files and hands their batches over one file at a time, writes the
/// delete files and the data files, and reports the files that it wrote.
pub struct MorExecutor {
    matcher: UpsertMatcher,
    groups: Vec<PartitionMatches>,
    partitioned: bool,
    added_data_files: Vec<DataFile>,
    added_delete_files: Vec<DataFile>,
    rows_updated: u64,
}

impl PartitionDeletes {
    /// The deletes are those of the given partition: the keys of the given source rows, without
    /// repetitions.
    pub open spec fn deletes(
        &self,
        source: BatchModel,
        key_columns: Seq<KeyColumn>,
        partition: PartitionModel,
        partitioned: bool,
        indices: Seq<u32>,
    ) -> bool {
        &&& self.batch@ == delete_batch(source, key_columns, first_occurrences(indices))
        &&& match self.partition {
            Some(p) => partitioned && p@ == partition,
            None => !partitioned,
        }
    }
}

/// The partition of a target file, which has no partition fields where the file is not known.
pub fn partition_of(file: Option<&DataFile>) -> (partition: Struct)
    ensures
        partition@ == match file {
            Some(f) => f.partition@,
            None => Seq::empty(),
        },
{
    match file {
        Some(f) => f.partition.copy(),
        None => Struct::empty(),
    }
}

/// The field ids by which the deletes of a delete file are matched.
pub fn equality_ids(key_columns: &[KeyColumn]) -> (ids: Vec<i32>)
    ensures
        ids@ == key_columns@.map_values(|k: KeyColumn| k.field_id),
{
    let mut ids: Vec<i32> = Vec::new();
    let mut i: usize = 0;
    while i < key_columns.len()
        invariant
            i <= key_columns@.len(),
            ids@ == key_columns@.map_values(|k: KeyColumn| k.field_id).take(i as int),
        decreases key_columns@.len() - i,
    {
        ids.push(key_columns[i].field_id);
        assert(ids@ =~= key_columns@.map_values(|k: KeyColumn| k.field_id).take(i + 1));
        i += 1;
    }
    assert(ids@ =~= key_columns@.map_values(|k: KeyColumn| k.field_id));
    ids
}

/// The sequence number of the new files, which follows the table's last one.
pub fn next_sequence_number(last_sequence_number: i64) -> (next: i64)
    requires
        last_sequence_number < i64::MAX,
    ensures
        next == last_sequence_number + 1,
{
    last_sequence_number + 1
}

impl MorExecutor {
    /// How target batches are matched.
    pub closed spec fn merge(&self) -> MergeModel {
        merge_model(self.matcher, true)
    }

    /// For each source row whether a target row matched it.
    pub closed spec fn matched(&self) -> Seq<bool> {
        self.matcher.matched()
    }

    /// The source rows that the files of a partition matched, once for each match.
    pub closed spec fn matches_of(&self, partition: PartitionModel) -> Seq<u32> {
        recorded(self.groups@, partition)
    }

    /// The number of target rows, so far, that matched a source row and differ from it.
    pub closed spec fn updated(&self) -> nat {
        self.rows_updated as nat
    }

    /// Whether the table is partitioned.
    pub closed spec fn is_partitioned(&self) -> bool {
        self.partitioned
    }

    /// The data files written so far.
    pub closed spec fn data_files(&self) -> Seq<DataFile> {
        self.added_data_files@
    }

    /// The delete files written so far.
    pub closed spec fn delete_files(&self) -> Seq<DataFile> {
        self.added_delete_files@
    }

    /// The matcher is in order, no partition has two groups, and the groups hold source rows.
    pub closed spec fn wf(&self) -> bool {
        &&& self.matcher.wf()
        &&& self.matcher.source_model().wf()
        &&& all_keyable(self.matcher.source_model().types(self.matcher.key_indices()))
        &&& in_columns(self.matcher.key_indices(), self.matcher.source_model())
        &&& forall|i: int, j: int|
            0 <= i < j < self.groups@.len() ==> (#[trigger] self.groups@[i]).partition@ != (
            #[trigger] self.groups@[j]).partition@
        &&& forall|g: int, j: int|
            0 <= g < self.groups@.len() && 0 <= j < self.groups@[g].indices@.len()
                ==> #[trigger] self.groups@[g].indices@[j] < self.matcher.source_model().rows
    }

    /// The batch can be matched: it has the columns that are read, key columns that are not
    /// nested, and a row count that fits.
    pub open spec fn fits(&self, batch: BatchModel) -> bool {
        &&& in_columns(self.merge().keys, batch)
        &&& in_columns(self.merge().non_keys, batch)
        &&& all_keyable(batch.types(self.merge().keys))
        &&& batch.rows <= 0x1_0000_0000
    }

    /// The executor has just started.
    pub open spec fn is_new(&self) -> bool {
        &&& self.matched() == Seq::new(self.merge().source.rows, |s: int| false)
        &&& forall|p: PartitionModel| (#[trigger] self.matches_of(p)).len() == 0
        &&& self.updated() == 0
        &&& self.data_files().len() == 0
        &&& self.delete_files().len() == 0
    }

    /// Processing a file of the given partition makes the executor into `after`.
    pub open spec fn after_file(&self, after: Self, partition: PartitionModel, file: Seq<BatchModel>) -> bool {
        &&& after.merge() == self.merge()
        &&& after.is_partitioned() == self.is_partitioned()
        &&& after.matched() == self.merge().flags_after(self.matched(), file)
        &&& forall|p: PartitionModel| #[trigger]
            after.matches_of(p) == if p == partition {
                self.matches_of(p) + as_indices(self.merge().matches_in(file))
            } else {
                self.matches_of(p)
            }
        &&& after.updated() == self.updated() + self.merge().updates_in(file)
        &&& after.data_files() == self.data_files()
        &&& after.delete_files() == self.delete_files()
    }

    /// Taking note of written files makes the executor into `after`.
    pub open spec fn after_writing(&self, after: Self, data: Seq<DataFile>, deletes: Seq<DataFile>) -> bool {
        &&& after.merge() == self.merge()
        &&& after.is_partitioned() == self.is_partitioned()
        &&& after.matched() == self.matched()
        &&& forall|p: PartitionModel| #[trigger] after.matches_of(p) == self.matches_of(p)
        &&& after.updated() == self.updated()
        &&& after.data_files() == self.data_files() + data
        &&& after.delete_files() == self.delete_files() + deletes
    }

    /// The delta holds the files written, data files first, and the counts. No file is removed.
    pub open spec fn yields(&self, delta: UpsertFileDelta) -> bool {
        &&& delta.added_data_files@ == self.data_files() + self.delete_files()
        &&& delta.deleted_data_files@.len() == 0
        &&& delta.stats.rows_updated == self.updated()
        &&& delta.stats.rows_inserted == self.merge().source.rows - count_true(self.matched())
        &&& delta.stats.files_affected == self.delete_files().len()
        &&& delta.stats.files_added == self.data_files().len() + self.delete_files().len()
        &&& delta.stats.files_removed == 0
    }

    /// Starts an upsert of the source into a table that is partitioned or not.
    pub fn new(
        source: &Batch,
        key_columns: &[KeyColumn],
        non_key_column_indices: &[usize],
        partitioned: bool,
    ) -> (executor: Result<Self>)
        requires
            in_columns(schema_indices(key_columns@), source@),
            in_columns(non_key_column_indices@, source@),
            all_keyable(source@.types(schema_indices(key_columns@))),
            source@.rows <= 0x1_0000_0000,
        ensures
            executor matches Ok(x) && {
                &&& x.wf()
                &&& x.merge().source == source@
                &&& x.merge().keys == schema_indices(key_columns@)
                &&& x.merge().non_keys == non_key_column_indices@
                &&& x.is_partitioned() == partitioned
                &&& x.merge().skip_unchanged
                &&& x.is_new()
            },
    {
        let _rows: usize = source.num_rows();
        let key_indices = key_column_indices(key_columns);
        let matcher = UpsertMatcher::new(source, key_indices.as_slice(), non_key_column_indices)?;
        Ok(
            MorExecutor {
                matcher,
                groups: Vec::new(),
                partitioned,
                added_data_files: Vec::new(),
                added_delete_files: Vec::new(),
                rows_updated: 0,
            },
        )
    }

    /// Matches the batches of a target file of the given partition, and records the source rows
    /// that they match under that partition.
    ///
    /// It is the partition of the target file that counts, not that of the source row: where an
    /// upsert changes the partition of a row, the delete belongs where the old row is.
    pub fn process_file(&mut self, partition: Struct, batches: &[Batch]) -> (result: Result<()>)
        requires
            old(self).wf(),
            forall|i: int| 0 <= i < batches@.len() ==> old(self).fits((#[trigger] batches@[i])@),
            old(self).updated() + total_rows(models(batches@)) <= u64::MAX,
        ensures
            final(self).wf(),
            final(self).merge() == old(self).merge(),
            final(self).is_partitioned() == old(self).is_partitioned(),
            final(self).data_files() == old(self).data_files(),
            final(self).delete_files() == old(self).delete_files(),
            (forall|i: int|
                0 <= i < batches@.len() ==> old(self).merge().surely_matches((#[trigger] batches@[i])@))
                ==> result is Ok,
            match result {
                Ok(_) => {
                    let file = models(batches@);
                    &&& old(self).merge().file_failure(file) is None
                    &&& old(self).after_file(*final(self), partition@, file)
                },
                Err(e) => old(self).merge().file_failure(models(batches@)) matches Some(prefix)
                    && e.reports(prefix),
            },
    {
        let ghost m = self.merge();
        let ghost file = models(batches@);
        let ghost before = *self;
        let mut found: Vec<u32> = Vec::new();
        let mut i: usize = 0;
        while i < batches.len()
            invariant
                before == *old(self),
                before.wf(),
                m == before.merge(),
                *self == (MorExecutor {
                    matcher: self.matcher,
                    rows_updated: self.rows_updated,
                    ..before
                }),
                self.wf(),
                self.merge() == m,
                m.skip_unchanged,
                before.updated() + total_rows(file) <= u64::MAX,
                self.updated() == before.updated() + m.updates_in(file.take(i as int)),
                file == models(batches@),
                forall|j: int| 0 <= j < batches@.len() ==> before.fits((#[trigger] batches@[j])@),
                i <= batches@.len(),
                m.file_failure(file.take(i as int)) is None,
                self.matched() == m.flags_after(before.matched(), file.take(i as int)),
                as_ints(found@) == m.matches_in(file.take(i as int)),
                forall|j: int| 0 <= j < found@.len() ==> #[trigger] found@[j] < m.source.rows,
            decreases batches@.len() - i,
        {
            proof {
                assert(file.take(i + 1).drop_last() =~= file.take(i as int));
                assert(file.take(i + 1).last() == batches@[i as int]@);
                lemma_file_failure_prefix(m, file, i + 1);
                lemma_updates_bounded(m, file.take(i + 1));
                lemma_total_rows_prefix(file, i + 1);
                lemma_changed_count(m, batches@[i as int]@);
                assert(before.fits(batches@[i as int]@));
                lemma_pairs_in_bounds(
                    m.source.keys(m.keys),
                    batches@[i as int]@.keys(m.keys),
                    batches@[i as int]@.rows,
                );
            }
            let result = self.matcher.match_batch(&batches[i])?;
            proof {
                let sk = m.source.keys(m.keys);
                let tk = batches@[i as int]@.keys(m.keys);
                let rows = batches@[i as int]@.rows;
                lemma_mask_bits(
                    result.changed_mask,
                    changed_bits(
                        m.source,
                        batches@[i as int]@,
                        m.non_keys,
                        pair_sources(sk, tk, rows),
                        pair_targets(sk, tk, rows),
                    ),
                );
            }
            let changed: usize = mask_true_count(&result.changed_mask);
            self.rows_updated = self.rows_updated + changed as u64;
            let mut sources = result.matched_source_indices;
            let ghost earlier = found@;
            let ghost new = sources@;
            proof {
                assert forall|j: int| 0 <= j < new.len() implies #[trigger] new[j] < m.source.rows by {
                    assert(as_ints(new)[j] == new[j]);
                }
            }
            found.append(&mut sources);
            assert(as_ints(found@) =~= as_ints(earlier) + as_ints(new));
            i += 1;
        }
        proof {
            assert(file.take(i as int) =~= file);
            assert(found@ =~= as_indices(m.matches_in(file))) by {
                assert forall|j: int| 0 <= j < found@.len() implies found@[j] == #[trigger] as_indices(
                    m.matches_in(file),
                )[j] by {
                    assert(as_ints(found@)[j] == found@[j]);
                }
            }
        }
        self.record(partition, found);
        Ok(())
    }

    /// Records source rows under a partition.
    fn record(&mut self, partition: Struct, sources: Vec<u32>)
        requires
            old(self).wf(),
            forall|j: int|
                0 <= j < sources@.len() ==> #[trigger] sources@[j] < old(self).merge().source.rows,
        ensures
            final(self).wf(),
            final(self).merge() == old(self).merge(),
            final(self).matched() == old(self).matched(),
            final(self).updated() == old(self).updated(),
            final(self).is_partitioned() == old(self).is_partitioned(),
            final(self).data_files() == old(self).data_files(),
            final(self).delete_files() == old(self).delete_files(),
            forall|p: PartitionModel| #[trigger]
                final(self).matches_of(p) == if p == partition@ {
                    old(self).matches_of(p) + sources@
                } else {
                    old(self).matches_of(p)
                },
    {
        let ghost before = *self;
        let ghost new = sources@;
        let mut found = sources;
        let mut g: usize = 0;
        while g < self.groups.len()
            invariant
                *self == before,
                before == *old(self),
                before.wf(),
                g <= self.groups@.len(),
                found@ == new,
                new == sources@,
                forall|j: int| 0 <= j < new.len() ==> #[trigger] new[j] < before.merge().source.rows,
                forall|h: int| 0 <= h < g ==> (#[trigger] self.groups@[h]).partition@ != partition@,
            decreases self.groups@.len() - g,
        {
            if self.groups[g].partition.same(&partition) {
                self.groups[g].indices.append(&mut found);
                proof {
                    assert(self.groups@[g as int].indices@ == before.groups@[g as int].indices@ + new);
                    lemma_recorded(before.groups@, g as int);
                    assert forall|p: PartitionModel| #[trigger] self.matches_of(p) == if p == partition@ {
                        before.matches_of(p) + new
                    } else {
                        before.matches_of(p)
                    } by {
                        lemma_recorded_update(before.groups@, self.groups@, g as int, p);
                    }
                }
                return ;
            }
            g += 1;
        }
        let ghost value = partition@;
        let group = PartitionMatches { partition, indices: found };
        self.groups.push(group);
        proof {
            assert(self.groups@.drop_last() =~= before.groups@);
            lemma_unrecorded(before.groups@, value);
            assert forall|p: PartitionModel| #[trigger] self.matches_of(p) == if p == value {
                before.matches_of(p) + new
            } else {
                before.matches_of(p)
            } by {
                assert(before.matches_of(value) + new =~= new);
            }
        }
    }

    /// Nothing stands in the way of the delete batch of a partition.
    pub open spec fn deletes_can_be_built(&self, key_columns: Seq<KeyColumn>, partition: PartitionModel) -> bool {
        let unique = first_occurrences(self.matches_of(partition));
        &&& untakable(self.merge().source, key_columns, unique) is None
        &&& key_columns.len() > 0
    }

    /// The deletes are those of the given partitions, in order.
    pub open spec fn lists_deletes(
        &self,
        key_columns: Seq<KeyColumn>,
        deletes: Seq<PartitionDeletes>,
        partitions: Seq<PartitionModel>,
    ) -> bool {
        &&& partitions.len() == deletes.len()
        &&& forall|i: int|
            0 <= i < deletes.len() ==> (#[trigger] deletes[i]).deletes(
                self.merge().source,
                key_columns,
                partitions[i],
                self.is_partitioned(),
                self.matches_of(partitions[i]),
            )
    }

    /// The deletes are those of each partition with a match, once each.
    pub open spec fn are_all_deletes(
        &self,
        key_columns: Seq<KeyColumn>,
        deletes: Seq<PartitionDeletes>,
    ) -> bool {
        exists|partitions: Seq<PartitionModel>|
            {
                &&& #[trigger] self.lists_deletes(key_columns, deletes, partitions)
                &&& partitions.no_duplicates()
                &&& self.have_matches(partitions)
            }
    }

    /// The partitions are those with a match.
    pub open spec fn have_matches(&self, partitions: Seq<PartitionModel>) -> bool {
        forall|p: PartitionModel| #[trigger] partitions.contains(p) <==> self.matches_of(p).len() > 0
    }

    /// The delete batch of some partition could not be built.
    pub open spec fn is_delete_failure(&self, key_columns: Seq<KeyColumn>, error: Error) -> bool {
        exists|p: PartitionModel| #[trigger] self.delete_failure(key_columns, p, error)
    }

    /// Why the delete batch of a partition could not be built.
    pub open spec fn delete_failure(
        &self,
        key_columns: Seq<KeyColumn>,
        partition: PartitionModel,
        error: Error,
    ) -> bool {
        let unique = first_occurrences(self.matches_of(partition));
        &&& self.matches_of(partition).len() > 0
        &&& !self.deletes_can_be_built(key_columns, partition)
        &&& match untakable(self.merge().source, key_columns, unique) {
            Some(k) => error.reports("Failed to take key column '"@ + key_columns[k].name@ + "': "@),
            None => error.reports("Failed to build equality-delete batch: "@),
        }
    }

    /// The equality deletes to write, one batch for each partition with a match.
    pub fn delete_batches(&self, key_columns: &[KeyColumn]) -> (deletes: Result<Vec<PartitionDeletes>>)
        requires
            self.wf(),
            schema_indices(key_columns@) == self.merge().keys,
        ensures
            match deletes {
                Ok(list) => self.are_all_deletes(key_columns@, list@),
                Err(e) => self.is_delete_failure(key_columns@, e),
            },
            are_surely_taken(self.merge().source, key_columns@) ==> deletes is Ok,
    {
        let mut list: Vec<PartitionDeletes> = Vec::new();
        let ghost mut partitions: Seq<PartitionModel> = Seq::empty();
        let mut g: usize = 0;
        while g < self.groups.len()
            invariant
                self.wf(),
                schema_indices(key_columns@) == self.merge().keys,
                g <= self.groups@.len(),
                self.lists_deletes(key_columns@, list@, partitions),
                partitions.no_duplicates(),
                forall|p: PartitionModel| #[trigger]
                    partitions.contains(p) <==> exists|h: int|
                        0 <= h < g && (#[trigger] self.groups@[h]).partition@ == p
                            && self.groups@[h].indices@.len() > 0,
            decreases self.groups@.len() - g,
        {
            let ghost p = self.groups@[g as int].partition@;
            let ghost earlier = partitions;
            proof {
                lemma_recorded(self.groups@, g as int);
                lemma_first_occurrences(self.groups@[g as int].indices@);
            }
            if self.groups[g].indices.len() > 0 {
                let unique = unique_indices(&self.groups[g].indices);
                proof {
                    let indices = self.groups@[g as int].indices@;
                    assert forall|j: int| 0 <= j < unique@.len() implies #[trigger] unique@[j]
                        < self.merge().source.rows by {
                        assert(unique@.contains(unique@[j]));
                        assert(indices.contains(unique@[j]));
                        let i = choose|i: int| 0 <= i < indices.len() && indices[i] == unique@[j];
                        assert(self.groups@[g as int].indices@[i] < self.matcher.source_model().rows);
                    }
                }
                let batch = match build_equality_delete_batch(self.matcher.source(), key_columns, &unique) {
                    Ok(batch) => batch,
                    Err(e) => {
                        assert(self.delete_failure(key_columns@, p, e));
                        assert(self.is_delete_failure(key_columns@, e));
                        return Err(e);
                    },
                };
                let partition = if self.partitioned {
                    Some(self.groups[g].partition.copy())
                } else {
                    None
                };
                list.push(PartitionDeletes { partition, batch });
                proof {
                    partitions = partitions.push(p);
                    assert(!earlier.contains(p)) by {
                        if earlier.contains(p) {
                            let h = choose|h: int|
                                0 <= h < g && (#[trigger] self.groups@[h]).partition@ == p
                                    && self.groups@[h].indices@.len() > 0;
                            assert(self.groups@[h].partition@ != self.groups@[g as int].partition@);
                        }
                    }
                    assert(self.lists_deletes(key_columns@, list@, partitions));
                }
            }
            proof {
                assert forall|q: PartitionModel| #[trigger] partitions.contains(q) <==> exists|h: int|
                    0 <= h < g + 1 && (#[trigger] self.groups@[h]).partition@ == q
                        && self.groups@[h].indices@.len() > 0 by {
                    if partitions.contains(q) {
                        let i = choose|i: int| 0 <= i < partitions.len() && partitions[i] == q;
                        if i < earlier.len() {
                            assert(earlier[i] == q);
                            assert(earlier.contains(q));
                            let h = choose|h: int|
                                0 <= h < g && (#[trigger] self.groups@[h]).partition@ == q
                                    && self.groups@[h].indices@.len() > 0;
                            assert(self.groups@[h].partition@ == q && h < g + 1);
                        } else {
                            assert(self.groups@[g as int].partition@ == q);
                        }
                    }
                    if exists|h: int|
                        0 <= h < g + 1 && (#[trigger] self.groups@[h]).partition@ == q
                            && self.groups@[h].indices@.len() > 0 {
                        let h = choose|h: int|
                            0 <= h < g + 1 && (#[trigger] self.groups@[h]).partition@ == q
                                && self.groups@[h].indices@.len() > 0;
                        if h < g {
                            assert(earlier.contains(q));
                            let i = choose|i: int| 0 <= i < earlier.len() && earlier[i] == q;
                            assert(partitions[i] == q);
                        } else {
                            assert(partitions.last() == q);
                        }
                    }
                }
            }
            g += 1;
        }
        proof {
            assert forall|p: PartitionModel| #[trigger] partitions.contains(p) <==> self.matches_of(p).len()
                > 0 by {
                if partitions.contains(p) {
                    let h = choose|h: int|
                        0 <= h < g && (#[trigger] self.groups@[h]).partition@ == p
                            && self.groups@[h].indices@.len() > 0;
                    lemma_recorded(self.groups@, h);
                } else if exists|h: int| 0 <= h < g && (#[trigger] self.groups@[h]).partition@ == p {
                    let h = choose|h: int| 0 <= h < g && (#[trigger] self.groups@[h]).partition@ == p;
                    lemma_recorded(self.groups@, h);
                } else {
                    lemma_unrecorded(self.groups@, p);
                }
            }
            assert(self.lists_deletes(key_columns@, list@, partitions));
            assert(self.have_matches(partitions));
            assert(self.are_all_deletes(key_columns@, list@));
        }
        Ok(list)
    }

    /// The rows of the new data file: all rows of the source, updates and inserts.
    pub fn data_batch(&self) -> (batch: &Batch)
        ensures
            batch@ == self.merge().source,
    {
        self.matcher.source()
    }

    /// Takes note of the files that hold the deletes of a partition.
    pub fn record_delete_files(&mut self, written: Vec<DataFile>)
        requires
            old(self).wf(),
        ensures
            final(self).wf(),
            old(self).after_writing(*final(self), Seq::empty(), written@),
    {
        let ghost before = *self;
        let mut written = written;
        self.added_delete_files.append(&mut written);
        assert(self.data_files() =~= before.data_files() + Seq::<DataFile>::empty());
    }

    /// Takes note of the files that hold the source rows.
    pub fn record_data_files(&mut self, written: Vec<DataFile>)
        requires
            old(self).wf(),
        ensures
            final(self).wf(),
            old(self).after_writing(*final(self), written@, Seq::empty()),
    {
        let ghost before = *self;
        let mut written = written;
        self.added_data_files.append(&mut written);
        assert(self.delete_files() =~= before.delete_files() + Seq::<DataFile>::empty());
    }

    /// The files written, data files first, and the counts. No file is removed.
    pub fn finish(self) -> (delta: UpsertFileDelta)
        requires
            self.wf(),
            self.data_files().len() + self.delete_files().len() <= u64::MAX,
        ensures
            self.yields(delta),
    {
        let mask = self.matcher.unmatched_source_mask();
        let ghost unmatched = self.matched().map_values(|m: bool| !m);
        proof {
            lemma_mask_bits(mask, unmatched);
            lemma_count_complement(self.matched());
            self.matcher.lemma_one_flag_per_row();
        }
        let inserted: usize = mask_true_count(&mask);
        let mut added = self.added_data_files;
        let mut deletes = self.added_delete_files;
        let delete_count: usize = deletes.len();
        let data_count: usize = added.len();
        added.append(&mut deletes);
        UpsertFileDelta {
            added_data_files: added,
            deleted_data_files: Vec::new(),
            stats: UpsertResult {
                rows_updated: self.rows_updated,
                rows_inserted: inserted as u64,
                files_affected: delete_count as u64,
                files_added: data_count as u64 + delete_count as u64,
                files_removed: 0,
            },
        }
    }
}

}
