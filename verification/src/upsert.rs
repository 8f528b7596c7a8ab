//! The write strategies of an upsert, its configuration and its outcome.
use vstd::prelude::*;
use vstd::std_specs::convert::TryFromSpecImpl;

use crate::columnar::Batch;
use crate::data_file::DataFile;
use crate::error::{Error, ErrorKind, Result};
use crate::model::{all_keyable, distinct, selected, BatchModel};
use crate::mor_executor::next_sequence_number;
use crate::planner::{
    build_optimal_predicate, is_key_column, key_column_indices, key_field_ids, non_key_bits,
    non_key_column_indices, optimal_predicate, resolution_failure, resolve_key_columns,
    schema_indices, typed_keys, validate_source_keys, KeyColumn,
};
use crate::predicate::{Predicate, PredicateModel};
use crate::schema::{
    column_count, column_position, lemma_positions, position_of_id, Schema, SchemaField,
};
use crate::text::{join3, lower_text, lowercase};

verus! {

/// The write strategy of an upsert.
#[derive(Debug, Clone, Copy, PartialEq, Eq, Structural)]
pub enum UpsertWriteMode {
    /// Affected data files are rewritten with merged content. Best for read-heavy workloads, or
    /// where updates are sparse.
    CopyOnWrite,
    /// Equality-delete files and new data files are written, and existing files stay. Best for
    /// write-heavy workloads or dense updates.
    MergeOnRead,
}

impl Default for UpsertWriteMode {
    fn default() -> (mode: Self)
        ensures
            mode == UpsertWriteMode::CopyOnWrite,
    {
        UpsertWriteMode::CopyOnWrite
    }
}

/// The mode that a lower-case name stands for.
pub open spec fn mode_named(name: Seq<char>) -> Option<UpsertWriteMode> {
    if name == "copy-on-write"@ || name == "cow"@ {
        Some(UpsertWriteMode::CopyOnWrite)
    } else if name == "merge-on-read"@ || name == "mor"@ {
        Some(UpsertWriteMode::MergeOnRead)
    } else {
        None
    }
}

impl UpsertWriteMode {
    /// The mode that a lower-case name stands for.
    pub fn from_lowercase(name: &String) -> (mode: Option<Self>)
        ensures
            mode == mode_named(name@),
    {
        if *name == "copy-on-write".to_owned() || *name == "cow".to_owned() {
            Some(UpsertWriteMode::CopyOnWrite)
        } else if *name == "merge-on-read".to_owned() || *name == "mor".to_owned() {
            Some(UpsertWriteMode::MergeOnRead)
        } else {
            None
        }
    }
}

impl TryFromSpecImpl<&str> for UpsertWriteMode {
    open spec fn obeys_try_from_spec() -> bool {
        false
    }

    open spec fn try_from_spec(name: &str) -> std::result::Result<Self, Error> {
        arbitrary()
    }
}

impl TryFrom<&str> for UpsertWriteMode {
    type Error = Error;

    /// The mode of the given name, in any case: `copy-on-write` or `cow`, `merge-on-read` or
    /// `mor`.
    fn try_from(s: &str) -> (mode: std::result::Result<Self, Error>)
        ensures
            match mode {
                Ok(m) => mode_named(lowercase(s@)) == Some(m),
                Err(e) => mode_named(lowercase(s@)) is None && e.says(
                    ErrorKind::DataInvalid,
                    "Unknown upsert write mode: '"@ + s@
                        + "'. Expected 'copy-on-write' or 'merge-on-read'."@,
                ),
            },
    {
        match UpsertWriteMode::from_lowercase(&lower_text(s)) {
            Some(mode) => Ok(mode),
            None => Err(
                Error::new(
                    ErrorKind::DataInvalid,
                    join3(
                        "Unknown upsert write mode: '",
                        s,
                        "'. Expected 'copy-on-write' or 'merge-on-read'.",
                    ),
                ),
            ),
        }
    }
}

/// The configuration of an upsert.
#[derive(Debug, Clone)]
pub struct UpsertConfig {
    /// The names of the join key columns. Where there is none, the table schema's identifier
    /// fields are the key.
    pub join_columns: Vec<String>,
    /// Whether a copy-on-write upsert leaves files alone whose matched rows did not change.
    /// Merge-on-read writes new data and delete files in any case.
    pub skip_unchanged: bool,
    /// The write strategy.
    pub write_mode: UpsertWriteMode,
    /// A predicate that prunes the files of the scan. Where it is absent, it is built from the
    /// keys of the source.
    pub pruning_predicate: Option<Predicate>,
}

impl Default for UpsertConfig {
    fn default() -> (config: Self)
        ensures
            config.join_columns@.len() == 0,
            config.skip_unchanged,
            config.write_mode == UpsertWriteMode::CopyOnWrite,
            config.pruning_predicate is None,
    {
        UpsertConfig {
            join_columns: Vec::new(),
            skip_unchanged: true,
            write_mode: UpsertWriteMode::CopyOnWrite,
            pruning_predicate: None,
        }
    }
}

/// What an upsert did.
#[derive(Debug, Clone, Copy, PartialEq, Eq, Structural)]
pub struct UpsertResult {
    /// The number of target rows that were updated: those that matched a source row and differ
    /// from it in a column that is no key column. Where a copy-on-write upsert does not skip
    /// unchanged rows, it replaces every matched row, and each counts as changed.
    pub rows_updated: u64,
    /// The number of source rows that matched no target row and were inserted.
    pub rows_inserted: u64,
    /// The number of data files that were rewritten, or of equality-delete files that were
    /// created.
    pub files_affected: u64,
    /// The number of files that were added.
    pub files_added: u64,
    /// The number of data files that were deleted.
    pub files_removed: u64,
}

/// The files that an upsert wrote and those that it replaces, to be committed to a catalog by the
/// caller.
#[derive(Debug)]
pub struct UpsertFileDelta {
    /// The files that were written: rewritten and inserted data for copy-on-write, new data and
    /// equality deletes for merge-on-read.
    pub added_data_files: Vec<DataFile>,
    /// The data files that the rewritten ones replace. None for merge-on-read.
    pub deleted_data_files: Vec<DataFile>,
    /// What the upsert did.
    pub stats: UpsertResult,
}

/// What is committed to a catalog.
#[derive(Debug)]
pub struct Overwrite {
    /// The files to add.
    pub added: Vec<DataFile>,
    /// The data files to delete.
    pub deleted: Vec<DataFile>,
    /// The sequence number of the new data files, or `None` for the one that the commit gets.
    pub sequence_number: Option<i64>,
}

/// The overwrite and the result are those of an upsert that yields the delta: the files of the delta
/// are added and deleted as they are, and the counts are reported as they are.
pub open spec fn commits(
    delta: UpsertFileDelta,
    write_mode: UpsertWriteMode,
    last_sequence_number: i64,
    overwrite: Overwrite,
    result: UpsertResult,
) -> bool {
    &&& overwrite.added@ == delta.added_data_files@
    &&& overwrite.deleted@ == delta.deleted_data_files@
    &&& match overwrite.sequence_number {
        Some(n) => write_mode is MergeOnRead && n == last_sequence_number + 1,
        None => write_mode is CopyOnWrite,
    }
    &&& result == delta.stats
}

/// The commit of an upsert, and what the upsert did: the files of the delta are added and deleted
/// as they are, and the new files of merge-on-read follow the table's last sequence number, so that
/// the deletes reach older files only.
pub fn commit_of(delta: UpsertFileDelta, write_mode: UpsertWriteMode, last_sequence_number: i64) -> (commit: (
    Overwrite,
    UpsertResult,
))
    requires
        write_mode is MergeOnRead ==> last_sequence_number < i64::MAX,
    ensures
        commits(delta, write_mode, last_sequence_number, commit.0, commit.1),
{
    let sequence_number = match write_mode {
        UpsertWriteMode::CopyOnWrite => None,
        UpsertWriteMode::MergeOnRead => Some(next_sequence_number(last_sequence_number)),
    };
    let overwrite = Overwrite {
        added: delta.added_data_files,
        deleted: delta.deleted_data_files,
        sequence_number,
    };
    (overwrite, delta.stats)
}

/// What an upsert does before it reads any file.
#[derive(Debug)]
pub struct UpsertPlan {
    /// The key columns.
    pub key_columns: Vec<KeyColumn>,
    /// The positions of the columns that are compared for changes.
    pub non_key_column_indices: Vec<usize>,
    /// The predicate that prunes the files of the scan.
    pub predicate: Predicate,
}

/// The positions of the key columns among the columns of the table.
pub open spec fn key_positions(schema: Schema, names: Seq<String>) -> Seq<usize> {
    key_field_ids(schema, names).map_values(|id: i32| key_position(schema.fields@, id))
}

/// The position of the key column with the given field id among the columns of the table.
pub open spec fn key_position(fields: Seq<SchemaField>, id: i32) -> usize {
    column_position(fields, fields[position_of_id(fields, id)->0].name@)->0 as usize
}

/// The predicate that prunes the files of the scan: the configured one, or the one that the keys
/// of the source give. Where they give none, every file is scanned.
pub open spec fn scan_predicate(
    config: UpsertConfig,
    source: BatchModel,
    key_columns: Seq<KeyColumn>,
) -> PredicateModel {
    match config.pruning_predicate {
        Some(p) => p.model(),
        None => match optimal_predicate(source, key_columns) {
            Some(p) => p,
            None => PredicateModel::AlwaysTrue,
        },
    }
}

/// Plans an upsert: resolves the key columns, checks that no key occurs twice in the source, and
/// builds the pruning predicate.
///
/// The source must have the columns of the table in their order, and its key columns must not be
/// nested.
pub fn plan(schema: &Schema, source: &Batch, config: &UpsertConfig) -> (plan: Result<UpsertPlan>)
    requires
        column_count(schema.fields@) <= source@.columns.len(),
        resolution_failure(*schema, config.join_columns@) is None ==> all_keyable(
            source@.types(key_positions(*schema, config.join_columns@)),
        ),
    ensures
        match plan {
            Ok(p) => {
                let ids = key_field_ids(*schema, config.join_columns@);
                &&& resolution_failure(*schema, config.join_columns@) is None
                &&& p.key_columns@.len() == ids.len()
                &&& forall|i: int|
                    0 <= i < ids.len() ==> is_key_column(
                        #[trigger] p.key_columns@[i],
                        schema.fields@,
                        ids[i],
                    )
                &&& schema_indices(p.key_columns@) == key_positions(*schema, config.join_columns@)
                &&& distinct(source@.keys(schema_indices(p.key_columns@)))
                &&& config.pruning_predicate is Some || source@.rows > 0
                &&& p.non_key_column_indices@.map_values(|i: usize| i as int) == selected(
                    non_key_bits(*schema, p.key_columns@),
                )
                &&& p.predicate.model() == scan_predicate(*config, source@, p.key_columns@)
                &&& config.pruning_predicate is None ==> typed_keys(source@, p.key_columns@)
            },
            Err(e) => match resolution_failure(*schema, config.join_columns@) {
                Some(f) => e.says(f.kind, f.message),
                None => {
                    let positions = key_positions(*schema, config.join_columns@);
                    if !distinct(source@.keys(positions)) {
                        e.says(
                            ErrorKind::DataInvalid,
                            "Source data contains duplicate key values; upsert requires unique source keys"@,
                        )
                    } else {
                        &&& config.pruning_predicate is None
                        &&& source@.rows == 0
                        &&& e.says(
                            ErrorKind::DataInvalid,
                            "Source batch is empty; nothing to upsert"@,
                        )
                    }
                },
            },
        },
{
    let key_columns = resolve_key_columns(schema, config.join_columns.as_slice())?;
    let ghost positions = key_positions(*schema, config.join_columns@);
    proof {
        assert forall|i: int| 0 <= i < key_columns@.len() implies (#[trigger] key_columns@[i]).schema_index
            == positions[i] && positions[i] < source@.columns.len() by {
            let id = key_field_ids(*schema, config.join_columns@)[i];
            lemma_positions(schema.fields@, key_columns@[i].name@, id);
        }
        assert(schema_indices(key_columns@) =~= positions);
    }
    let key_indices = key_column_indices(key_columns.as_slice());
    validate_source_keys(source, key_indices.as_slice())?;
    let predicate = match &config.pruning_predicate {
        Some(p) => p.clone(),
        None => {
            if source.num_rows() == 0 {
                return Err(
                    Error::new(
                        ErrorKind::DataInvalid,
                        "Source batch is empty; nothing to upsert".to_owned(),
                    ),
                );
            }
            match build_optimal_predicate(source, key_columns.as_slice())? {
                Some(p) => p,
                None => Predicate::AlwaysTrue,
            }
        },
    };
    let non_key_column_indices = non_key_column_indices(schema, key_columns.as_slice())?;
    Ok(UpsertPlan { key_columns, non_key_column_indices, predicate })
}

}
