//! What calls of the merge-on-read executor give, said over what goes in and what comes out.
use vstd::prelude::*;

use crate::columnar::Batch;
use crate::cow_executor::{models, MergeModel};
use crate::data_file::{DataFile, Struct};
use crate::error::{ErrorKind, Result};
use crate::laws::{contents, TargetFile};
use crate::matcher::{as_indices, hits, match_of, matched_bits, pair_sources, pair_targets};
use crate::matching_laws::{
    can_be_matched, is_match, is_match_failure, is_matched_by, lemma_file_failure, lemma_is_match,
    lemma_is_matched_by, same_key_types,
};
use crate::merge_laws::{
    is_matched_anywhere, is_replaced, lemma_matched_anywhere, lemma_numbers, lemma_replaced_rows,
    numbers_of,
};
use crate::model::{in_columns, lemma_count_complement, lemma_selected, BatchModel, Row};
use crate::mor_executor::{
    delete_batch, first_occurrences, lemma_first_occurrences, untakable, MorExecutor,
    PartitionDeletes, PartitionModel,
};
use crate::planner::{schema_indices, KeyColumn};
use crate::run_laws::replaced_rows;
use crate::table_laws::{agrees_with, has_key_of_source, lemma_key_of_source};
use crate::upsert::UpsertFileDelta;

verus! {

/// A call of the executor.
pub enum MorCall<'a> {
    /// A target file of the partition is processed, with the given outcome.
    Process(Struct, &'a [Batch], Result<()>),
    /// The files that hold the deletes of a partition are noted.
    Deletes(Vec<DataFile>),
    /// The files that hold the source rows are noted.
    Data(Vec<DataFile>),
}

/// The delete files that a call hands to the executor.
pub open spec fn delete_files_of(call: MorCall) -> Seq<DataFile> {
    match call {
        MorCall::Deletes(written) => written@,
        _ => Seq::empty(),
    }
}

/// The data files that a call hands to the executor.
pub open spec fn data_files_of(call: MorCall) -> Seq<DataFile> {
    match call {
        MorCall::Data(written) => written@,
        _ => Seq::empty(),
    }
}

proof fn lemma_calls(
    source: &Batch,
    key_columns: &[KeyColumn],
    non_keys: &[usize],
    partitioned: bool,
    start: MorExecutor,
    states: Seq<&mut MorExecutor>,
    calls: Seq<MorCall>,
    n: int,
)
    requires
        call_ensures(MorExecutor::new, (source, key_columns, non_keys, partitioned), Ok(start)),
        calls.len() == states.len(),
        states.len() > 0 ==> *states[0] == start,
        forall|i: int| 0 < i < states.len() ==> *(#[trigger] states[i]) == *final(states[i - 1]),
        forall|i: int|
            0 <= i < states.len() ==> match calls[i] {
                MorCall::Process(partition, batches, outcome) => call_ensures(
                    MorExecutor::process_file,
                    (#[trigger] states[i], partition, batches),
                    outcome,
                ),
                MorCall::Deletes(written) => call_ensures(
                    MorExecutor::record_delete_files,
                    (states[i], written),
                    (),
                ),
                MorCall::Data(written) => call_ensures(
                    MorExecutor::record_data_files,
                    (states[i], written),
                    (),
                ),
            },
        0 <= n < states.len(),
    ensures
        final(states[n]).data_files() == calls.take(n + 1).map_values(
            |c: MorCall| data_files_of(c),
        ).flatten(),
        final(states[n]).delete_files() == calls.take(n + 1).map_values(
            |c: MorCall| delete_files_of(c),
        ).flatten(),
        states[n].merge() == (MergeModel {
            source: source@,
            keys: schema_indices(key_columns@),
            non_keys: non_keys@,
            skip_unchanged: true,
        }),
        final(states[n]).merge() == states[n].merge(),
    decreases n,
{
    let f = |c: MorCall| data_files_of(c);
    let g = |c: MorCall| delete_files_of(c);
    let now = calls.take(n + 1);
    let before = calls.take(n);
    assert(now.map_values(f) =~= before.map_values(f).push(f(calls[n])));
    assert(now.map_values(g) =~= before.map_values(g).push(g(calls[n])));
    before.map_values(f).lemma_flatten_push(f(calls[n]));
    before.map_values(g).lemma_flatten_push(g(calls[n]));
    if n > 0 {
        lemma_calls(source, key_columns, non_keys, partitioned, start, states, calls, n - 1);
        assert(*states[n] == *final(states[n - 1]));
    } else {
        assert(before.map_values(f) =~= Seq::empty());
        assert(before.map_values(g) =~= Seq::empty());
        assert(start.data_files() =~= Seq::empty());
        assert(start.delete_files() =~= Seq::empty());
    }
    assert(states[n].data_files() == before.map_values(f).flatten());
    assert(states[n].delete_files() == before.map_values(g).flatten());
    match calls[n] {
        MorCall::Process(partition, batches, outcome) => {
            assert(call_ensures(MorExecutor::process_file, (states[n], partition, batches), outcome));
        },
        MorCall::Deletes(written) => {
            assert(call_ensures(MorExecutor::record_delete_files, (states[n], written), ()));
        },
        MorCall::Data(written) => {
            assert(call_ensures(MorExecutor::record_data_files, (states[n], written), ()));
        },
    }
    assert(final(states[n]).data_files() =~= states[n].data_files() + f(calls[n]));
    assert(final(states[n]).delete_files() =~= states[n].delete_files() + g(calls[n]));
}

/// An executor is made of every source. Whatever calls were made of it, a file whose batches can all
/// be matched is processed, one with a batch whose key columns have other types than the source's is
/// refused, and a failure is reported as one of an Arrow call.
pub proof fn files_that_can_be_matched_are_processed(
    source: &Batch,
    key_columns: &[KeyColumn],
    non_keys: &[usize],
    partitioned: bool,
    made: Result<MorExecutor>,
    start: MorExecutor,
    states: Seq<&mut MorExecutor>,
    calls: Seq<MorCall>,
    n: int,
    partition: Struct,
    batches: &[Batch],
    outcome: Result<()>,
    keys: Seq<usize>,
)
    requires
        call_ensures(MorExecutor::new, (source, key_columns, non_keys, partitioned), made),
        made is Ok ==> made->Ok_0 == start,
        calls.len() == states.len(),
        states.len() > 0 ==> *states[0] == start,
        forall|i: int| 0 < i < states.len() ==> *(#[trigger] states[i]) == *final(states[i - 1]),
        forall|i: int|
            0 <= i < states.len() ==> match calls[i] {
                MorCall::Process(partition, batches, outcome) => call_ensures(
                    MorExecutor::process_file,
                    (#[trigger] states[i], partition, batches),
                    outcome,
                ),
                MorCall::Deletes(written) => call_ensures(
                    MorExecutor::record_delete_files,
                    (states[i], written),
                    (),
                ),
                MorCall::Data(written) => call_ensures(
                    MorExecutor::record_data_files,
                    (states[i], written),
                    (),
                ),
            },
        0 <= n < states.len(),
        calls[n] == MorCall::Process(partition, batches, outcome),
        keys == key_columns@.map_values(|k: KeyColumn| k.schema_index),
    ensures
        made is Ok,
        (forall|b: int|
            0 <= b < batches@.len() ==> can_be_matched(source@, (#[trigger] batches@[b])@, keys, non_keys@))
            ==> outcome is Ok,
        (exists|b: int| 0 <= b < batches@.len() && !same_key_types(source@, (#[trigger] batches@[b])@, keys))
            ==> outcome is Err,
        outcome matches Err(e) ==> is_match_failure(e.spec_kind(), e.spec_message()),
{
    let m = MergeModel {
        source: source@,
        keys: schema_indices(key_columns@),
        non_keys: non_keys@,
        skip_unchanged: true,
    };
    let file = models(batches@);
    assert(keys =~= m.keys);
    lemma_calls(source, key_columns, non_keys, partitioned, start, states, calls, n);
    assert(call_ensures(MorExecutor::process_file, (states[n], partition, batches), outcome));
    lemma_file_failure(m, file);
    assert forall|b: int| 0 <= b < file.len() implies #[trigger] file[b] == batches@[b]@ by {}
    if forall|b: int|
        0 <= b < batches@.len() ==> can_be_matched(source@, (#[trigger] batches@[b])@, keys, non_keys@) {
        assert forall|b: int| 0 <= b < file.len() implies can_be_matched(
            m.source,
            #[trigger] file[b],
            m.keys,
            m.non_keys,
        ) by {
            assert(can_be_matched(source@, batches@[b]@, keys, non_keys@));
        }
        assert forall|b: int| 0 <= b < batches@.len() implies m.surely_matches((#[trigger] batches@[b])@) by {
            assert(m.surely_matches(file[b]));
        }
    }
    if exists|b: int| 0 <= b < batches@.len() && !same_key_types(source@, (#[trigger] batches@[b])@, keys) {
        let b = choose|b: int| 0 <= b < batches@.len() && !same_key_types(source@, (#[trigger] batches@[b])@, keys);
        assert(!same_key_types(m.source, file[b], m.keys));
    }
    if outcome is Err {
        let e = outcome->Err_0;
        let prefix = m.file_failure(file)->0;
        let detail = choose|detail: Seq<char>| e.spec_message() == #[trigger] (prefix + detail);
        assert(e.spec_message() == prefix + detail);
        let first = "RowConverter convert error: "@ + detail;
        assert({
            ||| e.spec_message() == first
            ||| e.spec_message() == "Arrow take error: "@ + detail
            ||| e.spec_message() == "Column neq comparison error: "@ + detail
        });
    }
}

/// The deletes are handed out where all key columns hold integers, dates or dictionary-encoded values.
/// Where they are not, a key column is named whose values could not be taken, or there is none.
pub proof fn deletes_of_plain_keys_are_handed_out(
    source: &Batch,
    key_columns: &[KeyColumn],
    non_keys: &[usize],
    partitioned: bool,
    start: MorExecutor,
    states: Seq<&mut MorExecutor>,
    calls: Seq<MorCall>,
    asked: &MorExecutor,
    deletes: Result<Vec<PartitionDeletes>>,
)
    requires
        call_ensures(MorExecutor::new, (source, key_columns, non_keys, partitioned), Ok(start)),
        calls.len() == states.len(),
        states.len() > 0 ==> *states[0] == start,
        forall|i: int| 0 < i < states.len() ==> *(#[trigger] states[i]) == *final(states[i - 1]),
        forall|i: int|
            0 <= i < states.len() ==> match calls[i] {
                MorCall::Process(partition, batches, outcome) => call_ensures(
                    MorExecutor::process_file,
                    (#[trigger] states[i], partition, batches),
                    outcome,
                ),
                MorCall::Deletes(written) => call_ensures(
                    MorExecutor::record_delete_files,
                    (states[i], written),
                    (),
                ),
                MorCall::Data(written) => call_ensures(
                    MorExecutor::record_data_files,
                    (states[i], written),
                    (),
                ),
            },
        *asked == if states.len() == 0 {
            start
        } else {
            *final(states[states.len() - 1])
        },
        call_ensures(MorExecutor::delete_batches, (asked, key_columns), deletes),
    ensures
        key_columns@.len() > 0 && (forall|k: int|
            0 <= k < key_columns@.len() ==> {
                let kind = source@.columns[(#[trigger] key_columns@[k]).schema_index as int].data_type.kind;
                ||| kind is Int8 || kind is Int16 || kind is Int32 || kind is Int64
                ||| kind is UInt8 || kind is UInt16 || kind is UInt32 || kind is UInt64
                ||| kind is Date32 || kind is Dictionary || kind is TwiceEncoded
            }) ==> deletes is Ok,
        deletes matches Err(e) ==> e.spec_kind() == ErrorKind::Unexpected && ((exists|k: int|
            0 <= k < key_columns@.len() && starts_with(
                e.spec_message(),
                "Failed to take key column '"@ + (#[trigger] key_columns@[k]).name@ + "': "@,
            )) || (key_columns@.len() == 0 && starts_with(
            e.spec_message(),
            "Failed to build equality-delete batch: "@,
        ))),
{
    let n = states.len() - 1;
    if n >= 0 {
        lemma_calls(source, key_columns, non_keys, partitioned, start, states, calls, n);
    }
    assert(asked.merge().source == source@);
    if deletes is Err {
        let e = deletes->Err_0;
        let p = choose|p: PartitionModel| #[trigger] asked.delete_failure(key_columns@, p, e);
        let unique = first_occurrences(asked.matches_of(p));
        lemma_untakable(source@, key_columns@, unique);
        match untakable(source@, key_columns@, unique) {
            Some(k) => {
                let prefix = "Failed to take key column '"@ + key_columns@[k].name@ + "': "@;
                let detail = choose|detail: Seq<char>| e.spec_message() == #[trigger] (prefix + detail);
                assert(e.spec_message() == prefix + detail);
                assert(starts_with(e.spec_message(), prefix));
            },
            None => {
                let prefix = "Failed to build equality-delete batch: "@;
                let detail = choose|detail: Seq<char>| e.spec_message() == #[trigger] (prefix + detail);
                assert(e.spec_message() == prefix + detail);
                assert(starts_with(e.spec_message(), prefix));
            },
        }
    }
}

/// The text is the prefix and something after it.
pub open spec fn starts_with(text: Seq<char>, prefix: Seq<char>) -> bool {
    exists|detail: Seq<char>| text == #[trigger] (prefix + detail)
}

proof fn lemma_untakable(source: BatchModel, key_columns: Seq<KeyColumn>, indices: Seq<u32>)
    ensures
        untakable(source, key_columns, indices) matches Some(k) ==> 0 <= k < key_columns.len(),
    decreases key_columns.len(),
{
    if key_columns.len() > 0 {
        lemma_untakable(source, key_columns.drop_last(), indices);
    }
}

/// Whatever calls are made of an executor and in whatever order, the files to add are all data files
/// that were handed to it, in the order of the calls, and then all delete files, those of each call
/// of them. Each delete file counts as an affected file, all files count as added, and none is
/// deleted.
pub proof fn all_noted_files_are_handed_over(
    source: &Batch,
    key_columns: &[KeyColumn],
    non_keys: &[usize],
    partitioned: bool,
    start: MorExecutor,
    states: Seq<&mut MorExecutor>,
    calls: Seq<MorCall>,
    last: MorExecutor,
    delta: UpsertFileDelta,
)
    requires
        call_ensures(MorExecutor::new, (source, key_columns, non_keys, partitioned), Ok(start)),
        calls.len() == states.len(),
        states.len() > 0 ==> *states[0] == start,
        forall|i: int| 0 < i < states.len() ==> *(#[trigger] states[i]) == *final(states[i - 1]),
        forall|i: int|
            0 <= i < states.len() ==> match calls[i] {
                MorCall::Process(partition, batches, outcome) => call_ensures(
                    MorExecutor::process_file,
                    (#[trigger] states[i], partition, batches),
                    outcome,
                ),
                MorCall::Deletes(written) => call_ensures(
                    MorExecutor::record_delete_files,
                    (states[i], written),
                    (),
                ),
                MorCall::Data(written) => call_ensures(
                    MorExecutor::record_data_files,
                    (states[i], written),
                    (),
                ),
            },
        last == if states.len() == 0 {
            start
        } else {
            *final(states[states.len() - 1])
        },
        call_ensures(MorExecutor::finish, (last,), delta),
    ensures
        delta.added_data_files@ == calls.map_values(|c: MorCall| data_files_of(c)).flatten()
            + calls.map_values(|c: MorCall| delete_files_of(c)).flatten(),
        delta.stats.files_affected == calls.map_values(|c: MorCall| delete_files_of(c)).flatten().len(),
        delta.stats.files_added == delta.added_data_files@.len(),
        delta.deleted_data_files@.len() == 0,
        delta.stats.files_removed == 0,
{
    let n = states.len() - 1;
    if n >= 0 {
        lemma_calls(source, key_columns, non_keys, partitioned, start, states, calls, n);
        assert(calls.take(n + 1) =~= calls);
    } else {
        assert(calls.map_values(|c: MorCall| data_files_of(c)) =~= Seq::empty());
        assert(calls.map_values(|c: MorCall| delete_files_of(c)) =~= Seq::empty());
        assert(start.data_files() =~= Seq::empty());
        assert(start.delete_files() =~= Seq::empty());
    }
}

/// The executor knows what the files show.
spec fn knows(x: MorExecutor, m: MergeModel, partitioned: bool, seen: Seq<TargetFile>) -> bool {
    &&& x.merge() == m
    &&& x.is_partitioned() == partitioned
    &&& x.matched() == m.flags_of(contents(seen))
    &&& x.updated() == replaced_rows(m, contents(seen))
    &&& forall|p: PartitionModel| #[trigger] x.matches_of(p) == m.matches_by_partition(seen, p)
}

proof fn lemma_knows_new(x: MorExecutor, m: MergeModel, partitioned: bool, none: Seq<TargetFile>)
    requires
        x.is_new(),
        x.merge() == m,
        x.is_partitioned() == partitioned,
        none.len() == 0,
    ensures
        knows(x, m, partitioned, none),
{
    assert(contents(none) =~= Seq::empty());
    assert forall|p: PartitionModel| #[trigger] x.matches_of(p) == m.matches_by_partition(none, p) by {
        assert(x.matches_of(p) =~= m.matches_by_partition(none, p));
    }
}

proof fn lemma_knows_file(
    x: MorExecutor,
    y: MorExecutor,
    m: MergeModel,
    partitioned: bool,
    seen: Seq<TargetFile>,
    file: TargetFile,
)
    requires
        knows(x, m, partitioned, seen),
        x.after_file(y, file.partition, file.batches),
    ensures
        knows(y, m, partitioned, seen.push(file)),
{
    let now = seen.push(file);
    assert(now.drop_last() =~= seen);
    assert(contents(now).drop_last() =~= contents(seen));
    assert(contents(now).last() == file.batches);
    assert forall|p: PartitionModel| #[trigger] y.matches_of(p) == m.matches_by_partition(now, p) by {
        assert(x.matches_of(p) == m.matches_by_partition(seen, p));
    }
}

proof fn lemma_knows_writing(
    x: MorExecutor,
    y: MorExecutor,
    m: MergeModel,
    partitioned: bool,
    seen: Seq<TargetFile>,
    data: Seq<DataFile>,
    deletes: Seq<DataFile>,
)
    requires
        knows(x, m, partitioned, seen),
        x.after_writing(y, data, deletes),
    ensures
        knows(y, m, partitioned, seen),
{
    assert forall|p: PartitionModel| #[trigger] y.matches_of(p) == m.matches_by_partition(seen, p) by {
        assert(x.matches_of(p) == m.matches_by_partition(seen, p));
    }
}

proof fn lemma_files(
    source: &Batch,
    key_columns: &[KeyColumn],
    non_keys: &[usize],
    partitioned: bool,
    start: MorExecutor,
    states: Seq<&mut MorExecutor>,
    calls: Seq<MorCall>,
    files: Seq<TargetFile>,
    n: int,
    x: MorExecutor,
    m: MergeModel,
    seen: Seq<TargetFile>,
)
    requires
        call_ensures(MorExecutor::new, (source, key_columns, non_keys, partitioned), Ok(start)),
        calls.len() == states.len(),
        states.len() > 0 ==> *states[0] == start,
        forall|i: int| 0 < i < states.len() ==> *(#[trigger] states[i]) == *final(states[i - 1]),
        forall|i: int|
            0 <= i < states.len() ==> match calls[i] {
                MorCall::Process(partition, batches, outcome) => call_ensures(
                    MorExecutor::process_file,
                    (#[trigger] states[i], partition, batches),
                    outcome,
                ),
                MorCall::Deletes(written) => call_ensures(
                    MorExecutor::record_delete_files,
                    (states[i], written),
                    (),
                ),
                MorCall::Data(written) => call_ensures(
                    MorExecutor::record_data_files,
                    (states[i], written),
                    (),
                ),
            },
        0 <= files.len() <= states.len(),
        forall|i: int|
            0 <= i < files.len() ==> (#[trigger] calls[i] matches MorCall::Process(partition, batches, outcome)
                && outcome is Ok && files[i] == (TargetFile {
                partition: partition@,
                batches: batches@.map_values(|b: Batch| b@),
            })),
        forall|i: int| files.len() <= i < states.len() ==> !(#[trigger] calls[i] is Process),
        0 <= n <= states.len(),
        x == if n == 0 {
            start
        } else {
            *final(states[n - 1])
        },
        m == (MergeModel {
            source: source@,
            keys: schema_indices(key_columns@),
            non_keys: non_keys@,
            skip_unchanged: true,
        }),
        seen == files.take(if n < files.len() {
            n
        } else {
            files.len() as int
        }),
    ensures
        knows(x, m, partitioned, seen),
    decreases n,
{
    if n == 0 {
        assert(x.merge() == m);
        lemma_knows_new(x, m, partitioned, seen);
    } else {
        let i = n - 1;
        let before = *states[i];
        let earlier = files.take(if i < files.len() {
            i
        } else {
            files.len() as int
        });
        if i > 0 {
            assert(*states[i] == *final(states[i - 1]));
        }
        lemma_files(source, key_columns, non_keys, partitioned, start, states, calls, files, i, before, m, earlier);
        match calls[i] {
            MorCall::Process(partition, batches, outcome) => {
                assert(call_ensures(MorExecutor::process_file, (states[i], partition, batches), outcome));
                if i >= files.len() {
                    assert(!(calls[i] is Process));
                }
                let call = calls[i];
                assert(call matches MorCall::Process(partition, batches, outcome) && outcome is Ok && files[i] == (
                TargetFile { partition: partition@, batches: batches@.map_values(|b: Batch| b@) }));
                assert(files[i].batches =~= models(batches@));
                assert(seen =~= earlier.push(files[i]));
                lemma_knows_file(before, x, m, partitioned, earlier, files[i]);
            },
            MorCall::Deletes(written) => {
                if i < files.len() {
                    assert(calls[i] is Process);
                }
                assert(call_ensures(MorExecutor::record_delete_files, (states[i], written), ()));
                lemma_knows_writing(before, x, m, partitioned, seen, Seq::empty(), written@);
            },
            MorCall::Data(written) => {
                if i < files.len() {
                    assert(calls[i] is Process);
                }
                assert(call_ensures(MorExecutor::record_data_files, (states[i], written), ()));
                lemma_knows_writing(before, x, m, partitioned, seen, written@, Seq::empty());
            },
        }
    }
}

/// A merge-on-read upsert counts the rows of its files that match a source row and differ from it in
/// a compared column, and the source rows that no row matches. All source rows are new data.
#[verifier::rlimit(30)]
pub proof fn merge_on_read_counts_and_writes(
    source: &Batch,
    key_columns: &[KeyColumn],
    non_keys: &[usize],
    partitioned: bool,
    start: MorExecutor,
    states: Seq<&mut MorExecutor>,
    calls: Seq<MorCall>,
    files: Seq<TargetFile>,
    asked: &MorExecutor,
    data: &Batch,
    last: MorExecutor,
    delta: UpsertFileDelta,
    keys: Seq<usize>,
    held: Seq<Seq<BatchModel>>,
)
    requires
        call_ensures(MorExecutor::new, (source, key_columns, non_keys, partitioned), Ok(start)),
        calls.len() == states.len(),
        states.len() > 0 ==> *states[0] == start,
        forall|i: int| 0 < i < states.len() ==> *(#[trigger] states[i]) == *final(states[i - 1]),
        forall|i: int|
            0 <= i < states.len() ==> match calls[i] {
                MorCall::Process(partition, batches, outcome) => call_ensures(
                    MorExecutor::process_file,
                    (#[trigger] states[i], partition, batches),
                    outcome,
                ),
                MorCall::Deletes(written) => call_ensures(
                    MorExecutor::record_delete_files,
                    (states[i], written),
                    (),
                ),
                MorCall::Data(written) => call_ensures(
                    MorExecutor::record_data_files,
                    (states[i], written),
                    (),
                ),
            },
        0 <= files.len() <= states.len(),
        forall|i: int|
            0 <= i < files.len() ==> (#[trigger] calls[i] matches MorCall::Process(partition, batches, outcome)
                && outcome is Ok && files[i] == (TargetFile {
                partition: partition@,
                batches: batches@.map_values(|b: Batch| b@),
            })),
        forall|i: int| files.len() <= i < states.len() ==> !(#[trigger] calls[i] is Process),
        last == if states.len() == 0 {
            start
        } else {
            *final(states[states.len() - 1])
        },
        call_ensures(MorExecutor::finish, (last,), delta),
        *asked == if files.len() == 0 {
            start
        } else {
            *final(states[files.len() - 1])
        },
        call_ensures(MorExecutor::data_batch, (asked,), data),
        keys == key_columns@.map_values(|k: KeyColumn| k.schema_index),
        held == files.map_values(|f: TargetFile| f.batches),
    ensures
        data@ == source@,
        delta.stats.rows_updated == held.flatten().map_values(
            |b: BatchModel| numbers_of(b.rows, |t: int| is_replaced(source@, b, t, keys, non_keys@, true)),
        ).flatten().len(),
        delta.stats.rows_inserted == numbers_of(
            source@.rows,
            |s: int| !is_matched_anywhere(source@, s, held, keys),
        ).len(),
{
    let m = MergeModel {
        source: source@,
        keys: schema_indices(key_columns@),
        non_keys: non_keys@,
        skip_unchanged: true,
    };
    assert(keys =~= m.keys);
    assert(held =~= contents(files));
    assert(files.take(files.len() as int) =~= files);
    lemma_files(source, key_columns, non_keys, partitioned, start, states, calls, files, files.len() as int, *asked, m, files);
    lemma_files(source, key_columns, non_keys, partitioned, start, states, calls, files, states.len() as int, last, m, files);
    lemma_counts(m, partitioned, files, held, *asked, last, delta);
}

proof fn lemma_counts(
    m: MergeModel,
    partitioned: bool,
    files: Seq<TargetFile>,
    held: Seq<Seq<BatchModel>>,
    asked: MorExecutor,
    last: MorExecutor,
    delta: UpsertFileDelta,
)
    requires
        held == contents(files),
        knows(asked, m, partitioned, files),
        knows(last, m, partitioned, files),
        last.yields(delta),
        m.skip_unchanged,
    ensures
        asked.merge().source == m.source,
        delta.stats.rows_updated == held.flatten().map_values(
            |b: BatchModel|
                numbers_of(b.rows, |t: int| is_replaced(m.source, b, t, m.keys, m.non_keys, true)),
        ).flatten().len(),
        delta.stats.rows_inserted == numbers_of(
            m.source.rows,
            |s: int| !is_matched_anywhere(m.source, s, held, m.keys),
        ).len(),
{
    let source = m.source;
    let keys = m.keys;
    lemma_replaced_rows(m, held);
    lemma_matched_anywhere(m, held);
    let flags = m.flags_of(held);
    let unmatched = flags.map_values(|b: bool| !b);
    let test = |s: int| !is_matched_anywhere(source, s, held, keys);
    assert forall|s: int| 0 <= s < unmatched.len() implies #[trigger] unmatched[s] == test(s) by {
        assert(flags[s] == is_matched_anywhere(m.source, s, held, m.keys));
    }
    lemma_numbers(unmatched, test);
    lemma_count_complement(flags);
}

/// A row of some file of the partition matches source row `s`.
pub open spec fn is_matched_in_partition(
    source: BatchModel,
    s: int,
    files: Seq<TargetFile>,
    partition: PartitionModel,
    keys: Seq<usize>,
) -> bool {
    exists|f: int, b: int|
        0 <= f < files.len() && files[f].partition == partition && 0 <= b < files[f].batches.len()
            && is_matched_by(source, s, #[trigger] files[f].batches[b], keys)
}

/// The deletes hold the keys of the numbered source rows, under the names of the key columns and with
/// their types.
pub open spec fn hold_keys_of(
    deletes: BatchModel,
    source: BatchModel,
    key_columns: Seq<KeyColumn>,
    numbers: Seq<int>,
) -> bool {
    &&& deletes.rows == numbers.len()
    &&& deletes.columns.len() == key_columns.len()
    &&& forall|k: int|
        0 <= k < key_columns.len() ==> {
            let column = source.columns[key_columns[k].schema_index as int];
            &&& (#[trigger] deletes.columns[k]).field.name == key_columns[k].name@
            &&& deletes.columns[k].field.data_type == column.field.data_type
            &&& deletes.columns[k].field.nullable == column.field.nullable
            &&& deletes.columns[k].field.metadata == Map::<Seq<char>, Seq<char>>::empty()
            &&& deletes.columns[k].data_type == column.data_type
            &&& deletes.columns[k].cells.len() == numbers.len()
        }
    &&& forall|k: int, r: int|
        0 <= k < key_columns.len() && 0 <= r < numbers.len() ==> #[trigger] deletes.columns[k].cells[r]
            == source.columns[key_columns[k].schema_index as int].cells[numbers[r]]
}

/// The deletes of the partition: the keys of the source rows that rows of its files match, each
/// source row once.
pub open spec fn deletes_partition(
    deletes: PartitionDeletes,
    source: BatchModel,
    key_columns: Seq<KeyColumn>,
    files: Seq<TargetFile>,
    partition: PartitionModel,
    partitioned: bool,
) -> bool {
    &&& match deletes.partition {
        Some(p) => partitioned && p@ == partition,
        None => !partitioned,
    }
    &&& exists|numbers: Seq<int>|
        {
            &&& #[trigger] hold_keys_of(deletes.batch@, source, key_columns, numbers)
            &&& numbers.no_duplicates()
            &&& forall|s: int| #[trigger]
                numbers.contains(s) <==> is_matched_in_partition(
                    source,
                    s,
                    files,
                    partition,
                    key_columns.map_values(|k: KeyColumn| k.schema_index),
                )
        }
}

proof fn lemma_matches_in(m: MergeModel, file: Seq<BatchModel>, s: int)
    ensures
        m.matches_in(file).contains(s) <==> exists|b: int|
            0 <= b < file.len() && is_matched_by(m.source, s, #[trigger] file[b], m.keys),
    decreases file.len(),
{
    if file.len() > 0 {
        let rest = file.drop_last();
        let n = file.len() - 1;
        let last = file[n];
        let sk = m.source.keys(m.keys);
        let tk = last.keys(m.keys);
        let bits = matched_bits(sk, tk, last.rows);
        let targets = pair_targets(sk, tk, last.rows);
        let sources = pair_sources(sk, tk, last.rows);
        let earlier = m.matches_in(rest);
        let all = m.matches_in(file);
        lemma_matches_in(m, rest, s);
        lemma_is_matched_by(m.source, last, m.keys, s);
        lemma_selected(bits);
        assert(all == earlier + sources);
        assert(sources.contains(s) <==> hits(sk, tk, last.rows, s)) by {
            if sources.contains(s) {
                let j = choose|j: int| 0 <= j < sources.len() && sources[j] == s;
                assert(bits[targets[j]]);
                assert(match_of(sk, tk, targets[j]) == Some(s));
            }
            if hits(sk, tk, last.rows, s) {
                let t = choose|t: int| 0 <= t < last.rows && #[trigger] match_of(sk, tk, t) == Some(s);
                assert(bits[t]);
                let j = choose|j: int| 0 <= j < targets.len() && targets[j] == t;
                assert(sources[j] == s);
            }
        }
        if all.contains(s) {
            let i = choose|i: int| 0 <= i < all.len() && all[i] == s;
            if i < earlier.len() {
                assert(earlier[i] == s);
                let b = choose|b: int| 0 <= b < rest.len() && is_matched_by(m.source, s, #[trigger] rest[b], m.keys);
                assert(is_matched_by(m.source, s, file[b], m.keys));
            } else {
                assert(sources[i - earlier.len()] == s);
                assert(is_matched_by(m.source, s, file[n], m.keys));
            }
        }
        if exists|b: int| 0 <= b < file.len() && is_matched_by(m.source, s, #[trigger] file[b], m.keys) {
            let b = choose|b: int| 0 <= b < file.len() && is_matched_by(m.source, s, #[trigger] file[b], m.keys);
            if b < n {
                assert(is_matched_by(m.source, s, rest[b], m.keys));
                let i = choose|i: int| 0 <= i < earlier.len() && earlier[i] == s;
                assert(all[i] == s);
            } else {
                let i = choose|i: int| 0 <= i < sources.len() && sources[i] == s;
                assert(all[earlier.len() + i] == s);
            }
        }
    }
}

proof fn lemma_matches_by_partition(m: MergeModel, files: Seq<TargetFile>, p: PartitionModel, u: u32)
    requires
        m.source.rows <= 0x1_0000_0000,
    ensures
        m.matches_by_partition(files, p).contains(u) <==> is_matched_in_partition(
            m.source,
            u as int,
            files,
            p,
            m.keys,
        ),
    decreases files.len(),
{
    let s = u as int;
    if files.len() > 0 {
        let rest = files.drop_last();
        let n = files.len() - 1;
        let last = files[n];
        let earlier = m.matches_by_partition(rest, p);
        let all = m.matches_by_partition(files, p);
        let found = m.matches_in(last.batches);
        let new = as_indices(found);
        lemma_matches_by_partition(m, rest, p, u);
        assert forall|x: int| found.contains(x) implies 0 <= x < m.source.rows by {
            lemma_matches_in(m, last.batches, x);
            let b = choose|b: int|
                0 <= b < last.batches.len() && is_matched_by(m.source, x, #[trigger] last.batches[b], m.keys);
            let t = choose|t: int| #[trigger] is_match(m.source, x, last.batches[b], t, m.keys);
            assert(is_match(m.source, x, last.batches[b], t, m.keys));
        }
        lemma_matches_in(m, last.batches, s);
        if last.partition == p {
            assert(all == earlier + new);
        }
        if all.contains(u) {
            let i = choose|i: int| 0 <= i < all.len() && all[i] == u;
            if i < earlier.len() {
                assert(earlier[i] == u);
                assert(earlier.contains(u));
                let (f, b) = choose|f: int, b: int|
                    0 <= f < rest.len() && rest[f].partition == p && 0 <= b < rest[f].batches.len()
                        && is_matched_by(m.source, s, #[trigger] rest[f].batches[b], m.keys);
                assert(is_matched_by(m.source, s, files[f].batches[b], m.keys));
            } else {
                let x = found[i - earlier.len()];
                assert(found.contains(x));
                assert(new[i - earlier.len()] == x as u32);
                assert(x == s);
                let b = choose|b: int|
                    0 <= b < last.batches.len() && is_matched_by(
                        m.source,
                        s,
                        #[trigger] last.batches[b],
                        m.keys,
                    );
                assert(is_matched_by(m.source, s, files[n].batches[b], m.keys));
            }
        }
        if is_matched_in_partition(m.source, s, files, p, m.keys) {
            let (f, b) = choose|f: int, b: int|
                0 <= f < files.len() && files[f].partition == p && 0 <= b < files[f].batches.len()
                    && is_matched_by(m.source, s, #[trigger] files[f].batches[b], m.keys);
            if f < n {
                assert(is_matched_by(m.source, s, rest[f].batches[b], m.keys));
                let i = choose|i: int| 0 <= i < earlier.len() && earlier[i] == u;
                assert(all[i] == u);
            } else {
                assert(is_matched_by(m.source, s, last.batches[b], m.keys));
                let i = choose|i: int| 0 <= i < found.len() && found[i] == s;
                assert(new[i] == u);
                assert(all[earlier.len() + i] == u);
            }
        }
    }
}

/// Rows that match lie in the source.
proof fn lemma_matched_bounds(source: BatchModel, s: int, files: Seq<TargetFile>, p: PartitionModel, keys: Seq<usize>)
    requires
        is_matched_in_partition(source, s, files, p, keys),
    ensures
        0 <= s < source.rows,
{
    let (f, b) = choose|f: int, b: int|
        0 <= f < files.len() && files[f].partition == p && 0 <= b < files[f].batches.len() && is_matched_by(
            source,
            s,
            #[trigger] files[f].batches[b],
            keys,
        );
    let t = choose|t: int| #[trigger] is_match(source, s, files[f].batches[b], t, keys);
    assert(is_match(source, s, files[f].batches[b], t, keys));
}

/// The deletes of a partition hold the keys of the rows recorded for it.
proof fn lemma_deletes_partition(
    m: MergeModel,
    key_columns: Seq<KeyColumn>,
    files: Seq<TargetFile>,
    p: PartitionModel,
    partitioned: bool,
    deletes: PartitionDeletes,
)
    requires
        m.source.rows <= 0x1_0000_0000,
        m.keys == schema_indices(key_columns),
        deletes.deletes(m.source, key_columns, p, partitioned, m.matches_by_partition(files, p)),
    ensures
        deletes_partition(deletes, m.source, key_columns, files, p, partitioned),
{
    let recorded = m.matches_by_partition(files, p);
    let unique = first_occurrences(recorded);
    let numbers = unique.map_values(|u: u32| u as int);
    let keys = key_columns.map_values(|k: KeyColumn| k.schema_index);
    assert(keys =~= m.keys);
    lemma_first_occurrences(recorded);
    assert(deletes.batch@ == delete_batch(m.source, key_columns, unique));
    assert(hold_keys_of(deletes.batch@, m.source, key_columns, numbers));
    assert(numbers.no_duplicates()) by {
        assert forall|i: int, j: int| 0 <= i < numbers.len() && 0 <= j < numbers.len() && i != j implies numbers[i]
            != numbers[j] by {
            assert(unique[i] != unique[j]);
        }
    }
    assert forall|s: int| #[trigger] numbers.contains(s) <==> is_matched_in_partition(
        m.source,
        s,
        files,
        p,
        keys,
    ) by {
        if numbers.contains(s) {
            let i = choose|i: int| 0 <= i < numbers.len() && numbers[i] == s;
            assert(unique.contains(unique[i]));
            lemma_matches_by_partition(m, files, p, unique[i]);
        }
        if is_matched_in_partition(m.source, s, files, p, keys) {
            lemma_matched_bounds(m.source, s, files, p, keys);
            lemma_matches_by_partition(m, files, p, s as u32);
            assert(unique.contains(s as u32));
            let i = choose|i: int| 0 <= i < unique.len() && unique[i] == s as u32;
            assert(numbers[i] == s);
        }
    }
}

/// A delete batch is handed out for each partition in whose files a row matches, once, and for no
/// other. It holds the keys of the source rows that rows of the partition's files match, each once.
#[verifier::rlimit(30)]
pub proof fn matched_keys_are_deleted_by_partition(
    source: &Batch,
    key_columns: &[KeyColumn],
    non_keys: &[usize],
    partitioned: bool,
    start: MorExecutor,
    states: Seq<&mut MorExecutor>,
    calls: Seq<MorCall>,
    files: Seq<TargetFile>,
    asked: &MorExecutor,
    deletes: Vec<PartitionDeletes>,
    keys: Seq<usize>,
)
    requires
        call_ensures(MorExecutor::new, (source, key_columns, non_keys, partitioned), Ok(start)),
        calls.len() == states.len(),
        states.len() > 0 ==> *states[0] == start,
        forall|i: int| 0 < i < states.len() ==> *(#[trigger] states[i]) == *final(states[i - 1]),
        forall|i: int|
            0 <= i < states.len() ==> match calls[i] {
                MorCall::Process(partition, batches, outcome) => call_ensures(
                    MorExecutor::process_file,
                    (#[trigger] states[i], partition, batches),
                    outcome,
                ),
                MorCall::Deletes(written) => call_ensures(
                    MorExecutor::record_delete_files,
                    (states[i], written),
                    (),
                ),
                MorCall::Data(written) => call_ensures(
                    MorExecutor::record_data_files,
                    (states[i], written),
                    (),
                ),
            },
        0 <= files.len() <= states.len(),
        forall|i: int|
            0 <= i < files.len() ==> (#[trigger] calls[i] matches MorCall::Process(partition, batches, outcome)
                && outcome is Ok && files[i] == (TargetFile {
                partition: partition@,
                batches: batches@.map_values(|b: Batch| b@),
            })),
        forall|i: int| files.len() <= i < states.len() ==> !(#[trigger] calls[i] is Process),
        *asked == if files.len() == 0 {
            start
        } else {
            *final(states[files.len() - 1])
        },
        call_ensures(MorExecutor::delete_batches, (asked, key_columns), Ok(deletes)),
        keys == key_columns@.map_values(|k: KeyColumn| k.schema_index),
        source@.rows <= 0x1_0000_0000,
    ensures
        exists|partitions: Seq<PartitionModel>|
            {
                &&& partitions.len() == deletes@.len()
                &&& partitions.no_duplicates()
                &&& forall|i: int|
                    0 <= i < deletes@.len() ==> deletes_partition(
                        deletes@[i],
                        source@,
                        key_columns@,
                        files,
                        #[trigger] partitions[i],
                        partitioned,
                    )
                &&& forall|p: PartitionModel| #[trigger]
                    partitions.contains(p) <==> exists|s: int| #[trigger]
                        is_matched_in_partition(source@, s, files, p, keys)
            },
{
    let m = MergeModel {
        source: source@,
        keys: schema_indices(key_columns@),
        non_keys: non_keys@,
        skip_unchanged: true,
    };
    assert(keys =~= m.keys);
    assert(files.take(files.len() as int) =~= files);
    lemma_files(source, key_columns, non_keys, partitioned, start, states, calls, files, files.len() as int, *asked, m, files);
    lemma_all_deletes(m, partitioned, files, *asked, key_columns@, deletes@);
}

proof fn lemma_all_deletes(
    m: MergeModel,
    partitioned: bool,
    files: Seq<TargetFile>,
    asked: MorExecutor,
    key_columns: Seq<KeyColumn>,
    deletes: Seq<PartitionDeletes>,
)
    requires
        knows(asked, m, partitioned, files),
        m.keys == schema_indices(key_columns),
        m.source.rows <= 0x1_0000_0000,
        asked.are_all_deletes(key_columns, deletes),
    ensures
        exists|partitions: Seq<PartitionModel>|
            {
                &&& partitions.len() == deletes.len()
                &&& partitions.no_duplicates()
                &&& forall|i: int|
                    0 <= i < deletes.len() ==> deletes_partition(
                        deletes[i],
                        m.source,
                        key_columns,
                        files,
                        #[trigger] partitions[i],
                        partitioned,
                    )
                &&& forall|p: PartitionModel| #[trigger]
                    partitions.contains(p) <==> exists|s: int| #[trigger]
                        is_matched_in_partition(m.source, s, files, p, m.keys)
            },
{
    let source = m.source;
    let keys = m.keys;
    let partitions = choose|ps: Seq<PartitionModel>|
        {
            &&& #[trigger] asked.lists_deletes(key_columns, deletes, ps)
            &&& ps.no_duplicates()
            &&& asked.have_matches(ps)
        };
    assert(asked.lists_deletes(key_columns, deletes, partitions));
    assert forall|i: int| 0 <= i < deletes.len() implies deletes_partition(
        deletes[i],
        source,
        key_columns,
        files,
        #[trigger] partitions[i],
        partitioned,
    ) by {
        assert(deletes[i].deletes(
            asked.merge().source,
            key_columns,
            partitions[i],
            asked.is_partitioned(),
            asked.matches_of(partitions[i]),
        ));
        lemma_deletes_partition(m, key_columns, files, partitions[i], partitioned, deletes[i]);
    }
    assert forall|p: PartitionModel| #[trigger] partitions.contains(p) <==> exists|s: int| #[trigger]
        is_matched_in_partition(source, s, files, p, keys) by {
        let recorded = m.matches_by_partition(files, p);
        assert(partitions.contains(p) <==> asked.matches_of(p).len() > 0);
        if recorded.len() > 0 {
            assert(recorded.contains(recorded[0]));
            lemma_matches_by_partition(m, files, p, recorded[0]);
            assert(is_matched_in_partition(source, recorded[0] as int, files, p, keys));
        }
        if exists|s: int| #[trigger] is_matched_in_partition(source, s, files, p, keys) {
            let s = choose|s: int| #[trigger] is_matched_in_partition(source, s, files, p, keys);
            lemma_matched_bounds(source, s, files, p, keys);
            lemma_matches_by_partition(m, files, p, s as u32);
            assert(recorded.contains(s as u32));
            assert(recorded.len() > 0);
        }
    }
    assert(partitions.len() == deletes.len());
}

/// The deletes remove a row of the partition: those of the partition, or of a table without
/// partitions, hold its key.
pub open spec fn remove(
    deletes: Seq<PartitionDeletes>,
    row: Row,
    partition: PartitionModel,
    keys: Seq<usize>,
) -> bool {
    exists|i: int, r: int|
        {
            &&& 0 <= i < deletes.len()
            &&& match deletes[i].partition {
                Some(p) => p@ == partition,
                None => true,
            }
            &&& 0 <= r < deletes[i].batch@.rows
            &&& #[trigger] is_deleted_by(deletes[i].batch@, r, row, keys)
        }
}

/// Row `r` of the deletes holds the key of the row.
pub open spec fn is_deleted_by(deletes: BatchModel, r: int, row: Row, keys: Seq<usize>) -> bool {
    &&& deletes.columns.len() == keys.len()
    &&& forall|k: int|
        0 <= k < keys.len() ==> (#[trigger] deletes.columns[k]).cells[r] == row[keys[k] as int]
}

/// After a merge-on-read upsert the deletes remove a row of a file exactly where the row has the key
/// of a source row. So the table holds the other rows of before, and all rows of the source as new
/// data.
#[verifier::rlimit(30)]
pub proof fn deletes_remove_what_has_a_key_of_the_source(
    source: &Batch,
    key_columns: &[KeyColumn],
    non_keys: &[usize],
    partitioned: bool,
    start: MorExecutor,
    states: Seq<&mut MorExecutor>,
    calls: Seq<MorCall>,
    files: Seq<TargetFile>,
    asked: &MorExecutor,
    deletes: Vec<PartitionDeletes>,
    keys: Seq<usize>,
    f: int,
    b: int,
    t: int,
)
    requires
        call_ensures(MorExecutor::new, (source, key_columns, non_keys, partitioned), Ok(start)),
        calls.len() == states.len(),
        states.len() > 0 ==> *states[0] == start,
        forall|i: int| 0 < i < states.len() ==> *(#[trigger] states[i]) == *final(states[i - 1]),
        forall|i: int|
            0 <= i < states.len() ==> match calls[i] {
                MorCall::Process(partition, batches, outcome) => call_ensures(
                    MorExecutor::process_file,
                    (#[trigger] states[i], partition, batches),
                    outcome,
                ),
                MorCall::Deletes(written) => call_ensures(
                    MorExecutor::record_delete_files,
                    (states[i], written),
                    (),
                ),
                MorCall::Data(written) => call_ensures(
                    MorExecutor::record_data_files,
                    (states[i], written),
                    (),
                ),
            },
        0 <= files.len() <= states.len(),
        forall|i: int|
            0 <= i < files.len() ==> (#[trigger] calls[i] matches MorCall::Process(partition, batches, outcome)
                && outcome is Ok && files[i] == (TargetFile {
                partition: partition@,
                batches: batches@.map_values(|b: Batch| b@),
            })),
        forall|i: int| files.len() <= i < states.len() ==> !(#[trigger] calls[i] is Process),
        *asked == if files.len() == 0 {
            start
        } else {
            *final(states[files.len() - 1])
        },
        call_ensures(MorExecutor::delete_batches, (asked, key_columns), Ok(deletes)),
        keys == key_columns@.map_values(|k: KeyColumn| k.schema_index),
        keys.len() > 0,
        source@.rows <= 0x1_0000_0000,
        0 <= f < files.len(),
        0 <= b < files[f].batches.len(),
        0 <= t < files[f].batches[b].rows,
        in_columns(keys, files[f].batches[b]),
    ensures
        remove(deletes@, files[f].batches[b].row(t), files[f].partition, keys) <==> has_key_of_source(
            source@,
            files[f].batches[b].row(t),
            keys,
        ),
{
    let target = files[f].batches[b];
    let row = target.row(t);
    let p = files[f].partition;
    matched_keys_are_deleted_by_partition(source, key_columns, non_keys, partitioned, start, states, calls, files, asked, deletes, keys);
    let partitions = choose|ps: Seq<PartitionModel>|
        {
            &&& ps.len() == deletes@.len()
            &&& ps.no_duplicates()
            &&& forall|i: int|
                0 <= i < deletes@.len() ==> deletes_partition(
                    deletes@[i],
                    source@,
                    key_columns@,
                    files,
                    #[trigger] ps[i],
                    partitioned,
                )
            &&& forall|q: PartitionModel| #[trigger]
                ps.contains(q) <==> exists|s: int| #[trigger]
                    is_matched_in_partition(source@, s, files, q, keys)
        };
    lemma_key_of_source(source@, target, keys, t);
    lemma_is_match(source@, target, keys, t);
    if has_key_of_source(source@, row, keys) {
        let s = match_of(source@.keys(keys), target.keys(keys), t)->0;
        assert(is_match(source@, s, target, t, keys));
        assert(is_matched_by(source@, s, files[f].batches[b], keys));
        assert(is_matched_in_partition(source@, s, files, p, keys));
        assert(partitions.contains(p));
        let i = choose|i: int| 0 <= i < partitions.len() && partitions[i] == p;
        assert(deletes_partition(deletes@[i], source@, key_columns@, files, partitions[i], partitioned));
        let numbers = choose|numbers: Seq<int>|
            {
                &&& #[trigger] hold_keys_of(deletes@[i].batch@, source@, key_columns@, numbers)
                &&& numbers.no_duplicates()
                &&& forall|s: int| #[trigger]
                    numbers.contains(s) <==> is_matched_in_partition(source@, s, files, p, keys)
            };
        assert(numbers.contains(s));
        let r = choose|r: int| 0 <= r < numbers.len() && numbers[r] == s;
        let batch = deletes@[i].batch@;
        assert forall|k: int| 0 <= k < keys.len() implies (#[trigger] batch.columns[k]).cells[r]
            == row[keys[k] as int] by {
            assert(batch.columns[k].cells[r] == source@.columns[key_columns@[k].schema_index as int].cells[numbers[r]]);
            assert(source@.columns[keys[k] as int].cells[s] == target.columns[keys[k] as int].cells[t]);
        }
        assert(is_deleted_by(deletes@[i].batch@, r, row, keys));
    }
    if remove(deletes@, row, p, keys) {
        let (i, r) = choose|i: int, r: int|
            {
                &&& 0 <= i < deletes@.len()
                &&& match deletes@[i].partition {
                    Some(q) => q@ == p,
                    None => true,
                }
                &&& 0 <= r < deletes@[i].batch@.rows
                &&& #[trigger] is_deleted_by(deletes@[i].batch@, r, row, keys)
            };
        assert(deletes_partition(deletes@[i], source@, key_columns@, files, partitions[i], partitioned));
        let batch = deletes@[i].batch@;
        let numbers = choose|numbers: Seq<int>|
            {
                &&& #[trigger] hold_keys_of(batch, source@, key_columns@, numbers)
                &&& numbers.no_duplicates()
                &&& forall|s: int| #[trigger]
                    numbers.contains(s) <==> is_matched_in_partition(source@, s, files, partitions[i], keys)
            };
        let s = numbers[r];
        assert(numbers.contains(s));
        lemma_matched_bounds(source@, s, files, partitions[i], keys);
        assert(agrees_with(source@, s, row, keys)) by {
            assert forall|k: int| 0 <= k < keys.len() implies row[#[trigger] keys[k] as int]
                == source@.columns[keys[k] as int].cells[s] by {
                assert(batch.columns[k].cells[r] == row[keys[k] as int]);
            }
        }
    }
}

}
