//! What calls of the copy-on-write executor give, said over what goes in and what comes out.
use vstd::multiset::Multiset;
use vstd::prelude::*;
use vstd::seq_lib::{lemma_multiset_commutative, to_multiset_build};

use crate::columnar::Batch;
use crate::contents::{lemma_rows_of_one, rows_of};
use crate::cow_executor::{lemma_count_true, models, CowExecutor, MergeModel};
use crate::data_file::DataFile;
use crate::error::Result;
use crate::laws::{copy_on_write_upserts, table_rows, upserted_table_holds};
use crate::matching_laws::{can_be_matched, is_match_failure, lemma_file_failure, same_key_types};
use crate::merge_laws::{
    is_matched_anywhere, is_replaced, lemma_matched_anywhere, lemma_merged_file, lemma_numbers,
    lemma_part_passing, lemma_replaced_rows, numbers_of, rewritten_rows_of, rows_passing,
};
use crate::model::{count_true, in_columns, selected, BatchModel, Row};
use crate::planner::{schema_indices, KeyColumn};
use crate::run_laws::{copy_on_write_run, lemma_cow_states, takes_file, CowRun, CowStep};
use crate::table_laws::{
    all_columns_are_read, are_files_after, has_key_of_source, held_by, lemma_files_after,
    lemma_held_concat, lemma_matches_once, lemma_rows_of_in_order, lemma_untouched_table,
    matched_at_most_once, Store,
};
use crate::upsert::{commit_of, Overwrite, UpsertFileDelta, UpsertResult, UpsertWriteMode};

verus! {

/// A call of the executor.
pub enum CowCall<'a> {
    /// A target file is processed, with the given outcome.
    Process(&'a [Batch], Result<Option<Vec<Batch>>>),
    /// The files that hold the new content of a file are noted, with the file itself where known.
    Rewrite(Vec<DataFile>, Option<DataFile>),
    /// The files that hold inserted rows are noted.
    Insert(Vec<DataFile>),
}

/// The files that a call hands to the executor as written.
pub open spec fn files_written(call: CowCall) -> Seq<DataFile> {
    match call {
        CowCall::Process(_, _) => Seq::empty(),
        CowCall::Rewrite(written, _) => written@,
        CowCall::Insert(written) => written@,
    }
}

/// The file that a call hands to the executor as replaced.
pub open spec fn file_replaced(call: CowCall) -> Seq<DataFile> {
    match call {
        CowCall::Rewrite(_, Some(original)) => seq![original],
        _ => Seq::empty(),
    }
}

proof fn lemma_calls(
    source: &Batch,
    key_columns: &[KeyColumn],
    non_keys: &[usize],
    skip_unchanged: bool,
    start: CowExecutor,
    states: Seq<&mut CowExecutor>,
    calls: Seq<CowCall>,
    n: int,
)
    requires
        call_ensures(CowExecutor::new, (source, key_columns, non_keys, skip_unchanged), Ok(start)),
        calls.len() == states.len(),
        states.len() > 0 ==> *states[0] == start,
        forall|i: int| 0 < i < states.len() ==> *(#[trigger] states[i]) == *final(states[i - 1]),
        forall|i: int|
            0 <= i < states.len() ==> match calls[i] {
                CowCall::Process(batches, outcome) => call_ensures(
                    CowExecutor::process_file,
                    (#[trigger] states[i], batches),
                    outcome,
                ),
                CowCall::Rewrite(written, original) => call_ensures(
                    CowExecutor::record_rewrite,
                    (states[i], written, original),
                    (),
                ),
                CowCall::Insert(written) => call_ensures(
                    CowExecutor::record_inserts,
                    (states[i], written),
                    (),
                ),
            },
        0 <= n < states.len(),
    ensures
        final(states[n]).added() == calls.take(n + 1).map_values(|c: CowCall| files_written(c)).flatten(),
        final(states[n]).deleted() == calls.take(n + 1).map_values(|c: CowCall| file_replaced(c)).flatten(),
        final(states[n]).rewritten() == calls.take(n + 1).filter(|c: CowCall| c is Rewrite).len(),
        states[n].merge() == (MergeModel {
            source: source@,
            keys: schema_indices(key_columns@),
            non_keys: non_keys@,
            skip_unchanged,
        }),
        final(states[n]).merge() == states[n].merge(),
    decreases n,
{
    let f = |c: CowCall| files_written(c);
    let g = |c: CowCall| file_replaced(c);
    let h = |c: CowCall| c is Rewrite;
    let now = calls.take(n + 1);
    let before = calls.take(n);
    assert(now.drop_last() =~= before);
    assert(now.map_values(f) =~= before.map_values(f).push(f(calls[n])));
    assert(now.map_values(g) =~= before.map_values(g).push(g(calls[n])));
    before.map_values(f).lemma_flatten_push(f(calls[n]));
    before.map_values(g).lemma_flatten_push(g(calls[n]));
    assert(now.filter(h).len() == before.filter(h).len() + if h(calls[n]) {
        1nat
    } else {
        0nat
    }) by {
        reveal(Seq::filter);
        assert(now.last() == calls[n]);
    }
    if n > 0 {
        lemma_calls(source, key_columns, non_keys, skip_unchanged, start, states, calls, n - 1);
        assert(*states[n] == *final(states[n - 1]));
    } else {
        assert(before.map_values(f) =~= Seq::empty());
        assert(before.map_values(g) =~= Seq::empty());
        reveal(Seq::filter);
        assert(before.filter(h).len() == 0);
        assert(start.added() =~= Seq::empty());
        assert(start.deleted() =~= Seq::empty());
    }
    assert(states[n].added() == before.map_values(f).flatten());
    assert(states[n].deleted() == before.map_values(g).flatten());
    assert(states[n].rewritten() == before.filter(h).len());
    match calls[n] {
        CowCall::Process(batches, outcome) => {
            assert(call_ensures(CowExecutor::process_file, (states[n], batches), outcome));
            assert(g(calls[n]) =~= Seq::empty());
        },
        CowCall::Rewrite(written, original) => {
            assert(call_ensures(CowExecutor::record_rewrite, (states[n], written, original), ()));
            match original {
                Some(file) => {
                    assert(final(states[n]).deleted() =~= states[n].deleted() + seq![file]);
                },
                None => {},
            }
        },
        CowCall::Insert(written) => {
            assert(call_ensures(CowExecutor::record_inserts, (states[n], written), ()));
        },
    }
    assert(final(states[n]).added() =~= states[n].added() + f(calls[n]));
    assert(final(states[n]).deleted() =~= states[n].deleted() + g(calls[n]));
}

/// An executor is made of every source. Whatever calls were made of it, a file whose batches can all
/// be matched is processed, one with a batch whose key columns have other types than the source's is
/// refused, and a failure is reported as one of an Arrow call.
pub proof fn files_that_can_be_matched_are_processed(
    source: &Batch,
    key_columns: &[KeyColumn],
    non_keys: &[usize],
    skip_unchanged: bool,
    made: Result<CowExecutor>,
    start: CowExecutor,
    states: Seq<&mut CowExecutor>,
    calls: Seq<CowCall>,
    n: int,
    batches: &[Batch],
    outcome: Result<Option<Vec<Batch>>>,
    keys: Seq<usize>,
)
    requires
        call_ensures(CowExecutor::new, (source, key_columns, non_keys, skip_unchanged), made),
        made is Ok ==> made->Ok_0 == start,
        calls.len() == states.len(),
        states.len() > 0 ==> *states[0] == start,
        forall|i: int| 0 < i < states.len() ==> *(#[trigger] states[i]) == *final(states[i - 1]),
        forall|i: int|
            0 <= i < states.len() ==> match calls[i] {
                CowCall::Process(batches, outcome) => call_ensures(
                    CowExecutor::process_file,
                    (#[trigger] states[i], batches),
                    outcome,
                ),
                CowCall::Rewrite(written, original) => call_ensures(
                    CowExecutor::record_rewrite,
                    (states[i], written, original),
                    (),
                ),
                CowCall::Insert(written) => call_ensures(
                    CowExecutor::record_inserts,
                    (states[i], written),
                    (),
                ),
            },
        0 <= n < states.len(),
        calls[n] == CowCall::Process(batches, outcome),
        keys == key_columns@.map_values(|k: KeyColumn| k.schema_index),
    ensures
        made is Ok,
        (forall|b: int|
            0 <= b < batches@.len() ==> can_be_matched(source@, (#[trigger] batches@[b])@, keys, non_keys@))
            ==> outcome is Ok,
        (exists|b: int| 0 <= b < batches@.len() && !same_key_types(source@, (#[trigger] batches@[b])@, keys))
            ==> outcome is Err,
        outcome matches Err(e) ==> is_match_failure(e.spec_kind(), e.spec_message()),
{
    let m = MergeModel {
        source: source@,
        keys: schema_indices(key_columns@),
        non_keys: non_keys@,
        skip_unchanged,
    };
    let file = models(batches@);
    assert(keys =~= m.keys);
    lemma_calls(source, key_columns, non_keys, skip_unchanged, start, states, calls, n);
    assert(call_ensures(CowExecutor::process_file, (states[n], batches), outcome));
    lemma_file_failure(m, file);
    assert forall|b: int| 0 <= b < file.len() implies #[trigger] file[b] == batches@[b]@ by {}
    if forall|b: int|
        0 <= b < batches@.len() ==> can_be_matched(source@, (#[trigger] batches@[b])@, keys, non_keys@) {
        assert forall|b: int| 0 <= b < file.len() implies can_be_matched(
            m.source,
            #[trigger] file[b],
            m.keys,
            m.non_keys,
        ) by {
            assert(can_be_matched(source@, batches@[b]@, keys, non_keys@));
        }
        assert forall|b: int| 0 <= b < batches@.len() implies m.surely_matches((#[trigger] batches@[b])@) by {
            assert(m.surely_matches(file[b]));
        }
    }
    if exists|b: int| 0 <= b < batches@.len() && !same_key_types(source@, (#[trigger] batches@[b])@, keys) {
        let b = choose|b: int| 0 <= b < batches@.len() && !same_key_types(source@, (#[trigger] batches@[b])@, keys);
        assert(!same_key_types(m.source, file[b], m.keys));
    }
    if outcome is Err {
        let e = outcome->Err_0;
        let prefix = m.file_failure(file)->0;
        let detail = choose|detail: Seq<char>| e.spec_message() == #[trigger] (prefix + detail);
        assert(e.spec_message() == prefix + detail);
        let first = "RowConverter convert error: "@ + detail;
        assert({
            ||| e.spec_message() == first
            ||| e.spec_message() == "Arrow take error: "@ + detail
            ||| e.spec_message() == "Column neq comparison error: "@ + detail
        });
    }
}

/// Whatever calls are made of an executor and in whatever order, the files to add are all files that
/// were handed to it as written, for rewritten files and for inserted rows, in the order of the
/// calls, and the files to delete are all those handed to it as replaced. They are counted as they
/// are listed, and each rewrite counts as an affected file.
pub proof fn all_noted_files_are_handed_over(
    source: &Batch,
    key_columns: &[KeyColumn],
    non_keys: &[usize],
    skip_unchanged: bool,
    start: CowExecutor,
    states: Seq<&mut CowExecutor>,
    calls: Seq<CowCall>,
    last: CowExecutor,
    delta: UpsertFileDelta,
)
    requires
        call_ensures(CowExecutor::new, (source, key_columns, non_keys, skip_unchanged), Ok(start)),
        calls.len() == states.len(),
        states.len() > 0 ==> *states[0] == start,
        forall|i: int| 0 < i < states.len() ==> *(#[trigger] states[i]) == *final(states[i - 1]),
        forall|i: int|
            0 <= i < states.len() ==> match calls[i] {
                CowCall::Process(batches, outcome) => call_ensures(
                    CowExecutor::process_file,
                    (#[trigger] states[i], batches),
                    outcome,
                ),
                CowCall::Rewrite(written, original) => call_ensures(
                    CowExecutor::record_rewrite,
                    (states[i], written, original),
                    (),
                ),
                CowCall::Insert(written) => call_ensures(
                    CowExecutor::record_inserts,
                    (states[i], written),
                    (),
                ),
            },
        last == if states.len() == 0 {
            start
        } else {
            *final(states[states.len() - 1])
        },
        call_ensures(CowExecutor::finish, (last,), delta),
    ensures
        delta.added_data_files@ == calls.map_values(|c: CowCall| files_written(c)).flatten(),
        delta.deleted_data_files@ == calls.map_values(|c: CowCall| file_replaced(c)).flatten(),
        delta.stats.files_added == delta.added_data_files@.len(),
        delta.stats.files_removed == delta.deleted_data_files@.len(),
        delta.stats.files_affected == calls.filter(|c: CowCall| c is Rewrite).len(),
{
    let n = states.len() - 1;
    if n >= 0 {
        lemma_calls(source, key_columns, non_keys, skip_unchanged, start, states, calls, n);
        assert(calls.take(n + 1) =~= calls);
    } else {
        reveal(Seq::filter);
        assert(calls.map_values(|c: CowCall| files_written(c)) =~= Seq::empty());
        assert(calls.map_values(|c: CowCall| file_replaced(c)) =~= Seq::empty());
        assert(delta.added_data_files@ =~= Seq::empty());
        assert(delta.deleted_data_files@ =~= Seq::empty());
    }
}

/// The rows to insert are handed out without fail.
pub proof fn inserts_are_handed_out(executor: &CowExecutor, inserted: Result<Option<Batch>>)
    requires
        call_ensures(CowExecutor::insert_batch, (executor,), inserted),
    ensures
        inserted is Ok,
{
}

/// The run that calls of an executor make.
spec fn run_of(
    held: Seq<Seq<BatchModel>>,
    states: Seq<CowExecutor>,
    written: Seq<Vec<DataFile>>,
    originals: Seq<Option<DataFile>>,
    inserts: Vec<DataFile>,
    last: CowExecutor,
    delta: UpsertFileDelta,
) -> CowRun {
    CowRun {
        steps: Seq::new(
            held.len(),
            |i: int| CowStep { batches: held[i], original: originals[i], written: written[i]@ },
        ),
        states,
        inserts: inserts@,
        last,
        delta,
    }
}

proof fn lemma_run(
    source: &Batch,
    key_columns: &[KeyColumn],
    non_keys: &[usize],
    skip_unchanged: bool,
    files: Seq<&[Batch]>,
    held: Seq<Seq<BatchModel>>,
    states: Seq<CowExecutor>,
    reads: Seq<&mut CowExecutor>,
    contents: Seq<Option<Vec<Batch>>>,
    notes: Seq<&mut CowExecutor>,
    written: Seq<Vec<DataFile>>,
    originals: Seq<Option<DataFile>>,
    inserted: Option<Batch>,
    inserting: &mut CowExecutor,
    inserts: Vec<DataFile>,
    last: CowExecutor,
    delta: UpsertFileDelta,
)
    requires
        held.len() == files.len(),
        reads.len() == files.len(),
        contents.len() == files.len(),
        notes.len() == files.len(),
        written.len() == files.len(),
        originals.len() == files.len(),
        states.len() == files.len() + 1,
        forall|i: int|
            0 <= i < files.len() ==> #[trigger] held[i] == files[i]@.map_values(|b: Batch| b@),
        call_ensures(CowExecutor::new, (source, key_columns, non_keys, skip_unchanged), Ok(states[0])),
        forall|i: int|
            0 <= i < files.len() ==> *(#[trigger] reads[i]) == states[i] && call_ensures(
                CowExecutor::process_file,
                (reads[i], files[i]),
                Ok(contents[i]),
            ),
        forall|i: int|
            0 <= i < files.len() && contents[i] is Some ==> *(#[trigger] notes[i]) == *final(reads[i])
                && call_ensures(CowExecutor::record_rewrite, (notes[i], written[i], originals[i]), ()),
        forall|i: int|
            0 <= i < files.len() && (#[trigger] contents[i]) is Some ==> states[i + 1] == *final(notes[i]),
        forall|i: int|
            0 <= i < files.len() && (#[trigger] contents[i]) is None ==> states[i + 1] == *final(reads[i]),
        call_ensures(CowExecutor::insert_batch, (&states[files.len() as int],), Ok(inserted)),
        inserted is Some ==> *old(inserting) == states[files.len() as int] && call_ensures(
            CowExecutor::record_inserts,
            (inserting, inserts),
            (),
        ),
        last == if inserted is Some {
            *final(inserting)
        } else {
            states[files.len() as int]
        },
        call_ensures(CowExecutor::finish, (last,), delta),
    ensures
        run_of(held, states, written, originals, inserts, last, delta).is_run(
            (MergeModel {
                source: source@,
                keys: schema_indices(key_columns@),
                non_keys: non_keys@,
                skip_unchanged,
            }),
        ),
        run_of(held, states, written, originals, inserts, last, delta).files() == held,
        forall|i: int|
            0 <= i < files.len() ==> (#[trigger] contents[i] is Some <==> (MergeModel {
                source: source@,
                keys: schema_indices(key_columns@),
                non_keys: non_keys@,
                skip_unchanged,
            }).updates_in(held[i]) > 0),
        forall|i: int|
            0 <= i < files.len() ==> (#[trigger] contents[i] matches Some(c) ==> models(c@) == (MergeModel {
                source: source@,
                keys: schema_indices(key_columns@),
                non_keys: non_keys@,
                skip_unchanged,
            }).merged_file(held[i])),
{
    let m = MergeModel {
        source: source@,
        keys: schema_indices(key_columns@),
        non_keys: non_keys@,
        skip_unchanged,
    };
    let run = run_of(held, states, written, originals, inserts, last, delta);
    assert(run.files() =~= held);
    lemma_merge_kept(
        source,
        key_columns,
        non_keys,
        skip_unchanged,
        files,
        held,
        states,
        reads,
        contents,
        notes,
        written,
        originals,
        inserted,
        inserting,
        inserts,
        last,
        delta,
        files.len() as int,
    );
    assert forall|i: int| 0 <= i < run.steps.len() implies takes_file(
        #[trigger] run.states[i],
        run.states[i + 1],
        run.steps[i],
    ) && (contents[i] is Some <==> m.updates_in(held[i]) > 0) && (contents[i] matches Some(c) ==> models(c@)
        == m.merged_file(held[i])) by {
        lemma_merge_kept(
        source,
            key_columns,
            non_keys,
            skip_unchanged,
            files,
            held,
            states,
            reads,
            contents,
            notes,
            written,
            originals,
            inserted,
            inserting,
            inserts,
            last,
            delta,
            i,
        );
        assert(*reads[i] == states[i]);
        assert(call_ensures(CowExecutor::process_file, (reads[i], files[i]), Ok(contents[i])));
        assert(held[i] =~= models(files[i]@));
        if contents[i] is Some {
            assert(*notes[i] == *final(reads[i]));
            assert(call_ensures(CowExecutor::record_rewrite, (notes[i], written[i], originals[i]), ()));
            let between = *final(reads[i]);
            assert(states[i].after_file(between, held[i]));
            assert(between.after_rewrite(states[i + 1], written[i]@, originals[i]));
        } else {
            assert(states[i + 1] == *final(reads[i]));
            assert(states[i].after_file(states[i + 1], held[i]));
        }
    }
    assert forall|i: int| 0 <= i < files.len() implies (#[trigger] contents[i] is Some <==> m.updates_in(held[i])
        > 0) && (contents[i] matches Some(c) ==> models(c@) == m.merged_file(held[i])) by {
        assert(takes_file(run.states[i], run.states[i + 1], run.steps[i]));
    }
}

/// The merge stays the same over the calls.
proof fn lemma_merge_kept(
    source: &Batch,
    key_columns: &[KeyColumn],
    non_keys: &[usize],
    skip_unchanged: bool,
    files: Seq<&[Batch]>,
    held: Seq<Seq<BatchModel>>,
    states: Seq<CowExecutor>,
    reads: Seq<&mut CowExecutor>,
    contents: Seq<Option<Vec<Batch>>>,
    notes: Seq<&mut CowExecutor>,
    written: Seq<Vec<DataFile>>,
    originals: Seq<Option<DataFile>>,
    inserted: Option<Batch>,
    inserting: &mut CowExecutor,
    inserts: Vec<DataFile>,
    last: CowExecutor,
    delta: UpsertFileDelta,
    n: int,
)
    requires
        held.len() == files.len(),
        reads.len() == files.len(),
        contents.len() == files.len(),
        notes.len() == files.len(),
        written.len() == files.len(),
        originals.len() == files.len(),
        states.len() == files.len() + 1,
        forall|i: int|
            0 <= i < files.len() ==> #[trigger] held[i] == files[i]@.map_values(|b: Batch| b@),
        call_ensures(CowExecutor::new, (source, key_columns, non_keys, skip_unchanged), Ok(states[0])),
        forall|i: int|
            0 <= i < files.len() ==> *(#[trigger] reads[i]) == states[i] && call_ensures(
                CowExecutor::process_file,
                (reads[i], files[i]),
                Ok(contents[i]),
            ),
        forall|i: int|
            0 <= i < files.len() && contents[i] is Some ==> *(#[trigger] notes[i]) == *final(reads[i])
                && call_ensures(CowExecutor::record_rewrite, (notes[i], written[i], originals[i]), ()),
        forall|i: int|
            0 <= i < files.len() && (#[trigger] contents[i]) is Some ==> states[i + 1] == *final(notes[i]),
        forall|i: int|
            0 <= i < files.len() && (#[trigger] contents[i]) is None ==> states[i + 1] == *final(reads[i]),
        call_ensures(CowExecutor::insert_batch, (&states[files.len() as int],), Ok(inserted)),
        inserted is Some ==> *old(inserting) == states[files.len() as int] && call_ensures(
            CowExecutor::record_inserts,
            (inserting, inserts),
            (),
        ),
        last == if inserted is Some {
            *final(inserting)
        } else {
            states[files.len() as int]
        },
        call_ensures(CowExecutor::finish, (last,), delta),
        0 <= n <= files.len(),
    ensures
        states[n].merge() == (MergeModel {
            source: source@,
            keys: schema_indices(key_columns@),
            non_keys: non_keys@,
            skip_unchanged,
        }),
    decreases n,
{
    if n > 0 {
        let i = n - 1;
        lemma_merge_kept(
        source,
            key_columns,
            non_keys,
            skip_unchanged,
            files,
            held,
            states,
            reads,
            contents,
            notes,
            written,
            originals,
            inserted,
            inserting,
            inserts,
            last,
            delta,
            i,
        );
        assert(*reads[i] == states[i]);
        assert(call_ensures(CowExecutor::process_file, (reads[i], files[i]), Ok(contents[i])));
        assert(states[i + 1] == if contents[i] is Some {
            *final(notes[i])
        } else {
            *final(reads[i])
        });
    }
}

/// A copy-on-write upsert rewrites exactly the files in which a source row takes the place of a row:
/// a row is replaced by the last source row that agrees with it in all key columns, where the two
/// differ in a compared column, or in any case where unchanged rows are not skipped. A rewritten file
/// holds, batch for batch, the matched rows that stay, the source rows that take the place of the
/// others, and the rows that match nothing. The source rows that no row of any file matches are
/// inserted, in their order. The rows are counted as this says.
#[verifier::rlimit(30)]
pub proof fn copy_on_write_replaces_and_inserts(
    source: &Batch,
    key_columns: &[KeyColumn],
    non_keys: &[usize],
    skip_unchanged: bool,
    files: Seq<&[Batch]>,
    held: Seq<Seq<BatchModel>>,
    states: Seq<CowExecutor>,
    reads: Seq<&mut CowExecutor>,
    contents: Seq<Option<Vec<Batch>>>,
    notes: Seq<&mut CowExecutor>,
    written: Seq<Vec<DataFile>>,
    originals: Seq<Option<DataFile>>,
    inserted: Option<Batch>,
    inserting: &mut CowExecutor,
    inserts: Vec<DataFile>,
    last: CowExecutor,
    delta: UpsertFileDelta,
    keys: Seq<usize>,
)
    requires
        held.len() == files.len(),
        reads.len() == files.len(),
        contents.len() == files.len(),
        notes.len() == files.len(),
        written.len() == files.len(),
        originals.len() == files.len(),
        states.len() == files.len() + 1,
        forall|i: int|
            0 <= i < files.len() ==> #[trigger] held[i] == files[i]@.map_values(|b: Batch| b@),
        call_ensures(CowExecutor::new, (source, key_columns, non_keys, skip_unchanged), Ok(states[0])),
        forall|i: int|
            0 <= i < files.len() ==> *(#[trigger] reads[i]) == states[i] && call_ensures(
                CowExecutor::process_file,
                (reads[i], files[i]),
                Ok(contents[i]),
            ),
        forall|i: int|
            0 <= i < files.len() && contents[i] is Some ==> *(#[trigger] notes[i]) == *final(reads[i])
                && call_ensures(CowExecutor::record_rewrite, (notes[i], written[i], originals[i]), ()),
        forall|i: int|
            0 <= i < files.len() && (#[trigger] contents[i]) is Some ==> states[i + 1] == *final(notes[i]),
        forall|i: int|
            0 <= i < files.len() && (#[trigger] contents[i]) is None ==> states[i + 1] == *final(reads[i]),
        call_ensures(CowExecutor::insert_batch, (&states[files.len() as int],), Ok(inserted)),
        inserted is Some ==> *old(inserting) == states[files.len() as int] && call_ensures(
            CowExecutor::record_inserts,
            (inserting, inserts),
            (),
        ),
        last == if inserted is Some {
            *final(inserting)
        } else {
            states[files.len() as int]
        },
        call_ensures(CowExecutor::finish, (last,), delta),
        keys == key_columns@.map_values(|k: KeyColumn| k.schema_index),
    ensures
        forall|i: int|
            0 <= i < files.len() ==> (#[trigger] contents[i] is Some <==> exists|b: int, t: int|
                0 <= b < held[i].len() && 0 <= t < held[i][b].rows && #[trigger] is_replaced(
                    source@,
                    held[i][b],
                    t,
                    keys,
                    non_keys@,
                    skip_unchanged,
                )),
        forall|i: int|
            0 <= i < files.len() ==> (#[trigger] contents[i] matches Some(c) ==> c@.map_values(
                |b: Batch| b@.all_rows(),
            ).flatten() == held[i].map_values(
                |b: BatchModel| rewritten_rows_of(source@, b, keys, non_keys@, skip_unchanged),
            ).flatten()),
        delta.stats.rows_updated == held.flatten().map_values(
            |b: BatchModel|
                numbers_of(b.rows, |t: int| is_replaced(source@, b, t, keys, non_keys@, skip_unchanged)),
        ).flatten().len(),
        delta.stats.rows_inserted == numbers_of(
            source@.rows,
            |s: int| !is_matched_anywhere(source@, s, held, keys),
        ).len(),
        inserted is None <==> forall|s: int|
            0 <= s < source@.rows ==> #[trigger] is_matched_anywhere(source@, s, held, keys),
        inserted matches Some(b) ==> b@.all_rows() == rows_passing(
            source@,
            |s: int| !is_matched_anywhere(source@, s, held, keys),
        ),
{
    let m = MergeModel {
        source: source@,
        keys: schema_indices(key_columns@),
        non_keys: non_keys@,
        skip_unchanged,
    };
    let run = run_of(held, states, written, originals, inserts, last, delta);
    let n = files.len() as int;
    assert(keys =~= m.keys);
    lemma_run(
        source,
        key_columns,
        non_keys,
        skip_unchanged,
        files,
        held,
        states,
        reads,
        contents,
        notes,
        written,
        originals,
        inserted,
        inserting,
        inserts,
        last,
        delta,
    );
    copy_on_write_run(m, run);
    assert forall|i: int| 0 <= i < files.len() implies (#[trigger] contents[i] is Some <==> exists|b: int, t: int|
        0 <= b < held[i].len() && 0 <= t < held[i][b].rows && #[trigger] is_replaced(
            source@,
            held[i][b],
            t,
            keys,
            non_keys@,
            skip_unchanged,
        )) && (contents[i] matches Some(c) ==> c@.map_values(|b: Batch| b@.all_rows()).flatten()
        == held[i].map_values(
        |b: BatchModel| rewritten_rows_of(source@, b, keys, non_keys@, skip_unchanged),
    ).flatten()) by {
        lemma_merged_file(m, held[i]);
        if let Some(c) = contents[i] {
            assert(c@.map_values(|b: Batch| b@.all_rows()) =~= models(c@).map_values(
                |b: BatchModel| b.all_rows(),
            ));
        }
    }
    lemma_replaced_rows(m, held);
    lemma_matched_anywhere(m, held);
    lemma_flags(m, run);
    let unmatched = m.flags_of(held).map_values(|b: bool| !b);
    let test = |s: int| !is_matched_anywhere(source@, s, held, keys);
    assert forall|s: int| 0 <= s < unmatched.len() implies #[trigger] unmatched[s] == test(s) by {
        assert(m.flags_of(held)[s] == is_matched_anywhere(m.source, s, held, m.keys));
    }
    lemma_numbers(unmatched, test);
    lemma_part_passing(source@, unmatched, test);
    lemma_count_true(unmatched);
    assert(inserted is None <==> count_true(unmatched) == 0);
    if inserted is None {
        assert forall|s: int| 0 <= s < source@.rows implies #[trigger] is_matched_anywhere(source@, s, held, keys) by {
            assert(!unmatched[s]);
        }
    }
    if forall|s: int| 0 <= s < source@.rows ==> #[trigger] is_matched_anywhere(source@, s, held, keys) {
        if count_true(unmatched) > 0 {
            let s = choose|s: int| 0 <= s < unmatched.len() && #[trigger] unmatched[s];
            assert(is_matched_anywhere(source@, s, held, keys));
        }
    }
}

proof fn lemma_flags(m: MergeModel, run: CowRun)
    requires
        run.is_run(m),
    ensures
        run.states[run.steps.len() as int].matched() == m.flags_of(run.files()),
        run.states[run.steps.len() as int].merge() == m,
{
    let n = run.steps.len() as int;
    lemma_cow_states(m, run, n);
    assert(run.files().take(n) =~= run.files());
}

/// What is left of the first files of a run, and what stands for the others.
proof fn lemma_store(
    m: MergeModel,
    run: CowRun,
    old_files: Seq<DataFile>,
    store: Store,
    i: int,
) -> (staying: Seq<DataFile>)
    requires
        run.is_run(m),
        old_files.len() == run.steps.len(),
        0 <= i <= run.steps.len(),
        forall|j: int|
            0 <= j < run.steps.len() ==> {
                &&& (#[trigger] run.steps[j]).original == Some(old_files[j])
                &&& store(old_files[j]) == rows_of(run.steps[j].batches)
                &&& m.updates_in(run.steps[j].batches) > 0 ==> held_by(store, run.steps[j].written) == rows_of(
                    m.merged_file(run.steps[j].batches),
                )
            },
    ensures
        old_files.take(i).to_multiset() == staying.to_multiset().add(run.states[i].deleted().to_multiset()),
        held_by(store, staying).add(held_by(store, run.states[i].added())) == m.rewritten_rows(
            run.files().take(i),
        ),
    decreases i,
{
    if i == 0 {
        let none = Seq::<DataFile>::empty();
        none.to_multiset_ensures();
        assert(old_files.take(0) =~= none);
        assert(run.states[0].deleted() =~= none);
        assert(run.states[0].added() =~= none);
        assert(none.to_multiset().add(none.to_multiset()) =~= none.to_multiset());
        assert(held_by(store, none).add(held_by(store, none)) =~= m.rewritten_rows(run.files().take(0)));
        none
    } else {
        let p = i - 1;
        let before = lemma_store(m, run, old_files, store, p);
        lemma_cow_states(m, run, p);
        assert(takes_file(run.states[p], run.states[p + 1], run.steps[p]));
        let file = old_files[p];
        let x = run.states[p];
        let y = run.states[i];
        assert(old_files.take(i) =~= old_files.take(p).push(file));
        to_multiset_build(old_files.take(p), file);
        assert(run.files().take(i).drop_last() =~= run.files().take(p));
        assert(run.files().take(i).last() == run.steps[p].batches);
        assert(run.steps[p].original == Some(old_files[p]));
        if m.updates_in(run.steps[p].batches) > 0 {
            assert(y.deleted() == x.deleted().push(file));
            to_multiset_build(x.deleted(), file);
            lemma_held_concat(store, x.added(), run.steps[p].written);
            assert(y.added() == x.added() + run.steps[p].written);
            assert(old_files.take(i).to_multiset() =~= before.to_multiset().add(y.deleted().to_multiset()));
            assert(held_by(store, before).add(held_by(store, y.added())) =~= m.rewritten_rows(
                run.files().take(i),
            ));
            before
        } else {
            let staying = before.push(file);
            to_multiset_build(before, file);
            assert(staying.drop_last() =~= before);
            assert(old_files.take(i).to_multiset() =~= staying.to_multiset().add(y.deleted().to_multiset()));
            assert(held_by(store, staying).add(held_by(store, y.added())) =~= m.rewritten_rows(
                run.files().take(i),
            ));
            staying
        }
    }
}

/// The files that a copy-on-write upsert commits make the table that an upsert is to make. What a
/// file holds is given by `store`: the files of the table that are read hold what is processed, the
/// files noted for a rewritten one hold its new content, and those noted for the inserted rows hold
/// these; the files that are not read hold no row with a key of the source.
///
/// The table is then made of the files of before, without the deleted ones and with the added ones.
/// It holds a row exactly where the source has it, or where it held it before under a key that is not
/// among those of the source. And where no source row is matched twice, it holds each row of the
/// source as often as the source does, and each other row that has no key of the source as often as
/// before.
#[verifier::rlimit(30)]
pub proof fn copy_on_write_commits_the_upserted_table(
    source: &Batch,
    key_columns: &[KeyColumn],
    non_keys: &[usize],
    skip_unchanged: bool,
    files: Seq<&[Batch]>,
    held: Seq<Seq<BatchModel>>,
    states: Seq<CowExecutor>,
    reads: Seq<&mut CowExecutor>,
    contents: Seq<Option<Vec<Batch>>>,
    notes: Seq<&mut CowExecutor>,
    written: Seq<Vec<DataFile>>,
    originals: Seq<Option<DataFile>>,
    inserted: Option<Batch>,
    inserting: &mut CowExecutor,
    inserts: Vec<DataFile>,
    last: CowExecutor,
    delta: UpsertFileDelta,
    keys: Seq<usize>,
    store: Store,
    old_files: Seq<DataFile>,
    unread: Seq<DataFile>,
    last_sequence_number: i64,
    commit: (Overwrite, UpsertResult),
    after: Seq<DataFile>,
)
    requires
        held.len() == files.len(),
        reads.len() == files.len(),
        contents.len() == files.len(),
        notes.len() == files.len(),
        written.len() == files.len(),
        originals.len() == files.len(),
        states.len() == files.len() + 1,
        forall|i: int|
            0 <= i < files.len() ==> #[trigger] held[i] == files[i]@.map_values(|b: Batch| b@),
        call_ensures(CowExecutor::new, (source, key_columns, non_keys, skip_unchanged), Ok(states[0])),
        forall|i: int|
            0 <= i < files.len() ==> *(#[trigger] reads[i]) == states[i] && call_ensures(
                CowExecutor::process_file,
                (reads[i], files[i]),
                Ok(contents[i]),
            ),
        forall|i: int|
            0 <= i < files.len() && contents[i] is Some ==> *(#[trigger] notes[i]) == *final(reads[i])
                && call_ensures(CowExecutor::record_rewrite, (notes[i], written[i], originals[i]), ()),
        forall|i: int|
            0 <= i < files.len() && (#[trigger] contents[i]) is Some ==> states[i + 1] == *final(notes[i]),
        forall|i: int|
            0 <= i < files.len() && (#[trigger] contents[i]) is None ==> states[i + 1] == *final(reads[i]),
        call_ensures(CowExecutor::insert_batch, (&states[files.len() as int],), Ok(inserted)),
        inserted is Some ==> *old(inserting) == states[files.len() as int] && call_ensures(
            CowExecutor::record_inserts,
            (inserting, inserts),
            (),
        ),
        last == if inserted is Some {
            *final(inserting)
        } else {
            states[files.len() as int]
        },
        call_ensures(CowExecutor::finish, (last,), delta),
        keys == key_columns@.map_values(|k: KeyColumn| k.schema_index),
        keys.len() > 0,
        in_columns(keys, source@),
        source@.wf(),
        all_columns_are_read(source@, keys, non_keys@),
        forall|f: int, b: int|
            0 <= f < held.len() && 0 <= b < held[f].len() ==> (#[trigger] held[f][b]).wf()
                && held[f][b].columns.len() == source@.columns.len(),
        old_files.len() == files.len(),
        forall|i: int|
            0 <= i < files.len() ==> #[trigger] originals[i] == Some(old_files[i]) && store(old_files[i])
                == held[i].map_values(|b: BatchModel| b.all_rows()).flatten().to_multiset(),
        forall|i: int|
            0 <= i < files.len() ==> (#[trigger] contents[i] matches Some(c) ==> held_by(store, written[i]@)
                == c@.map_values(|b: Batch| b@.all_rows()).flatten().to_multiset()),
        inserted matches Some(b) ==> held_by(store, inserts@) == b@.all_rows().to_multiset(),
        forall|row: Row| #[trigger]
            held_by(store, unread).count(row) > 0 ==> !has_key_of_source(source@, row, keys),
        call_ensures(commit_of, (delta, UpsertWriteMode::CopyOnWrite, last_sequence_number), commit),
        are_files_after(after, old_files + unread, commit.0.deleted@, commit.0.added@),
    ensures
        forall|row: Row|
            held_by(store, after).count(row) > 0 <==> source@.all_rows().contains(row) || (held_by(
                store,
                old_files + unread,
            ).count(row) > 0 && !has_key_of_source(source@, row, keys)),
        matched_at_most_once(source@, held, keys) ==> forall|row: Row|
            held_by(store, after).count(row) == source@.all_rows().to_multiset().count(row)
                + if has_key_of_source(source@, row, keys) {
                0
            } else {
                held_by(store, old_files + unread).count(row)
            },
        commit.1 == delta.stats,
        commit.0.sequence_number is None,
{
    let m = MergeModel {
        source: source@,
        keys: schema_indices(key_columns@),
        non_keys: non_keys@,
        skip_unchanged,
    };
    let run = run_of(held, states, written, originals, inserts, last, delta);
    let n = files.len() as int;
    assert(keys =~= m.keys);
    lemma_run(
        source,
        key_columns,
        non_keys,
        skip_unchanged,
        files,
        held,
        states,
        reads,
        contents,
        notes,
        written,
        originals,
        inserted,
        inserting,
        inserts,
        last,
        delta,
    );
    assert forall|j: int| 0 <= j < run.steps.len() implies {
        &&& (#[trigger] run.steps[j]).original == Some(old_files[j])
        &&& store(old_files[j]) == rows_of(run.steps[j].batches)
        &&& m.updates_in(run.steps[j].batches) > 0 ==> held_by(store, run.steps[j].written) == rows_of(
            m.merged_file(run.steps[j].batches),
        )
    } by {
        assert(originals[j] == Some(old_files[j]));
        lemma_rows_of_in_order(held[j]);
        if m.updates_in(held[j]) > 0 {
            assert(contents[j] is Some);
            let c = contents[j]->0;
            lemma_rows_of_in_order(models(c@));
            assert(c@.map_values(|b: Batch| b@.all_rows()) =~= models(c@).map_values(
                |b: BatchModel| b.all_rows(),
            ));
        }
    }
    lemma_flags(m, run);
    lemma_committed(m, run, store, old_files, unread, inserted, after);
    assert forall|i: int| 0 <= i < held.len() implies store(#[trigger] old_files[i]) == held[i].map_values(
        |b: BatchModel| b.all_rows(),
    ).flatten().to_multiset() by {
        assert(originals[i] == Some(old_files[i]));
    }
    lemma_old_table(held, old_files, store, n);
    assert(old_files.take(n) =~= old_files);
    assert(held.take(n) =~= held);
    lemma_reads_all(m, held);
    lemma_held_concat(store, old_files, unread);
    lemma_left_counts(m, held, held_by(store, unread));
}

/// The rows of the table that a run commits.
proof fn lemma_committed(
    m: MergeModel,
    run: CowRun,
    store: Store,
    old_files: Seq<DataFile>,
    unread: Seq<DataFile>,
    inserted: Option<Batch>,
    after: Seq<DataFile>,
)
    requires
        run.is_run(m),
        old_files.len() == run.steps.len(),
        forall|j: int|
            0 <= j < run.steps.len() ==> {
                &&& (#[trigger] run.steps[j]).original == Some(old_files[j])
                &&& store(old_files[j]) == rows_of(run.steps[j].batches)
                &&& m.updates_in(run.steps[j].batches) > 0 ==> held_by(store, run.steps[j].written) == rows_of(
                    m.merged_file(run.steps[j].batches),
                )
            },
        inserted is Some <==> count_true(m.flags_of(run.files()).map_values(|b: bool| !b)) > 0,
        inserted matches Some(b) ==> b@ == m.source.select(
            selected(m.flags_of(run.files()).map_values(|b: bool| !b)),
        ),
        inserted matches Some(b) ==> held_by(store, run.inserts) == b@.all_rows().to_multiset(),
        are_files_after(
            after,
            old_files + unread,
            run.delta.deleted_data_files@,
            run.delta.added_data_files@,
        ),
    ensures
        held_by(store, after) == m.rewritten_rows(run.files()).add(m.inserted_rows(run.files())).add(
            held_by(store, unread),
        ),
{
    let n = run.steps.len() as int;
    let staying = lemma_store(m, run, old_files, store, n);
    assert(old_files.take(n) =~= old_files);
    assert(run.files().take(n) =~= run.files());
    lemma_inserted_store(m, run, store, inserted);
    lemma_multiset_commutative(old_files, unread);
    lemma_multiset_commutative(staying, unread);
    assert((old_files + unread).to_multiset() =~= (staying + unread).to_multiset().add(
        run.last.deleted().to_multiset(),
    ));
    lemma_files_after(
        store,
        after,
        old_files + unread,
        staying + unread,
        run.delta.deleted_data_files@,
        run.delta.added_data_files@,
    );
    lemma_held_concat(store, staying, unread);
    assert(held_by(store, after) =~= m.rewritten_rows(run.files()).add(m.inserted_rows(run.files())).add(
        held_by(store, unread),
    ));
}

/// The rows that a merge leaves, counted.
proof fn lemma_left_counts(m: MergeModel, files: Seq<Seq<BatchModel>>, unread: Multiset<Row>)
    requires
        m.keys.len() > 0,
        has_keys_of(m, files),
        forall|row: Row| #[trigger]
            unread.count(row) > 0 ==> !has_key_of_source(m.source, row, m.keys),
    ensures
        forall|row: Row|
            m.rewritten_rows(files).add(m.inserted_rows(files)).add(unread).count(row) > 0
                <==> m.source.all_rows().contains(row) || (table_rows(files).add(unread).count(row) > 0
                && !has_key_of_source(m.source, row, m.keys)),
        matched_at_most_once(m.source, files, m.keys) ==> forall|row: Row|
            m.rewritten_rows(files).add(m.inserted_rows(files)).add(unread).count(row)
                == m.source.all_rows().to_multiset().count(row) + if has_key_of_source(
                m.source,
                row,
                m.keys,
            ) {
                0
            } else {
                table_rows(files).add(unread).count(row)
            },
{
    let left = m.rewritten_rows(files).add(m.inserted_rows(files));
    assert forall|row: Row| left.add(unread).count(row) > 0 <==> m.source.all_rows().contains(row) || (table_rows(
        files,
    ).add(unread).count(row) > 0 && !has_key_of_source(m.source, row, m.keys)) by {
        upserted_table_holds(m, files, row);
        lemma_untouched_table(m, files, row);
        assert(unread.count(row) > 0 ==> !has_key_of_source(m.source, row, m.keys));
    }
    if matched_at_most_once(m.source, files, m.keys) {
        lemma_matches_once(m, files);
        copy_on_write_upserts(m, files);
        assert forall|row: Row| left.add(unread).count(row) == m.source.all_rows().to_multiset().count(row)
            + if has_key_of_source(m.source, row, m.keys) {
            0
        } else {
            table_rows(files).add(unread).count(row)
        } by {
            lemma_untouched_table(m, files, row);
            assert(unread.count(row) > 0 ==> !has_key_of_source(m.source, row, m.keys));
        }
    }
}

/// Batches with the columns of the source are read as a whole.
proof fn lemma_reads_all(m: MergeModel, files: Seq<Seq<BatchModel>>)
    requires
        in_columns(m.keys, m.source),
        m.source.wf(),
        all_columns_are_read(m.source, m.keys, m.non_keys),
        forall|f: int, b: int|
            0 <= f < files.len() && 0 <= b < files[f].len() ==> (#[trigger] files[f][b]).wf()
                && files[f][b].columns.len() == m.source.columns.len(),
    ensures
        has_keys_of(m, files),
{
    assert forall|f: int, b: int| 0 <= f < files.len() && 0 <= b < files[f].len() implies (
    #[trigger] files[f][b]).wf() && m.covers(files[f][b]) && in_columns(m.keys, files[f][b]) by {
        assert forall|c: int| 0 <= c < files[f][b].columns.len() implies #[trigger] m.reads(c) by {
            let _ = m.source.columns[c];
            assert(m.source.columns[c] == m.source.columns[c]);
        }
    }
}

/// Every batch has the columns that the merge reads.
spec fn has_keys_of(m: MergeModel, files: Seq<Seq<BatchModel>>) -> bool {
    &&& m.reads_all(files)
    &&& forall|f: int, b: int|
        0 <= f < files.len() && 0 <= b < files[f].len() ==> in_columns(m.keys, #[trigger] files[f][b])
}

/// The files of the table hold its rows.
proof fn lemma_old_table(held: Seq<Seq<BatchModel>>, old_files: Seq<DataFile>, store: Store, n: int)
    requires
        held.len() == old_files.len(),
        0 <= n <= held.len(),
        forall|i: int|
            0 <= i < held.len() ==> store(#[trigger] old_files[i]) == held[i].map_values(
                |b: BatchModel| b.all_rows(),
            ).flatten().to_multiset(),
    ensures
        held_by(store, old_files.take(n)) == table_rows(held.take(n)),
    decreases n,
{
    if n > 0 {
        lemma_old_table(held, old_files, store, n - 1);
        lemma_rows_of_in_order(held[n - 1]);
        assert(old_files.take(n).drop_last() =~= old_files.take(n - 1));
        assert(held.take(n).drop_last() =~= held.take(n - 1));
        assert(store(old_files[n - 1]) == rows_of(held[n - 1]));
    }
}

/// The files of the inserted rows come after those of the rewritten files, and hold the inserted
/// rows.
proof fn lemma_inserted_store(m: MergeModel, run: CowRun, store: Store, inserted: Option<Batch>)
    requires
        run.is_run(m),
        inserted is Some <==> count_true(m.flags_of(run.files()).map_values(|b: bool| !b)) > 0,
        inserted matches Some(b) ==> b@ == m.source.select(
            selected(m.flags_of(run.files()).map_values(|b: bool| !b)),
        ),
        inserted matches Some(b) ==> held_by(store, run.inserts) == b@.all_rows().to_multiset(),
    ensures
        held_by(store, run.last.added()) == held_by(store, run.states[run.steps.len() as int].added()).add(
            m.inserted_rows(run.files()),
        ),
        run.last.deleted() == run.states[run.steps.len() as int].deleted(),
{
    let n = run.steps.len() as int;
    let unmatched = m.flags_of(run.files()).map_values(|b: bool| !b);
    lemma_flags(m, run);
    assert(run.states.last() == run.states[n]);
    if count_true(unmatched) > 0 {
        lemma_held_concat(store, run.states[n].added(), run.inserts);
        lemma_rows_of_one(m.source.select(selected(unmatched)));
    } else {
        assert(m.inserted_rows(run.files()) =~= Multiset::empty());
        assert(held_by(store, run.last.added()) =~= held_by(store, run.states[n].added()).add(
            m.inserted_rows(run.files()),
        ));
    }
}

}
