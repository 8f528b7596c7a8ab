//! What matching finds, said over the values of the source and of the target batches.
use arrow_array::BooleanArray;
use vstd::prelude::*;

use crate::columnar::{is_mask, mask_cells, neq_supported, take_fits, Batch};
use crate::cow_executor::MergeModel;
use crate::error::{ErrorKind, Result};
use crate::key_laws::{agree_in, lemma_agree_in};
use crate::matcher::{
    as_indices, as_ints, changed_bits, column_failure, comparison_is_sure, detection_failure, hits,
    match_of, matched_bits, pair_sources, pair_targets, surely_comparable,
    unmatched_bits, MatchResult, UpsertMatcher,
};
use crate::model::{lemma_last_index_of, lemma_selected, BatchModel, ColumnModel, Row};

verus! {

/// Target row `t` matches source row `s`: the two agree in all key columns, of which there is one,
/// and no later source row agrees too.
pub open spec fn is_match(source: BatchModel, s: int, target: BatchModel, t: int, keys: Seq<usize>) -> bool {
    &&& keys.len() > 0
    &&& 0 <= s < source.rows
    &&& 0 <= t < target.rows
    &&& agree_in(source, s, target, t, keys)
    &&& forall|later: int|
        s < later < source.rows ==> !#[trigger] agree_in(source, later, target, t, keys)
}

/// Target row `t` agrees with some source row in all key columns.
pub open spec fn has_match(source: BatchModel, target: BatchModel, t: int, keys: Seq<usize>) -> bool {
    keys.len() > 0 && exists|s: int| 0 <= s < source.rows && #[trigger] agree_in(source, s, target, t, keys)
}

/// Some row of the target batch matches source row `s`.
pub open spec fn is_matched_by(source: BatchModel, s: int, target: BatchModel, keys: Seq<usize>) -> bool {
    exists|t: int| #[trigger] is_match(source, s, target, t, keys)
}

/// The key columns have the same types in both batches.
pub open spec fn same_key_types(source: BatchModel, target: BatchModel, keys: Seq<usize>) -> bool {
    forall|k: int|
        0 <= k < keys.len() ==> source.columns[#[trigger] keys[k] as int].data_type
            == target.columns[keys[k] as int].data_type
}

/// Columns of one type can always be compared where they hold integers, dates or dictionary-encoded
/// values; and where they hold any other values that are not nested, nor encoded by runs or by more
/// than one dictionary, if rows can be gathered from both.
pub open spec fn can_always_be_compared(a: ColumnModel, b: ColumnModel) -> bool {
    let kind = a.data_type.kind;
    &&& a.data_type == b.data_type
    &&& {
        ||| kind is Int8 || kind is Int16 || kind is Int32 || kind is Int64
        ||| kind is UInt8 || kind is UInt16 || kind is UInt32 || kind is UInt64
        ||| kind is Date32 || kind is Dictionary
        ||| {
            &&& kind is Utf8 || kind is LargeUtf8 || kind is Plain
            &&& forall|rows: Seq<u32>| #[trigger] take_fits(a.data_type, a.cells, rows)
            &&& forall|rows: Seq<u32>| #[trigger] take_fits(b.data_type, b.cells, rows)
        }
    }
}

/// What matching calls a match is one.
pub proof fn lemma_is_match(source: BatchModel, target: BatchModel, keys: Seq<usize>, t: int)
    requires
        0 <= t < target.rows,
    ensures
        match match_of(source.keys(keys), target.keys(keys), t) {
            Some(s) => is_match(source, s, target, t, keys) && has_match(source, target, t, keys),
            None => !has_match(source, target, t, keys),
        },
        forall|s: int|
            is_match(source, s, target, t, keys) <==> match_of(source.keys(keys), target.keys(keys), t)
                == Some(s),
{
    let sk = source.keys(keys);
    let tk = target.keys(keys);
    if keys.len() > 0 {
        assert(tk[t] == target.project(keys, t));
        assert forall|s: int| 0 <= s < source.rows implies (#[trigger] sk[s] == tk[t] <==> agree_in(
            source,
            s,
            target,
            t,
            keys,
        )) by {
            lemma_agree_in(source, s, target, t, keys);
        }
        lemma_last_index_of(sk, tk[t]);
        match match_of(sk, tk, t) {
            Some(s) => {
                assert(sk[s] == tk[t]);
                assert(agree_in(source, s, target, t, keys));
                assert forall|later: int| s < later < source.rows implies !#[trigger] agree_in(
                    source,
                    later,
                    target,
                    t,
                    keys,
                ) by {
                    assert(sk[later] != tk[t]);
                }
                assert forall|other: int| is_match(source, other, target, t, keys) implies other == s by {
                    assert(sk[other] == tk[t]);
                    if other < s {
                        assert(agree_in(source, s, target, t, keys));
                    }
                }
            },
            None => {
                assert forall|s: int| 0 <= s < source.rows implies !#[trigger] agree_in(
                    source,
                    s,
                    target,
                    t,
                    keys,
                ) by {
                    assert(sk[s] != tk[t]);
                }
            },
        }
    }
}

/// A source row counts as matched where one was before or where a target row matches it.
pub proof fn lemma_is_matched_by(source: BatchModel, target: BatchModel, keys: Seq<usize>, s: int)
    ensures
        hits(source.keys(keys), target.keys(keys), target.rows, s) <==> is_matched_by(
            source,
            s,
            target,
            keys,
        ),
{
    let sk = source.keys(keys);
    let tk = target.keys(keys);
    if hits(sk, tk, target.rows, s) {
        let t = choose|t: int| 0 <= t < target.rows && #[trigger] match_of(sk, tk, t) == Some(s);
        lemma_is_match(source, target, keys, t);
        assert(is_match(source, s, target, t, keys));
    }
    if is_matched_by(source, s, target, keys) {
        let t = choose|t: int| #[trigger] is_match(source, s, target, t, keys);
        lemma_is_match(source, target, keys, t);
        assert(match_of(sk, tk, t) == Some(s));
    }
}

proof fn lemma_same_key_types(source: BatchModel, target: BatchModel, keys: Seq<usize>)
    ensures
        same_key_types(source, target, keys) <==> target.types(keys) == source.types(keys),
{
    let a = source.types(keys);
    let b = target.types(keys);
    if same_key_types(source, target, keys) {
        assert(a =~= b);
    }
    if a == b {
        assert forall|k: int| 0 <= k < keys.len() implies source.columns[#[trigger] keys[k] as int].data_type
            == target.columns[keys[k] as int].data_type by {
            assert(a[k] == b[k]);
        }
    }
}

/// How a failed match is reported.
pub open spec fn is_match_failure(kind: ErrorKind, message: Seq<char>) -> bool {
    &&& kind == ErrorKind::Unexpected
    &&& exists|detail: Seq<char>| {
        ||| message == #[trigger] ("RowConverter convert error: "@ + detail)
        ||| message == "Arrow take error: "@ + detail
        ||| message == "Column neq comparison error: "@ + detail
    }
}

/// When matching the batches of a file fails.
pub proof fn lemma_file_failure(m: MergeModel, file: Seq<BatchModel>)
    ensures
        m.file_failure(file) is None <==> forall|b: int|
            0 <= b < file.len() ==> m.failure(#[trigger] file[b]) is None,
        m.file_failure(file) matches Some(prefix) ==> prefix == "RowConverter convert error: "@ || prefix
            == "Arrow take error: "@ || prefix == "Column neq comparison error: "@,
        (exists|b: int| 0 <= b < file.len() && !same_key_types(m.source, #[trigger] file[b], m.keys))
            ==> m.file_failure(file) is Some,
        (forall|b: int|
            0 <= b < file.len() ==> can_be_matched(m.source, #[trigger] file[b], m.keys, m.non_keys)) ==> forall|
            b: int,
        |
            0 <= b < file.len() ==> m.surely_matches(#[trigger] file[b]),
    decreases file.len(),
{
    if file.len() > 0 {
        let rest = file.drop_last();
        let n = file.len() - 1;
        let last = file[n];
        lemma_file_failure(m, rest);
        assert forall|b: int| 0 <= b < rest.len() implies #[trigger] file[b] == rest[b] by {}
        lemma_same_key_types(m.source, last, m.keys);
        let sk = m.source.keys(m.keys);
        let tk = last.keys(m.keys);
        lemma_detection(
            m.source,
            as_indices(pair_sources(sk, tk, last.rows)),
            last,
            as_indices(pair_targets(sk, tk, last.rows)),
            m.non_keys,
        );
        if m.file_failure(file) is None {
            assert forall|b: int| 0 <= b < file.len() implies m.failure(#[trigger] file[b]) is None by {
                if b < n {
                    assert(m.failure(rest[b]) is None);
                }
            }
        }
        if forall|b: int| 0 <= b < file.len() ==> m.failure(#[trigger] file[b]) is None {
            assert forall|b: int| 0 <= b < rest.len() implies m.failure(#[trigger] rest[b]) is None by {
                assert(rest[b] == file[b]);
            }
            assert(m.failure(file[n]) is None);
        }
        if exists|b: int| 0 <= b < file.len() && !same_key_types(m.source, #[trigger] file[b], m.keys) {
            let b = choose|b: int| 0 <= b < file.len() && !same_key_types(m.source, #[trigger] file[b], m.keys);
            if b < n {
                assert(!same_key_types(m.source, rest[b], m.keys));
            }
        }
        if forall|b: int|
            0 <= b < file.len() ==> can_be_matched(m.source, #[trigger] file[b], m.keys, m.non_keys) {
            assert forall|b: int| 0 <= b < file.len() implies m.surely_matches(#[trigger] file[b]) by {
                assert(can_be_matched(m.source, file[b], m.keys, m.non_keys));
                lemma_same_key_types(m.source, file[b], m.keys);
                lemma_comparison_is_sure(
                    m.source,
                    m.source.keys(m.keys),
                    file[b],
                    file[b].keys(m.keys),
                    m.non_keys,
                );
            }
        }
    }
}

/// The batch can be matched: its key columns have the types of the source's, and the columns that are
/// compared can always be.
pub open spec fn can_be_matched(
    source: BatchModel,
    target: BatchModel,
    keys: Seq<usize>,
    non_keys: Seq<usize>,
) -> bool {
    &&& same_key_types(source, target, keys)
    &&& forall|k: int|
        0 <= k < non_keys.len() ==> can_always_be_compared(
            source.columns[#[trigger] non_keys[k] as int],
            target.columns[non_keys[k] as int],
        )
}

/// The states of a matcher over several calls.
proof fn lemma_states(
    source: &Batch,
    keys: &[usize],
    non_keys: &[usize],
    start: UpsertMatcher,
    states: Seq<&mut UpsertMatcher>,
    targets: Seq<&Batch>,
    results: Seq<Result<MatchResult>>,
    n: int,
)
    requires
        call_ensures(UpsertMatcher::new, (source, keys, non_keys), Ok(start)),
        targets.len() == states.len(),
        results.len() == states.len(),
        states.len() > 0 ==> *states[0] == start,
        forall|i: int|
            0 <= i < states.len() ==> call_ensures(
                UpsertMatcher::match_batch,
                (#[trigger] states[i], targets[i]),
                results[i],
            ),
        forall|i: int| 0 < i < states.len() ==> *(#[trigger] states[i]) == *final(states[i - 1]),
        0 <= n < states.len(),
    ensures
        states[n].source_model() == source@,
        states[n].key_indices() == keys@,
        states[n].non_key_indices() == non_keys@,
        final(states[n]).matched().len() == source@.rows,
        forall|s: int|
            0 <= s < source@.rows ==> (#[trigger] final(states[n]).matched()[s] <==> exists|i: int|
                0 <= i <= n && same_key_types(source@, (#[trigger] targets[i])@, keys@) && is_matched_by(
                    source@,
                    s,
                    targets[i]@,
                    keys@,
                )),
    decreases n,
{
    let target = targets[n]@;
    assert(call_ensures(UpsertMatcher::match_batch, (states[n], targets[n]), results[n]));
    if n > 0 {
        lemma_states(source, keys, non_keys, start, states, targets, results, n - 1);
        assert(*states[n] == *final(states[n - 1]));
        assert(call_ensures(UpsertMatcher::match_batch, (states[n - 1], targets[n - 1]), results[n - 1]));
    }
    lemma_same_key_types(source@, target, keys@);
    let before = states[n].matched();
    let after = final(states[n]).matched();
    assert forall|s: int| 0 <= s < source@.rows implies (#[trigger] after[s] <==> exists|i: int|
        0 <= i <= n && same_key_types(source@, (#[trigger] targets[i])@, keys@) && is_matched_by(
            source@,
            s,
            targets[i]@,
            keys@,
        )) by {
        lemma_is_matched_by(source@, target, keys@, s);
        assert(after[s] <==> before[s] || (same_key_types(source@, target, keys@) && is_matched_by(
            source@,
            s,
            target,
            keys@,
        )));
        if n > 0 {
            assert(before[s] == final(states[n - 1]).matched()[s]);
            if before[s] {
                let i = choose|i: int|
                    0 <= i <= n - 1 && same_key_types(source@, (#[trigger] targets[i])@, keys@)
                        && is_matched_by(source@, s, targets[i]@, keys@);
                assert(0 <= i <= n && same_key_types(source@, targets[i]@, keys@) && is_matched_by(
                    source@,
                    s,
                    targets[i]@,
                    keys@,
                ));
            }
            if exists|i: int|
                0 <= i <= n && same_key_types(source@, (#[trigger] targets[i])@, keys@) && is_matched_by(
                    source@,
                    s,
                    targets[i]@,
                    keys@,
                ) {
                let i = choose|i: int|
                    0 <= i <= n && same_key_types(source@, (#[trigger] targets[i])@, keys@)
                        && is_matched_by(source@, s, targets[i]@, keys@);
                if i < n {
                    assert(0 <= i <= n - 1 && same_key_types(source@, targets[i]@, keys@) && is_matched_by(
                        source@,
                        s,
                        targets[i]@,
                        keys@,
                    ));
                }
            }
        } else if after[s] {
            assert(same_key_types(source@, targets[0]@, keys@) && is_matched_by(
                source@,
                s,
                targets[0]@,
                keys@,
            ));
        }
    }
}

/// Whatever a matcher matched before, it pairs each row of a target batch with the last source row
/// that agrees with it in all key columns, in the order of the target rows; masks the target rows
/// that agree with none; and says of each pair whether the two differ in a column that is compared,
/// a null differing from every value and from no null.
pub proof fn batches_are_matched_by_key(
    source: &Batch,
    keys: &[usize],
    non_keys: &[usize],
    start: UpsertMatcher,
    states: Seq<&mut UpsertMatcher>,
    targets: Seq<&Batch>,
    results: Seq<Result<MatchResult>>,
    n: int,
    found: MatchResult,
)
    requires
        call_ensures(UpsertMatcher::new, (source, keys, non_keys), Ok(start)),
        targets.len() == states.len(),
        results.len() == states.len(),
        states.len() > 0 ==> *states[0] == start,
        forall|i: int|
            0 <= i < states.len() ==> call_ensures(
                UpsertMatcher::match_batch,
                (#[trigger] states[i], targets[i]),
                results[i],
            ),
        forall|i: int| 0 < i < states.len() ==> *(#[trigger] states[i]) == *final(states[i - 1]),
        0 <= n < states.len(),
        results[n] == Ok::<MatchResult, crate::error::Error>(found),
        source@.rows <= 0x1_0000_0000,
        targets[n]@.rows <= 0x1_0000_0000,
    ensures
        same_key_types(source@, targets[n]@, keys@),
        forall|j: int, k: int|
            0 <= j < found.matched_target_indices@.len() && 0 <= k < keys@.len()
                ==> source@.columns[#[trigger] keys@[k] as int].cells[found.matched_source_indices@[j] as int]
                == targets[n]@.columns[keys@[k] as int].cells[#[trigger] found.matched_target_indices@[j] as int],
        forall|j: int|
            0 <= j < found.matched_target_indices@.len() && (#[trigger] mask_cells(found.changed_mask)[j]) == Some(
                false,
            ) ==> forall|k: int|
                0 <= k < non_keys@.len() ==> source@.columns[#[trigger] non_keys@[k] as int].cells[found.matched_source_indices@[j] as int]
                    == targets[n]@.columns[non_keys@[k] as int].cells[found.matched_target_indices@[j] as int],
        forall|j: int|
            0 <= j < found.matched_target_indices@.len() && (#[trigger] mask_cells(found.changed_mask)[j]) == Some(
                true,
            ) ==> exists|k: int|
                0 <= k < non_keys@.len() && source@.columns[#[trigger] non_keys@[k] as int].cells[found.matched_source_indices@[j] as int]
                    != targets[n]@.columns[non_keys@[k] as int].cells[found.matched_target_indices@[j] as int],
        found.matched_target_indices@.len() == found.matched_source_indices@.len(),
        forall|i: int, j: int|
            0 <= i < j < found.matched_target_indices@.len() ==> #[trigger] found.matched_target_indices@[i]
                < #[trigger] found.matched_target_indices@[j],
        forall|j: int|
            0 <= j < found.matched_target_indices@.len() ==> is_match(
                source@,
                found.matched_source_indices@[j] as int,
                targets[n]@,
                #[trigger] found.matched_target_indices@[j] as int,
                keys@,
            ),
        forall|t: u32|
            t < targets[n]@.rows && has_match(source@, targets[n]@, t as int, keys@)
                ==> #[trigger] found.matched_target_indices@.contains(t),
        mask_cells(found.unmatched_target_mask).len() == targets[n]@.rows,
        forall|t: int|
            0 <= t < targets[n]@.rows ==> #[trigger] mask_cells(found.unmatched_target_mask)[t] == Some(
                !has_match(source@, targets[n]@, t, keys@),
            ),
        mask_cells(found.changed_mask).len() == found.matched_target_indices@.len(),
        forall|j: int|
            0 <= j < found.matched_target_indices@.len() ==> #[trigger] mask_cells(found.changed_mask)[j]
                == Some(
                !agree_in(
                    source@,
                    found.matched_source_indices@[j] as int,
                    targets[n]@,
                    found.matched_target_indices@[j] as int,
                    non_keys@,
                ),
            ),
{
    let target = targets[n]@;
    lemma_states(source, keys, non_keys, start, states, targets, results, n);
    assert(call_ensures(UpsertMatcher::match_batch, (states[n], targets[n]), results[n]));
    lemma_same_key_types(source@, target, keys@);
    let sk = source@.keys(keys@);
    let tk = target.keys(keys@);
    let bits = matched_bits(sk, tk, target.rows);
    let pt = pair_targets(sk, tk, target.rows);
    let ps = pair_sources(sk, tk, target.rows);
    let ti = found.matched_target_indices@;
    let si = found.matched_source_indices@;
    lemma_selected(bits);
    assert(as_ints(ti).len() == ti.len());
    assert(as_ints(si).len() == si.len());
    assert forall|j: int| 0 <= j < ti.len() implies #[trigger] ti[j] as int == pt[j] && si[j] as int == ps[j]
        && is_match(source@, si[j] as int, target, ti[j] as int, keys@) by {
        assert(as_ints(ti)[j] == ti[j] as int);
        assert(as_ints(si)[j] == si[j] as int);
        assert(bits[pt[j]]);
        lemma_is_match(source@, target, keys@, pt[j]);
    }
    assert forall|t: u32|
        t < target.rows && has_match(source@, target, t as int, keys@) implies #[trigger] ti.contains(t) by {
        lemma_is_match(source@, target, keys@, t as int);
        assert(bits[t as int]);
        let j = choose|j: int| 0 <= j < pt.len() && pt[j] == t as int;
        assert(ti[j] as int == pt[j]);
    }
    assert forall|t: int| 0 <= t < target.rows implies #[trigger] mask_cells(found.unmatched_target_mask)[t]
        == Some(!has_match(source@, target, t, keys@)) by {
        lemma_is_match(source@, target, keys@, t);
        assert(mask_cells(found.unmatched_target_mask)[t] == Some(unmatched_bits(sk, tk, target.rows)[t]));
    }
    assert forall|j: int| 0 <= j < ti.len() implies #[trigger] mask_cells(found.changed_mask)[j] == Some(
        !agree_in(source@, si[j] as int, target, ti[j] as int, non_keys@),
    ) by {
        lemma_agree_in(source@, ps[j], target, pt[j], non_keys@);
        assert(ti[j] as int == pt[j]);
        assert(mask_cells(found.changed_mask)[j] == Some(
            changed_bits(source@, target, non_keys@, ps, pt)[j],
        ));
    }
    assert forall|j: int, k: int|
        0 <= j < ti.len() && 0 <= k < keys@.len() implies source@.columns[#[trigger] keys@[k] as int].cells[si[j] as int]
        == target.columns[keys@[k] as int].cells[#[trigger] ti[j] as int] by {
        assert(is_match(source@, si[j] as int, target, ti[j] as int, keys@));
    }
}

/// A matcher is made of every source, keeps it, and says how many rows it has, whatever was matched.
pub proof fn matchers_keep_their_source(
    source: &Batch,
    keys: &[usize],
    non_keys: &[usize],
    made: Result<UpsertMatcher>,
    start: UpsertMatcher,
    states: Seq<&mut UpsertMatcher>,
    targets: Seq<&Batch>,
    results: Seq<Result<MatchResult>>,
    last: &UpsertMatcher,
    kept: &Batch,
    len: usize,
)
    requires
        call_ensures(UpsertMatcher::new, (source, keys, non_keys), made),
        made is Ok ==> made->Ok_0 == start,
        targets.len() == states.len(),
        results.len() == states.len(),
        states.len() > 0 ==> *states[0] == start,
        forall|i: int|
            0 <= i < states.len() ==> call_ensures(
                UpsertMatcher::match_batch,
                (#[trigger] states[i], targets[i]),
                results[i],
            ),
        forall|i: int| 0 < i < states.len() ==> *(#[trigger] states[i]) == *final(states[i - 1]),
        *last == if states.len() == 0 {
            start
        } else {
            *final(states[states.len() - 1])
        },
        call_ensures(UpsertMatcher::source, (last,), kept),
        call_ensures(UpsertMatcher::source_len, (last,), len),
    ensures
        made is Ok,
        kept@ == source@,
        len == source@.rows,
{
    let n = states.len() - 1;
    if n >= 0 {
        lemma_states(source, keys, non_keys, start, states, targets, results, n);
        assert(call_ensures(UpsertMatcher::match_batch, (states[n], targets[n]), results[n]));
    }
}

/// The mask of unmatched source rows is true at the rows that no row of any target batch matched,
/// of those batches whose key columns have the types of the source's.
pub proof fn unmatched_source_rows_are_those_never_matched(
    source: &Batch,
    keys: &[usize],
    non_keys: &[usize],
    start: UpsertMatcher,
    states: Seq<&mut UpsertMatcher>,
    targets: Seq<&Batch>,
    results: Seq<Result<MatchResult>>,
    last: &UpsertMatcher,
    mask: BooleanArray,
)
    requires
        call_ensures(UpsertMatcher::new, (source, keys, non_keys), Ok(start)),
        targets.len() == states.len(),
        results.len() == states.len(),
        states.len() > 0 ==> *states[0] == start,
        forall|i: int|
            0 <= i < states.len() ==> call_ensures(
                UpsertMatcher::match_batch,
                (#[trigger] states[i], targets[i]),
                results[i],
            ),
        forall|i: int| 0 < i < states.len() ==> *(#[trigger] states[i]) == *final(states[i - 1]),
        *last == if states.len() == 0 {
            start
        } else {
            *final(states[states.len() - 1])
        },
        call_ensures(UpsertMatcher::unmatched_source_mask, (last,), mask),
    ensures
        mask_cells(mask).len() == source@.rows,
        forall|s: int|
            0 <= s < source@.rows ==> #[trigger] mask_cells(mask)[s] == Some(
                !exists|i: int|
                    0 <= i < targets.len() && same_key_types(source@, (#[trigger] targets[i])@, keys@)
                        && is_matched_by(source@, s, targets[i]@, keys@),
            ),
{
    let n = states.len() - 1;
    if n >= 0 {
        lemma_states(source, keys, non_keys, start, states, targets, results, n);
    }
    let bits = last.matched().map_values(|m: bool| !m);
    assert(is_mask(mask, bits));
    assert(mask_cells(mask).len() == source@.rows);
    assert forall|s: int| 0 <= s < source@.rows implies #[trigger] mask_cells(mask)[s] == Some(
        !exists|i: int|
            0 <= i < targets.len() && same_key_types(source@, (#[trigger] targets[i])@, keys@)
                && is_matched_by(source@, s, targets[i]@, keys@),
    ) by {
        assert(mask_cells(mask)[s] == Some(bits[s]));
        assert(bits[s] == !last.matched()[s]);
        if n >= 0 {
            assert(last.matched()[s] == final(states[n]).matched()[s]);
        }
    }
}

/// Columns that can always be compared are compared, whatever rows match.
pub proof fn lemma_comparison_is_sure(
    source: BatchModel,
    source_keys: Seq<Row>,
    target: BatchModel,
    target_keys: Seq<Row>,
    non_keys: Seq<usize>,
)
    requires
        forall|k: int|
            0 <= k < non_keys.len() ==> can_always_be_compared(
                source.columns[#[trigger] non_keys[k] as int],
                target.columns[non_keys[k] as int],
            ),
    ensures
        comparison_is_sure(source, source_keys, target, target_keys, non_keys),
{
    let s = as_indices(pair_sources(source_keys, target_keys, target.rows));
    let t = as_indices(pair_targets(source_keys, target_keys, target.rows));
    assert forall|k: int| 0 <= k < non_keys.len() implies surely_comparable(
        source.columns[#[trigger] non_keys[k] as int],
        s,
        target.columns[non_keys[k] as int],
        t,
    ) by {
        let a = source.columns[non_keys[k] as int];
        let b = target.columns[non_keys[k] as int];
        assert(can_always_be_compared(a, b));
    }
}

proof fn lemma_detection(
    source: BatchModel,
    s: Seq<u32>,
    target: BatchModel,
    t: Seq<u32>,
    non_keys: Seq<usize>,
)
    ensures
        detection_failure(source, s, target, t, non_keys) is None <==> forall|k: int|
            0 <= k < non_keys.len() ==> column_failure(
                source.columns[#[trigger] non_keys[k] as int],
                s,
                target.columns[non_keys[k] as int],
                t,
            ) is None,
        detection_failure(source, s, target, t, non_keys) matches Some(prefix) ==> prefix
            == "Arrow take error: "@ || prefix == "Column neq comparison error: "@,
    decreases non_keys.len(),
{
    if non_keys.len() > 0 {
        let rest = non_keys.drop_last();
        lemma_detection(source, s, target, t, rest);
        assert forall|k: int| 0 <= k < rest.len() implies #[trigger] non_keys[k] == rest[k] by {}
        if detection_failure(source, s, target, t, non_keys) is None {
            assert forall|k: int| 0 <= k < non_keys.len() implies column_failure(
                source.columns[#[trigger] non_keys[k] as int],
                s,
                target.columns[non_keys[k] as int],
                t,
            ) is None by {
                if k < rest.len() {
                    assert(rest[k] == non_keys[k]);
                }
            }
        }
        if forall|k: int|
            0 <= k < non_keys.len() ==> column_failure(
                source.columns[#[trigger] non_keys[k] as int],
                s,
                target.columns[non_keys[k] as int],
                t,
            ) is None {
            assert forall|k: int| 0 <= k < rest.len() implies column_failure(
                source.columns[#[trigger] rest[k] as int],
                s,
                target.columns[rest[k] as int],
                t,
            ) is None by {
                assert(rest[k] == non_keys[k]);
            }
            assert(non_keys[non_keys.len() - 1] == non_keys.last());
        }
    }
}

/// A target batch whose key columns have other types than the source's is refused. Any other is
/// matched where nothing needs comparing, and where the compared columns can always be compared. Where a row matched, columns were compared only if Arrow compares their
/// types. Every failure is reported as one of an Arrow call.
pub proof fn batches_that_can_be_compared_are_matched(
    source: &Batch,
    keys: &[usize],
    non_keys: &[usize],
    start: UpsertMatcher,
    states: Seq<&mut UpsertMatcher>,
    targets: Seq<&Batch>,
    results: Seq<Result<MatchResult>>,
    n: int,
)
    requires
        call_ensures(UpsertMatcher::new, (source, keys, non_keys), Ok(start)),
        targets.len() == states.len(),
        results.len() == states.len(),
        states.len() > 0 ==> *states[0] == start,
        forall|i: int|
            0 <= i < states.len() ==> call_ensures(
                UpsertMatcher::match_batch,
                (#[trigger] states[i], targets[i]),
                results[i],
            ),
        forall|i: int| 0 < i < states.len() ==> *(#[trigger] states[i]) == *final(states[i - 1]),
        0 <= n < states.len(),
    ensures
        !same_key_types(source@, targets[n]@, keys@) ==> (results[n] matches Err(e)
            && exists|detail: Seq<char>|
            e.spec_message() == #[trigger] ("RowConverter convert error: "@ + detail)),
        same_key_types(source@, targets[n]@, keys@) && (forall|t: int|
            0 <= t < targets[n]@.rows ==> !#[trigger] has_match(source@, targets[n]@, t, keys@)) ==> results[n] is Ok,
        same_key_types(source@, targets[n]@, keys@) && (forall|k: int|
            0 <= k < non_keys@.len() ==> can_always_be_compared(
                source@.columns[#[trigger] non_keys@[k] as int],
                targets[n]@.columns[non_keys@[k] as int],
            )) ==> results[n] is Ok,
        results[n] is Ok && (exists|t: int|
            0 <= t < targets[n]@.rows && #[trigger] has_match(source@, targets[n]@, t, keys@)) ==> forall|k: int|
            0 <= k < non_keys@.len() ==> neq_supported(
                source@.columns[#[trigger] non_keys@[k] as int].data_type,
                targets[n]@.columns[non_keys@[k] as int].data_type,
            ),
        results[n] matches Err(e) ==> e.spec_kind() == ErrorKind::Unexpected && exists|detail: Seq<char>| {
            ||| e.spec_message() == #[trigger] ("RowConverter convert error: "@ + detail)
            ||| e.spec_message() == "Arrow take error: "@ + detail
            ||| e.spec_message() == "Column neq comparison error: "@ + detail
        },
{
    let target = targets[n]@;
    let result = results[n];
    lemma_states(source, keys, non_keys, start, states, targets, results, n);
    assert(call_ensures(UpsertMatcher::match_batch, (states[n], targets[n]), result));
    lemma_same_key_types(source@, target, keys@);
    let sk = source@.keys(keys@);
    let tk = target.keys(keys@);
    let bits = matched_bits(sk, tk, target.rows);
    let pt = pair_targets(sk, tk, target.rows);
    let ps = pair_sources(sk, tk, target.rows);
    lemma_selected(bits);
    assert(pt.len() > 0 <==> exists|t: int|
        0 <= t < target.rows && #[trigger] has_match(source@, target, t, keys@)) by {
        if pt.len() > 0 {
            assert(bits[pt[0]]);
            lemma_is_match(source@, target, keys@, pt[0]);
        }
        if exists|t: int| 0 <= t < target.rows && #[trigger] has_match(source@, target, t, keys@) {
            let t = choose|t: int| 0 <= t < target.rows && #[trigger] has_match(source@, target, t, keys@);
            lemma_is_match(source@, target, keys@, t);
            assert(bits[t]);
        }
    }
    lemma_detection(source@, as_indices(ps), target, as_indices(pt), non_keys@);
    if forall|k: int|
        0 <= k < non_keys@.len() ==> can_always_be_compared(
            source@.columns[#[trigger] non_keys@[k] as int],
            target.columns[non_keys@[k] as int],
        ) {
        lemma_comparison_is_sure(source@, sk, target, tk, non_keys@);
    }
    if result is Ok && pt.len() > 0 {
        assert forall|k: int| 0 <= k < non_keys@.len() implies neq_supported(
            source@.columns[#[trigger] non_keys@[k] as int].data_type,
            target.columns[non_keys@[k] as int].data_type,
        ) by {
            assert(column_failure(
                source@.columns[non_keys@[k] as int],
                as_indices(ps),
                target.columns[non_keys@[k] as int],
                as_indices(pt),
            ) is None);
        }
    }
    if result is Err {
        let e = result->Err_0;
        let prefix = states[n].failure(target)->0;
        let detail = choose|detail: Seq<char>| e.spec_message() == #[trigger] (prefix + detail);
        assert(e.spec_message() == prefix + detail);
        let other = "RowConverter convert error: "@ + detail;
        assert(prefix == "RowConverter convert error: "@ || prefix == "Arrow take error: "@ || prefix
            == "Column neq comparison error: "@);
        assert({
            ||| e.spec_message() == other
            ||| e.spec_message() == "Arrow take error: "@ + detail
            ||| e.spec_message() == "Column neq comparison error: "@ + detail
        });
    }
}

}
